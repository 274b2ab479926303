//! Interval tree clocks: identity trees, event trees, and a replicated map
//! that uses an event tree as its causal clock.
pub mod event_tree;
pub mod id_tree;
pub mod itc_index;
pub mod itc_map;
pub mod itc_pair;
pub mod point;
pub mod text;

pub use event_tree::EventTree;
pub use id_tree::parser::IdTreeParseError;
pub use id_tree::IdTree;
pub use itc_index::ItcIndex;
pub use itc_map::{ItcMap, Patch};
pub use itc_pair::ItcPair;
