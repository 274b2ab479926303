//! Points of the unit interval.
//!
//! A point of `[0, 1)` is given by its binary digits after the point, most
//! significant first, as a `Seq<bool>`; the digits beyond the end of the
//! sequence are zero. Digit `false` selects the left half of a region and
//! digit `true` the right half. The points that can be written this way are
//! the dyadic rationals, which meet every half-open region that a tree can
//! describe, so two trees that agree on all of them describe the same function.
use vstd::prelude::*;

verus! {

/// Whether the point lies in the right half of the region it is read in.
pub open spec fn goes_right(p: Seq<bool>) -> bool {
    p.len() > 0 && p[0]
}

/// The point as it is read inside the half that it lies in.
pub open spec fn rest(p: Seq<bool>) -> Seq<bool> {
    if p.len() > 0 {
        p.drop_first()
    } else {
        p
    }
}

/// The point that lies in the half chosen by `right`, at `p` within that half.
pub open spec fn within(right: bool, p: Seq<bool>) -> Seq<bool> {
    seq![right] + p
}

/// Reading `within(right, p)` selects the half `right` and goes on with `p`.
pub proof fn lemma_within(right: bool, p: Seq<bool>)
    ensures
        goes_right(within(right, p)) == right,
        rest(within(right, p)) == p,
{
    assert(within(right, p).drop_first() =~= p);
}

} // verus!
