//! Reading an identity tree from its text form.
//!
//! A tree is written `0`, `1`, or `(L, R)` with two trees `L` and `R`. White
//! space around a tree, in the sense of Unicode, is passed over. A number may have a plus sign and
//! leading zeros.
use vstd::prelude::*;
use vstd::string::{StrSliceExecFns, StringExecFns};
use crate::id_tree::IdTree;
use crate::text::{decimal, push_decimal};

verus! {

/// Why a text is not an identity tree.
#[derive(Debug, PartialEq, Eq)]
pub enum IdTreeParseError {
    /// The text is a number other than zero and one.
    InvalidValue(u32),
    /// The text is in round brackets, with no comma between two trees.
    NoSplit,
    /// The text is neither a number nor in round brackets.
    Unknown,
}

impl IdTreeParseError {
    /// The message of the error.
    pub open spec fn text(self) -> Seq<char> {
        match self {
            IdTreeParseError::InvalidValue(v) => "Invalid value encountered "@ + decimal(v as nat),
            IdTreeParseError::NoSplit => "Unable to find the split"@,
            IdTreeParseError::Unknown => "Unknown characters"@,
        }
    }

    /// The message of the error.
    pub fn to_string(&self) -> (r: String)
        ensures
            r@ == self.text(),
    {
        let mut s = String::new();
        match self {
            IdTreeParseError::InvalidValue(v) => {
                s.append("Invalid value encountered ");
                push_decimal(&mut s, *v as u64);
            },
            IdTreeParseError::NoSplit => {
                s.append("Unable to find the split");
            },
            IdTreeParseError::Unknown => {
                s.append("Unknown characters");
            },
        }
        assert(s@ =~= self.text());
        s
    }
}

/// Whether the character is white space: a character with the Unicode
/// property `White_Space`.
pub open spec fn is_space(c: char) -> bool {
    c == '\u{9}'
        || c == '\u{A}'
        || c == '\u{B}'
        || c == '\u{C}'
        || c == '\u{D}'
        || c == '\u{20}'
        || c == '\u{85}'
        || c == '\u{A0}'
        || c == '\u{1680}'
        || c == '\u{2000}'
        || c == '\u{2001}'
        || c == '\u{2002}'
        || c == '\u{2003}'
        || c == '\u{2004}'
        || c == '\u{2005}'
        || c == '\u{2006}'
        || c == '\u{2007}'
        || c == '\u{2008}'
        || c == '\u{2009}'
        || c == '\u{200A}'
        || c == '\u{2028}'
        || c == '\u{2029}'
        || c == '\u{202F}'
        || c == '\u{205F}'
        || c == '\u{3000}'
}

/// The value of a decimal digit, or `None` for another character.
pub open spec fn digit_value(c: char) -> Option<nat> {
    if c == '0' {
        Some(0)
    } else if c == '1' {
        Some(1)
    } else if c == '2' {
        Some(2)
    } else if c == '3' {
        Some(3)
    } else if c == '4' {
        Some(4)
    } else if c == '5' {
        Some(5)
    } else if c == '6' {
        Some(6)
    } else if c == '7' {
        Some(7)
    } else if c == '8' {
        Some(8)
    } else if c == '9' {
        Some(9)
    } else {
        None
    }
}

/// The first place from `lo` on, before `hi`, that holds no white space, or
/// `hi` where there is none.
pub open spec fn skip_spaces(s: Seq<char>, lo: int, hi: int) -> int
    decreases hi - lo,
{
    if lo < hi && is_space(s[lo]) {
        skip_spaces(s, lo + 1, hi)
    } else {
        lo
    }
}

/// The end of the text between `lo` and `hi` without the white space at its
/// end.
pub open spec fn drop_spaces(s: Seq<char>, lo: int, hi: int) -> int
    decreases hi - lo,
{
    if lo < hi && is_space(s[hi - 1]) {
        drop_spaces(s, lo, hi - 1)
    } else {
        hi
    }
}

/// Whether the places from `lo` to `hi` hold decimal digits only.
pub open spec fn all_digits(s: Seq<char>, lo: int, hi: int) -> bool {
    forall|i: int| lo <= i < hi ==> (#[trigger] digit_value(s[i])) is Some
}

/// The number that the decimal digits from `lo` to `hi` stand for.
pub open spec fn digits_value(s: Seq<char>, lo: int, hi: int) -> nat
    decreases hi - lo,
{
    if lo < hi {
        digits_value(s, lo, hi - 1) * 10 + digit_value(s[hi - 1]).unwrap()
    } else {
        0
    }
}

/// The number that the text between `lo` and `hi` stands for: decimal
/// digits, a plus sign before them or not, with a value of at most
/// `u32::MAX`; `None` where the text is no such number.
pub open spec fn number(s: Seq<char>, lo: int, hi: int) -> Option<nat> {
    let start = if lo < hi && s[lo] == '+' {
        lo + 1
    } else {
        lo
    };
    if start < hi && all_digits(s, start, hi) && digits_value(s, start, hi) <= u32::MAX {
        Some(digits_value(s, start, hi))
    } else {
        None
    }
}

/// How many round brackets are open after the character `c`, where `depth`
/// were open before it.
pub open spec fn depth_after(depth: int, c: char) -> int {
    if c == '(' {
        depth + 1
    } else if c == ')' {
        depth - 1
    } else {
        depth
    }
}

/// The place of the first comma from `lo` on, before `hi`, that stands
/// outside all round brackets, where `depth` brackets are open at `lo`; none
/// where a bracket is closed that was not opened.
pub open spec fn split_point(s: Seq<char>, lo: int, hi: int, depth: int) -> Option<int>
    decreases hi - lo,
{
    if lo >= hi || depth < 0 {
        None
    } else if s[lo] == ',' && depth == 0 {
        Some(lo)
    } else {
        split_point(s, lo + 1, hi, depth_after(depth, s[lo]))
    }
}

/// The tree that the text between `lo` and `hi` stands for, or why it stands
/// for none.
pub open spec fn parse_at(s: Seq<char>, lo: int, hi: int) -> Result<IdTree, IdTreeParseError>
    decreases hi - lo,
{
    let a = skip_spaces(s, lo, hi);
    let b = drop_spaces(s, a, hi);
    if !(lo <= a <= b <= hi) {
        Err(IdTreeParseError::Unknown)
    } else if number(s, a, b) is Some {
        let v = number(s, a, b).unwrap();
        if v == 0 {
            Ok(IdTree::Zero)
        } else if v == 1 {
            Ok(IdTree::One)
        } else {
            Err(IdTreeParseError::InvalidValue(v as u32))
        }
    } else if b - a >= 2 && s[a] == '(' && s[b - 1] == ')' {
        match split_point(s, a + 1, b - 1, 0) {
            None => Err(IdTreeParseError::NoSplit),
            Some(c) => {
                if !(a + 1 <= c < b - 1) {
                    Err(IdTreeParseError::NoSplit)
                } else {
                    match parse_at(s, a + 1, c) {
                        Err(e) => Err(e),
                        Ok(l) => match parse_at(s, c + 1, b - 1) {
                            Err(e) => Err(e),
                            Ok(r) => Ok(IdTree::SubTree(Box::new(l), Box::new(r))),
                        },
                    }
                }
            },
        }
    } else {
        Err(IdTreeParseError::Unknown)
    }
}

/// The tree that a text stands for, or why it stands for none.
pub open spec fn parse_spec(s: Seq<char>) -> Result<IdTree, IdTreeParseError> {
    parse_at(s, 0, s.len() as int)
}

/// The places of a text never lie outside it.
pub proof fn lemma_spaces_bounds(s: Seq<char>, lo: int, hi: int)
    requires
        lo <= hi,
    ensures
        lo <= skip_spaces(s, lo, hi) <= hi,
        lo <= drop_spaces(s, lo, hi) <= hi,
    decreases hi - lo,
{
    if lo < hi {
        lemma_spaces_bounds(s, lo + 1, hi);
        lemma_spaces_bounds(s, lo, hi - 1);
    }
}

/// The text form of a tree begins and ends with a character of the tree.
pub proof fn lemma_text_ends(t: IdTree)
    ensures
        t.text().len() >= 1,
        t.text().first() == '0' || t.text().first() == '1' || t.text().first() == '(',
        t.text().last() == '0' || t.text().last() == '1' || t.text().last() == ')',
    decreases t,
{
    match t {
        IdTree::SubTree(l, r) => {
            lemma_text_ends(*l);
            lemma_text_ends(*r);
        },
        _ => {},
    }
}

/// Where the text form of a node stands in a text, its brackets, its comma
/// and the text forms of its two halves stand.
proof fn lemma_text_parts(s: Seq<char>, lo: int, t: IdTree)
    requires
        t is SubTree,
        0 <= lo,
        lo + t.text().len() <= s.len(),
        s.subrange(lo, lo + t.text().len()) == t.text(),
    ensures
        ({
            let l = t->SubTree_0.text();
            let r = t->SubTree_1.text();
            &&& t.text().len() == l.len() + r.len() + 4
            &&& s[lo] == '('
            &&& s.subrange(lo + 1, lo + 1 + l.len()) == l
            &&& s[lo + 1 + l.len()] == ','
            &&& s[lo + 2 + l.len()] == ' '
            &&& s.subrange(lo + 3 + l.len(), lo + 3 + l.len() + r.len()) == r
            &&& s[lo + 3 + l.len() + r.len()] == ')'
        }),
{
    let l = t->SubTree_0.text();
    let r = t->SubTree_1.text();
    let x = t.text();
    let part = s.subrange(lo, lo + x.len());
    assert(x =~= seq!['('] + l + seq![',', ' '] + r + seq![')']);
    assert forall|j: int| 0 <= j < x.len() implies s[lo + j] == #[trigger] x[j] by {
        assert(part[j] == s[lo + j]);
    }
    let a = l.len() as int;
    let b = r.len() as int;
    assert(x[0] == '(');
    assert(x[1 + a] == ',');
    assert(x[2 + a] == ' ');
    assert(x[3 + a + b] == ')');
    assert(s.subrange(lo + 1, lo + 1 + l.len()) =~= l) by {
        assert forall|j: int| 0 <= j < l.len() implies s[lo + 1 + j] == l[j] by {
            assert(x[1 + j] == l[j]);
        }
    }
    assert(s.subrange(lo + 3 + l.len(), lo + 3 + l.len() + r.len()) =~= r) by {
        assert forall|j: int| 0 <= j < r.len() implies s[lo + 3 + l.len() + j] == r[j] by {
            assert(x[3 + l.len() + j] == r[j]);
        }
    }
}

/// The search for a comma outside all round brackets passes over the text
/// form of a tree.
proof fn lemma_split_skips(s: Seq<char>, lo: int, hi: int, depth: int, t: IdTree)
    requires
        0 <= lo,
        lo + t.text().len() <= hi <= s.len(),
        s.subrange(lo, lo + t.text().len()) == t.text(),
        depth >= 0,
    ensures
        split_point(s, lo, hi, depth) == split_point(s, lo + t.text().len(), hi, depth),
    decreases t,
{
    match t {
        IdTree::SubTree(l, r) => {
            lemma_text_parts(s, lo, t);
            let a = l.text().len() as int;
            let b = r.text().len() as int;
            assert(split_point(s, lo, hi, depth) == split_point(s, lo + 1, hi, depth + 1));
            lemma_split_skips(s, lo + 1, hi, depth + 1, *l);
            assert(split_point(s, lo + 1 + a, hi, depth + 1) == split_point(
                s,
                lo + 2 + a,
                hi,
                depth + 1,
            ));
            assert(split_point(s, lo + 2 + a, hi, depth + 1) == split_point(
                s,
                lo + 3 + a,
                hi,
                depth + 1,
            ));
            lemma_split_skips(s, lo + 3 + a, hi, depth + 1, *r);
            assert(split_point(s, lo + 3 + a + b, hi, depth + 1) == split_point(
                s,
                lo + 4 + a + b,
                hi,
                depth,
            ));
        },
        _ => {
            assert(s.subrange(lo, lo + 1)[0] == t.text()[0]);
            assert(split_point(s, lo, hi, depth) == split_point(s, lo + 1, hi, depth));
        },
    }
}

/// Where the text form of a tree stands in a text, that tree is read there.
proof fn lemma_parse_at_text(s: Seq<char>, lo: int, t: IdTree)
    requires
        0 <= lo,
        lo + t.text().len() <= s.len(),
        s.subrange(lo, lo + t.text().len()) == t.text(),
    ensures
        parse_at(s, lo, lo + t.text().len()) == Ok::<IdTree, IdTreeParseError>(t),
    decreases t,
{
    let x = t.text();
    let hi = lo + x.len();
    lemma_text_ends(t);
    assert(s.subrange(lo, hi)[0] == s[lo]);
    assert(s.subrange(lo, hi)[x.len() - 1] == s[hi - 1]);
    assert(skip_spaces(s, lo, hi) == lo);
    assert(drop_spaces(s, lo, hi) == hi);
    match t {
        IdTree::SubTree(l, r) => {
            lemma_text_parts(s, lo, t);
            let a = l.text().len() as int;
            let b = r.text().len() as int;
            assert(digit_value(s[lo]) is None);
            assert(number(s, lo, hi) is None);
            lemma_split_skips(s, lo + 1, hi - 1, 0, *l);
            let c = lo + 1 + a;
            assert(split_point(s, c, hi - 1, 0) == Some(c));
            lemma_parse_at_text(s, lo + 1, *l);
            lemma_parse_at_text(s, c + 2, *r);
            lemma_text_ends(*r);
            assert(s.subrange(c + 2, c + 2 + b)[0] == s[c + 2]);
            assert(s.subrange(c + 2, c + 2 + b)[b - 1] == s[hi - 2]);
            assert(skip_spaces(s, c + 1, hi - 1) == c + 2) by {
                assert(skip_spaces(s, c + 2, hi - 1) == c + 2);
            }
            assert(skip_spaces(s, c + 2, hi - 1) == c + 2);
            assert(drop_spaces(s, c + 2, hi - 1) == hi - 1);
            assert(parse_at(s, c + 1, hi - 1) == parse_at(s, c + 2, hi - 1));
        },
        _ => {
            reveal_with_fuel(digits_value, 2);
            assert(digit_value(s[lo]) is Some);
        },
    }
}

/// Text round trip: the text form of a tree is read as that tree.
pub proof fn lemma_parse_text(t: IdTree)
    ensures
        parse_spec(t.text()) == Ok::<IdTree, IdTreeParseError>(t),
{
    let x = t.text();
    assert(x.subrange(0, x.len() as int) =~= x);
    lemma_parse_at_text(x, 0, t);
}

fn space(c: char) -> (b: bool)
    ensures
        b == is_space(c),
{
    c == '\u{9}'
        || c == '\u{A}'
        || c == '\u{B}'
        || c == '\u{C}'
        || c == '\u{D}'
        || c == '\u{20}'
        || c == '\u{85}'
        || c == '\u{A0}'
        || c == '\u{1680}'
        || c == '\u{2000}'
        || c == '\u{2001}'
        || c == '\u{2002}'
        || c == '\u{2003}'
        || c == '\u{2004}'
        || c == '\u{2005}'
        || c == '\u{2006}'
        || c == '\u{2007}'
        || c == '\u{2008}'
        || c == '\u{2009}'
        || c == '\u{200A}'
        || c == '\u{2028}'
        || c == '\u{2029}'
        || c == '\u{202F}'
        || c == '\u{205F}'
        || c == '\u{3000}'
}

fn digit_of(c: char) -> (r: Option<u64>)
    ensures
        match r {
            Some(d) => digit_value(c) == Some(d as nat) && d < 10,
            None => digit_value(c) is None,
        },
{
    if c == '0' {
        Some(0)
    } else if c == '1' {
        Some(1)
    } else if c == '2' {
        Some(2)
    } else if c == '3' {
        Some(3)
    } else if c == '4' {
        Some(4)
    } else if c == '5' {
        Some(5)
    } else if c == '6' {
        Some(6)
    } else if c == '7' {
        Some(7)
    } else if c == '8' {
        Some(8)
    } else if c == '9' {
        Some(9)
    } else {
        None
    }
}

/// Reads the number between `lo` and `hi`, if the text there is one.
fn read_number(s: &Vec<char>, lo: usize, hi: usize) -> (r: Option<u32>)
    requires
        lo <= hi <= s@.len(),
    ensures
        match r {
            Some(v) => number(s@, lo as int, hi as int) == Some(v as nat),
            None => number(s@, lo as int, hi as int) is None,
        },
{
    let start: usize = if lo < hi && s[lo] == '+' {
        lo + 1
    } else {
        lo
    };
    if start >= hi {
        return None;
    }
    let mut acc: u64 = 0;
    let mut over = false;
    let mut i: usize = start;
    while i < hi
        invariant
            lo <= start <= i <= hi <= s@.len(),
            start == (if lo < hi && s@[lo as int] == '+' {
                lo + 1
            } else {
                lo as int
            }),
            all_digits(s@, start as int, i as int),
            !over ==> acc == digits_value(s@, start as int, i as int) && acc <= u32::MAX,
            over ==> digits_value(s@, start as int, i as int) > u32::MAX,
        decreases hi - i,
    {
        match digit_of(s[i]) {
            None => {
                proof {
                    assert(digit_value(s@[i as int]) is None);
                }
                return None;
            },
            Some(d) => {
                if !over {
                    acc = acc * 10 + d;
                    if acc > 0xffff_ffff {
                        over = true;
                    }
                }
            },
        }
        i += 1;
    }
    if over {
        None
    } else {
        Some(acc as u32)
    }
}

/// Finds the first comma between `lo` and `hi` that stands outside all round
/// brackets.
fn find_split(s: &Vec<char>, lo: usize, hi: usize) -> (r: Option<usize>)
    requires
        lo <= hi <= s@.len(),
    ensures
        match r {
            Some(c) => split_point(s@, lo as int, hi as int, 0) == Some(c as int) && lo <= c < hi,
            None => split_point(s@, lo as int, hi as int, 0) is None,
        },
{
    let mut i: usize = lo;
    let mut open: usize = 0;
    while i < hi
        invariant
            lo <= i <= hi <= s@.len(),
            open <= i - lo,
            split_point(s@, lo as int, hi as int, 0) == split_point(
                s@,
                i as int,
                hi as int,
                open as int,
            ),
        decreases hi - i,
    {
        let c = s[i];
        if c == ',' && open == 0 {
            return Some(i);
        }
        if c == '(' {
            open += 1;
        } else if c == ')' {
            if open == 0 {
                assert(split_point(s@, i + 1, hi as int, -1) is None);
                return None;
            }
            open -= 1;
        }
        i += 1;
    }
    None
}

/// Reads the tree between `lo` and `hi`.
fn parse_range(s: &Vec<char>, lo: usize, hi: usize) -> (r: Result<IdTree, IdTreeParseError>)
    requires
        lo <= hi <= s@.len(),
    ensures
        r == parse_at(s@, lo as int, hi as int),
    decreases hi - lo,
{
    proof {
        lemma_spaces_bounds(s@, lo as int, hi as int);
        lemma_spaces_bounds(s@, skip_spaces(s@, lo as int, hi as int), hi as int);
    }
    let mut a: usize = lo;
    while a < hi && space(s[a])
        invariant
            lo <= a <= hi <= s@.len(),
            skip_spaces(s@, lo as int, hi as int) == skip_spaces(s@, a as int, hi as int),
        decreases hi - a,
    {
        a += 1;
    }
    let mut b: usize = hi;
    while a < b && space(s[b - 1])
        invariant
            a <= b <= hi <= s@.len(),
            drop_spaces(s@, a as int, hi as int) == drop_spaces(s@, a as int, b as int),
        decreases b - a,
    {
        b -= 1;
    }
    match read_number(s, a, b) {
        Some(v) => {
            if v == 0 {
                Ok(IdTree::Zero)
            } else if v == 1 {
                Ok(IdTree::One)
            } else {
                Err(IdTreeParseError::InvalidValue(v))
            }
        },
        None => {
            if b - a >= 2 && s[a] == '(' && s[b - 1] == ')' {
                match find_split(s, a + 1, b - 1) {
                    None => Err(IdTreeParseError::NoSplit),
                    Some(c) => {
                        let l = parse_range(s, a + 1, c);
                        match l {
                            Err(e) => Err(e),
                            Ok(l) => {
                                let r = parse_range(s, c + 1, b - 1);
                                match r {
                                    Err(e) => Err(e),
                                    Ok(r) => Ok(IdTree::SubTree(Box::new(l), Box::new(r))),
                                }
                            },
                        }
                    },
                }
            } else {
                Err(IdTreeParseError::Unknown)
            }
        },
    }
}

impl IdTree {
    /// Reads a tree from its text form. Every tree is read back from its own
    /// text form.
    pub fn parse(s: &str) -> (r: Result<IdTree, IdTreeParseError>)
        ensures
            r == parse_spec(s@),
            forall|t: IdTree| s@ == t.text() ==> r == Ok::<IdTree, IdTreeParseError>(t),
    {
        proof {
            assert forall|t: IdTree| s@ == t.text() implies parse_spec(s@) == Ok::<
                IdTree,
                IdTreeParseError,
            >(t) by {
                lemma_parse_text(t);
            }
        }
        let n = s.unicode_len();
        let mut chars: Vec<char> = Vec::new();
        let mut i: usize = 0;
        while i < n
            invariant
                i <= n,
                n == s@.len(),
                chars@ == s@.take(i as int),
            decreases n - i,
        {
            chars.push(s.get_char(i));
            assert(chars@ =~= s@.take(i + 1));
            i += 1;
        }
        assert(chars@ =~= s@);
        parse_range(&chars, 0, n)
    }
}

impl std::str::FromStr for IdTree {
    type Err = IdTreeParseError;

    /// Reads a tree from its text form, as `IdTree::parse` does. Every tree is
    /// read back from its own text form.
    fn from_str(s: &str) -> (r: Result<Self, Self::Err>)
        ensures
            r == parse_spec(s@),
            forall|t: IdTree| s@ == t.text() ==> r == Ok::<IdTree, IdTreeParseError>(t),
    {
        IdTree::parse(s)
    }
}

} // verus!
