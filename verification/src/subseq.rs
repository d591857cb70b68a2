//! Order-preserving subsequences, the shared output contract of every
//! simplification engine: the simplified run is the input run with some
//! interior samples removed.

use vstd::prelude::*;
use crate::point::Point;

verus! {

/// `m` maps each position of `r` to the position of the same sample in `s`,
/// strictly left to right.
pub open spec fn is_index_map(m: Seq<int>, r: Seq<Point>, s: Seq<Point>) -> bool {
    &&& m.len() == r.len()
    &&& forall|k: int|
        0 <= k < m.len() ==> 0 <= #[trigger] m[k] < s.len() && r[k] == s[m[k]]
    &&& forall|a: int, b: int| #![trigger m[a], m[b]] 0 <= a < b < m.len() ==> m[a] < m[b]
}

/// `r` is an order-preserving subsequence of `s`.
pub open spec fn is_subsequence(r: Seq<Point>, s: Seq<Point>) -> bool {
    exists|m: Seq<int>| is_index_map(m, r, s)
}

/// Positions grow at least as fast as the index: a strictly increasing
/// index map spans at least `b - a` positions between `a` and `b`.
pub proof fn lemma_index_map_gap(m: Seq<int>, r: Seq<Point>, s: Seq<Point>, a: int, b: int)
    requires
        is_index_map(m, r, s),
        0 <= a <= b < m.len(),
    ensures
        m[b] - m[a] >= b - a,
    decreases b - a,
{
    if a < b {
        lemma_index_map_gap(m, r, s, a, b - 1);
    }
}

} // verus!
