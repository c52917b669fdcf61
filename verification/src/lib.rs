//! Cache-conscious static index structures answering lower-bound point
//! queries ("smallest stored key >= query value") over an immutable
//! ascending sequence of `u32` keys.
//!
//! Three representations are provided, all built once from the same
//! ascending key sequence and never mutated afterwards:
//! - [`binary_search::SortedVec`]: a flat sorted array searched with a
//!   branch-free binary search;
//! - [`eytzinger::Eytzinger`]: a breadth-first (implicit complete binary
//!   tree) relayout searched by a fixed-iteration descent plus a bit-trick
//!   answer recovery;
//! - [`s_tree::STree`]: a blocked 17-ary static tree of 16-key nodes,
//!   searched level by level, optionally over a whole batch of queries
//!   at once.
//!
//! All queries share one canonical contract: the result is the smallest
//! stored key greater than or equal to the query value, or [`SENTINEL`]
//! when the value exceeds every stored key.

use vstd::prelude::*;

pub mod binary_search;
pub mod eytzinger;
pub mod experiment;
pub mod s_tree;
pub mod s_tree_node;

verus! {

/// Reserved maximum key value, used as "infinity": guard slot, node padding
/// and the uniform "query exceeds all stored keys" result. Real keys are
/// always strictly below it.
pub const SENTINEL: u32 = u32::MAX;

/// Number of keys per node of the blocked tree (one cache line of `u32`).
pub const NODE_LEN: usize = 16;

/// The keys of a sequence grow strictly from left to right.
pub open spec fn strictly_ascending(s: Seq<u32>) -> bool {
    forall|i: int, j: int| 0 <= i < j < s.len() ==> s[i] < s[j]
}

/// A sequence that an index can be built from: non-empty, strictly
/// ascending, and staying clear of the sentinel.
pub open spec fn valid_keys(s: Seq<u32>) -> bool {
    &&& s.len() >= 1
    &&& strictly_ascending(s)
    &&& forall|i: int| 0 <= i < s.len() ==> s[i] < SENTINEL
}

/// Index of the first entry of `s` that is `>= v`, or `s.len()` if every
/// entry is below `v`. Defined for arbitrary sequences; on ascending ones
/// it is the classic lower-bound position.
pub open spec fn lb_index(s: Seq<u32>, v: u32) -> int
    decreases s.len(),
{
    if s.len() == 0 {
        0
    } else if s[0] >= v {
        0
    } else {
        1 + lb_index(s.subrange(1, s.len() as int), v)
    }
}

/// The entry of `s` at position `p`, extended beyond the end by the
/// sentinel. The padded view is what the blocked tree physically stores.
pub open spec fn padded_key(s: Seq<u32>, p: int) -> u32 {
    if 0 <= p < s.len() {
        s[p]
    } else {
        SENTINEL
    }
}

/// Canonical query result: the smallest stored key `>= v`, or the
/// sentinel when `v` exceeds every stored key.
pub open spec fn lower_bound(s: Seq<u32>, v: u32) -> u32 {
    padded_key(s, lb_index(s, v))
}

/// `lb_index` is the first position whose key reaches `v`: everything
/// before it is below `v`, and the (padded) key at it is `>= v`.
pub proof fn lemma_lb_index_props(s: Seq<u32>, v: u32)
    ensures
        0 <= lb_index(s, v) <= s.len(),
        forall|j: int| 0 <= j < lb_index(s, v) ==> s[j] < v,
        lb_index(s, v) < s.len() ==> s[lb_index(s, v)] >= v,
    decreases s.len(),
{
    if s.len() == 0 {
    } else if s[0] >= v {
    } else {
        let t = s.subrange(1, s.len() as int);
        lemma_lb_index_props(t, v);
        assert forall|j: int| 0 <= j < lb_index(s, v) implies s[j] < v by {
            if j >= 1 {
                assert(t[j - 1] == s[j]);
            }
        }
        if lb_index(s, v) < s.len() {
            assert(s[lb_index(s, v)] == t[lb_index(t, v)]);
        }
    }
}

/// Any position with the first-reach property is `lb_index`.
pub proof fn lemma_lb_index_unique(s: Seq<u32>, v: u32, i: int)
    requires
        0 <= i <= s.len(),
        forall|j: int| 0 <= j < i ==> s[j] < v,
        i < s.len() ==> s[i] >= v,
    ensures
        i == lb_index(s, v),
{
    lemma_lb_index_props(s, v);
    let l = lb_index(s, v);
    if i < l {
        assert(s[i] < v);
    } else if l < i {
        assert(s[l] < v);
    }
}

/// On a valid key sequence the padded view is non-decreasing.
pub proof fn lemma_padded_monotone(s: Seq<u32>, p: int, q: int)
    requires
        valid_keys(s),
        0 <= p <= q,
    ensures
        padded_key(s, p) <= padded_key(s, q),
{
}

/// A strictly ascending `u32` sequence gains at least one per step, so its
/// length is bounded by the key range.
pub proof fn lemma_ascending_gap(s: Seq<u32>, i: int, j: int)
    requires
        strictly_ascending(s),
        0 <= i <= j < s.len(),
    ensures
        s[j] >= s[i] + (j - i),
    decreases j - i,
{
    if i < j {
        lemma_ascending_gap(s, i, j - 1);
    }
}

/// Cross-representation agreement: any two well-formed indexes built
/// over the same key sequence have the same canonical answer for every
/// query value. Since each query function of each representation is
/// pinned to `lower_bound` over its own keys, all representations
/// return identical answers on identical inputs.
pub proof fn lemma_cross_representation_agreement<A: Searchable, B: Searchable>(
    a: &A,
    b: &B,
    v: u32,
)
    requires
        a.wf(),
        b.wf(),
        a.keys() == b.keys(),
    ensures
        lower_bound(a.keys(), v) == lower_bound(b.keys(), v),
{
}

/// Uniform build interface of the three index representations: construct
/// once from an ascending key sequence; queries then answer against
/// exactly that sequence.
pub trait Searchable: Sized {
    /// Structural well-formedness established by `new` and preserved
    /// forever (the structures are never mutated).
    spec fn wf(&self) -> bool;

    /// The ascending key sequence the index answers for.
    spec fn keys(&self) -> Seq<u32>;

    /// Build an index over `sorted_vals`. The length bound keeps every
    /// internal index computation inside `usize`.
    fn new(sorted_vals: &[u32]) -> (s: Self)
        requires
            valid_keys(sorted_vals@),
            sorted_vals@.len() < usize::MAX / 32,
        ensures
            s.wf(),
            s.keys() == sorted_vals@,
    ;
}

} // verus!
