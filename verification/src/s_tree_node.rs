//! Fixed-size 16-key node of the blocked tree, and the node-search
//! primitive in its three interchangeable forms: early-exit linear scan,
//! branch-free linear count, and a wide-compare mask with first-set-bit
//! recovery. On ascending nodes all three return the same position.

use vstd::prelude::*;

use crate::{lb_index, lemma_lb_index_unique, NODE_LEN};

verus! {

/// One cache-line-sized block of 16 ascending keys, padded at the tail
/// with the sentinel when fewer than 16 real keys remain.
#[derive(Clone, Copy, Debug)]
pub struct STreeNode {
    pub keys: [u32; NODE_LEN],
}

/// The node's keys never decrease from left to right (sentinel padding
/// may repeat, so the order is non-strict).
pub open spec fn node_sorted(s: Seq<u32>) -> bool {
    forall|i: int, j: int| 0 <= i <= j < s.len() ==> s[i] <= s[j]
}

/// Number of entries of `s` strictly below `v`: the branch-free
/// reformulation of the scan position.
pub open spec fn node_rank(s: Seq<u32>, v: u32) -> int
    decreases s.len(),
{
    if s.len() == 0 {
        0
    } else {
        (if s[0] < v {
            1int
        } else {
            0int
        }) + node_rank(s.subrange(1, s.len() as int), v)
    }
}

proof fn lemma_rank_zero(s: Seq<u32>, v: u32)
    requires
        forall|i: int| 0 <= i < s.len() ==> s[i] >= v,
    ensures
        node_rank(s, v) == 0,
    decreases s.len(),
{
    if s.len() > 0 {
        lemma_rank_zero(s.subrange(1, s.len() as int), v);
    }
}

/// Node-search agreement: on an ascending node, the count of keys below
/// the query value equals the index of the first key reaching it, so the
/// scan, count and mask forms of the primitive return the same position.
pub proof fn lemma_node_find_agreement(s: Seq<u32>, v: u32)
    requires
        node_sorted(s),
    ensures
        node_rank(s, v) == lb_index(s, v),
    decreases s.len(),
{
    if s.len() > 0 {
        let t = s.subrange(1, s.len() as int);
        if s[0] >= v {
            assert forall|i: int| 0 <= i < t.len() implies t[i] >= v by {
                assert(t[i] == s[i + 1]);
            }
            lemma_rank_zero(t, v);
        } else {
            lemma_node_find_agreement(t, v);
        }
    }
}

proof fn lemma_rank_snoc(s: Seq<u32>, x: u32, v: u32)
    ensures
        node_rank(s.push(x), v) == node_rank(s, v) + (if x < v {
            1int
        } else {
            0int
        }),
    decreases s.len(),
{
    let e = s.push(x);
    assert(e[0] == if s.len() == 0 {
        x
    } else {
        s[0]
    });
    if s.len() == 0 {
        let t = e.subrange(1, e.len() as int);
        assert(t.len() == 0);
        assert(node_rank(t, v) == 0);
    } else {
        assert(e.subrange(1, e.len() as int) =~= s.subrange(1, s.len() as int).push(x));
        lemma_rank_snoc(s.subrange(1, s.len() as int), x, v);
    }
}

impl STreeNode {
    /// Sequential compare with early exit: position of the first key
    /// `>= value`, or 16 when every key is below `value`.
    #[inline(always)]
    pub fn find_linear(&self, value: u32) -> (r: usize)
        ensures
            r == lb_index(self.keys@, value),
    {
        for i in 0..NODE_LEN
            invariant
                forall|j: int| 0 <= j < i ==> self.keys@[j] < value,
        {
            if self.keys[i] >= value {
                proof {
                    lemma_lb_index_unique(self.keys@, value, i as int);
                }
                return i;
            }
        }
        proof {
            lemma_lb_index_unique(self.keys@, value, NODE_LEN as int);
        }
        NODE_LEN
    }

    /// Branch-free reformulation: counts the keys strictly below `value`
    /// instead of exiting early.
    #[inline(always)]
    pub fn find_linear_count(&self, value: u32) -> (r: usize)
        ensures
            r == node_rank(self.keys@, value),
    {
        let mut count: usize = 0;
        for i in 0..NODE_LEN
            invariant
                count == node_rank(self.keys@.subrange(0, i as int), value),
                count <= i,
        {
            proof {
                lemma_rank_snoc(self.keys@.subrange(0, i as int), self.keys@[i as int], value);
                assert(self.keys@.subrange(0, i + 1) =~= self.keys@.subrange(0, i as int).push(
                    self.keys@[i as int],
                ));
            }
            if self.keys[i] < value {
                count += 1;
            }
        }
        proof {
            assert(self.keys@.subrange(0, NODE_LEN as int) =~= self.keys@);
        }
        count
    }

    /// Wide-compare form: builds a 16-bit mask with one bit per lane, set
    /// when `value <= key`, then recovers the scan position as the index
    /// of the first set bit.
    #[inline(always)]
    pub fn find_simd(&self, value: u32) -> (r: usize)
        ensures
            r == lb_index(self.keys@, value),
    {
        let mut mask: u16 = 0;
        proof {
            assert forall|j: u16| j < 16 implies (0u16 >> j) & 1u16 != 1u16 by {
                assert((0u16 >> j) & 1u16 == 0u16) by (bit_vector);
            }
        }
        for i in 0..NODE_LEN
            invariant
                forall|j: u16|
                    j < 16 ==> (((#[trigger] (mask >> j)) & 1u16 == 1u16) <==> (j < i
                        && self.keys@[j as int] >= value)),
        {
            if self.keys[i] >= value {
                let ghost old_mask = mask;
                let ii: u16 = i as u16;
                mask = mask | (1u16 << ii);
                proof {
                    assert forall|j: u16| j < 16 implies (((#[trigger] (mask >> j)) & 1u16 == 1u16)
                        <==> (j < i + 1 && self.keys@[j as int] >= value)) by {
                        assert(((old_mask | (1u16 << ii)) >> j) & 1u16 == (if j == ii {
                            1u16
                        } else {
                            (old_mask >> j) & 1u16
                        })) by (bit_vector)
                            requires
                                j < 16,
                                ii < 16,
                        ;
                    }
                }
            }
        }
        for i in 0..NODE_LEN
            invariant
                forall|j: u16|
                    j < 16 ==> (((#[trigger] (mask >> j)) & 1u16 == 1u16) <==> self.keys@[j as int]
                        >= value),
                forall|j: int| 0 <= j < i ==> self.keys@[j] < value,
        {
            if (mask >> (i as u16)) & 1u16 == 1u16 {
                proof {
                    lemma_lb_index_unique(self.keys@, value, i as int);
                }
                return i;
            }
        }
        proof {
            lemma_lb_index_unique(self.keys@, value, NODE_LEN as int);
        }
        NODE_LEN
    }
}

} // verus!
