//! Breadth-first ("Eytzinger") relayout of an ascending key sequence:
//! slot 0 holds a sentinel guard, slots `1..=n` hold the keys placed by
//! an in-order traversal of the implicit complete binary tree whose
//! children of slot `k` are `2k` and `2k + 1`. Queries descend by index
//! arithmetic and recover the answer slot with a bit trick: the slot of
//! the last left turn is the current index shifted right past its
//! trailing one bits and one more bit.

use vstd::arithmetic::mul::lemma_mul_inequality;
use vstd::arithmetic::power2::{lemma2_to64, lemma_pow2_adds, lemma_pow2_strictly_increases, pow2};
use vstd::prelude::*;

use cmov::Cmov;

use crate::{lb_index, lemma_lb_index_props, lower_bound, valid_keys, Searchable, SENTINEL};

verus! {

/// Membership of slot `j` in the implicit subtree rooted at slot `k`:
/// `k`'s binary representation is a prefix of `j`'s.
pub open spec fn in_subtree(k: int, j: int) -> bool
    decreases j,
{
    if k < 1 || j < k {
        false
    } else if j == k {
        true
    } else {
        in_subtree(k, j / 2)
    }
}

/// In-order key sequence of the subtree rooted at slot `k`, over the
/// slots that exist (`1..=v.len() - 1`).
pub open spec fn inorder(v: Seq<u32>, k: int) -> Seq<u32>
    decreases 2 * v.len() - k,
    when k >= 1
{
    if k > v.len() - 1 {
        Seq::empty()
    } else {
        inorder(v, 2 * k) + seq![v[k]] + inorder(v, 2 * k + 1)
    }
}

/// Number of existing slots in the subtree rooted at `k` when slots
/// `1..=n` exist.
pub open spec fn subtree_count(n: int, k: int) -> int
    decreases 2 * n + 2 - k,
    when k >= 1
{
    if k > n {
        0
    } else {
        1 + subtree_count(n, 2 * k) + subtree_count(n, 2 * k + 1)
    }
}

/// The bit-trick answer recovery: strip the trailing one bits and one
/// further bit. This lands on the slot of the descent's last left turn,
/// or 0 when the descent never turned left.
pub open spec fn chop(i: int) -> int
    decreases i,
    when i >= 0
{
    if i <= 0 {
        0
    } else if i % 2 == 1 {
        chop(i / 2)
    } else {
        i / 2
    }
}

proof fn lemma_count_nonneg(n: int, k: int)
    requires
        k >= 1,
    ensures
        subtree_count(n, k) >= 0,
    decreases 2 * n + 2 - k,
{
    if k <= n {
        lemma_count_nonneg(n, 2 * k);
        lemma_count_nonneg(n, 2 * k + 1);
    }
}

proof fn lemma_subtree_parent(k: int, j: int)
    requires
        k >= 1,
        in_subtree(2 * k, j) || in_subtree(2 * k + 1, j),
    ensures
        in_subtree(k, j),
        j > k,
    decreases j,
{
    assert(in_subtree(k, k));
    if j == 2 * k || j == 2 * k + 1 {
        assert(j / 2 == k);
    } else {
        lemma_subtree_parent(k, j / 2);
    }
}

proof fn lemma_subtree_split(k: int, j: int)
    requires
        k >= 1,
        in_subtree(k, j),
        j != k,
    ensures
        in_subtree(2 * k, j) || in_subtree(2 * k + 1, j),
    decreases j,
{
    if j / 2 == k {
    } else {
        lemma_subtree_split(k, j / 2);
    }
}

proof fn lemma_subtree_disjoint(k: int, j: int)
    requires
        k >= 1,
    ensures
        !(in_subtree(2 * k, j) && in_subtree(2 * k + 1, j)),
    decreases j,
{
    if j == 2 * k || j == 2 * k + 1 {
        assert(!in_subtree(2 * k, k));
        assert(!in_subtree(2 * k + 1, k));
    } else if j > 2 * k + 1 {
        lemma_subtree_disjoint(k, j / 2);
    }
}

/// `inorder` reads only the slots of its subtree.
proof fn lemma_inorder_frame(v1: Seq<u32>, v2: Seq<u32>, k: int)
    requires
        k >= 1,
        v1.len() == v2.len(),
        forall|j: int| 1 <= j < v1.len() && in_subtree(k, j) ==> v1[j] == v2[j],
    ensures
        inorder(v1, k) == inorder(v2, k),
    decreases 2 * v1.len() - k,
{
    if k <= v1.len() - 1 {
        assert forall|j: int|
            1 <= j < v1.len() && in_subtree(2 * k, j) implies v1[j] == v2[j] by {
            lemma_subtree_parent(k, j);
        }
        assert forall|j: int|
            1 <= j < v1.len() && in_subtree(2 * k + 1, j) implies v1[j] == v2[j] by {
            lemma_subtree_parent(k, j);
        }
        lemma_inorder_frame(v1, v2, 2 * k);
        lemma_inorder_frame(v1, v2, 2 * k + 1);
        assert(in_subtree(k, k));
        assert(v1[k] == v2[k]);
    }
}

/// The in-order sequence of a subtree has exactly one entry per slot.
proof fn lemma_inorder_len(v: Seq<u32>, k: int)
    requires
        k >= 1,
    ensures
        inorder(v, k).len() == subtree_count(v.len() - 1, k),
    decreases 2 * v.len() - k,
{
    if k <= v.len() - 1 {
        lemma_inorder_len(v, 2 * k);
        lemma_inorder_len(v, 2 * k + 1);
    }
}

proof fn lemma_subtree_root(j: int)
    requires
        j >= 1,
    ensures
        in_subtree(1, j),
    decreases j,
{
    if j > 1 {
        lemma_subtree_root(j / 2);
    }
}

/// Growing the slot range by one slot grows exactly the subtrees that
/// slot belongs to.
proof fn lemma_count_step(m: int, k: int)
    requires
        k >= 1,
        m >= 0,
    ensures
        subtree_count(m + 1, k) == subtree_count(m, k) + (if in_subtree(k, m + 1) {
            1int
        } else {
            0int
        }),
    decreases 2 * m + 2 - k,
{
    if k > m + 1 {
    } else if k == m + 1 {
        assert(subtree_count(m + 1, 2 * k) == 0);
        assert(subtree_count(m + 1, 2 * k + 1) == 0);
        assert(subtree_count(m, k) == 0);
    } else {
        lemma_count_step(m, 2 * k);
        lemma_count_step(m, 2 * k + 1);
        lemma_subtree_disjoint(k, m + 1);
        if in_subtree(k, m + 1) {
            lemma_subtree_split(k, m + 1);
        }
        if in_subtree(2 * k, m + 1) || in_subtree(2 * k + 1, m + 1) {
            lemma_subtree_parent(k, m + 1);
        }
    }
}

/// The root's subtree is every existing slot.
proof fn lemma_count_root(m: int)
    requires
        m >= 0,
    ensures
        subtree_count(m, 1) == m,
    decreases m,
{
    if m > 0 {
        lemma_count_root(m - 1);
        lemma_count_step(m - 1, 1);
        lemma_subtree_root(m);
    }
}

/// Splitting one subtree's in-order sequence at the root slot.
proof fn lemma_inorder_decompose(v: Seq<u32>, idx: int)
    requires
        1 <= idx <= v.len() - 1,
    ensures
        ({
            let s = inorder(v, idx);
            let m = inorder(v, 2 * idx).len() as int;
            &&& s.len() == m + 1 + inorder(v, 2 * idx + 1).len()
            &&& inorder(v, 2 * idx) == s.subrange(0, m)
            &&& s[m] == v[idx]
            &&& inorder(v, 2 * idx + 1) == s.subrange(m + 1, s.len() as int)
        }),
{
    let s = inorder(v, idx);
    let a = inorder(v, 2 * idx);
    let b = inorder(v, 2 * idx + 1);
    let m = a.len() as int;
    assert(s == a + seq![v[idx]] + b);
    assert(a =~= s.subrange(0, m));
    assert(b =~= s.subrange(m + 1, s.len() as int));
}

/// Descent invariant: the current slot's subtree holds exactly the keys
/// of the still-undecided window `[lo, hi)`, everything left of the
/// window is below the query, the last left turn (recovered by `chop`)
/// holds the key at `hi`, and no left turn yet means the guard slot.
pub open spec fn eytz_inv(
    v: Seq<u32>,
    ks: Seq<u32>,
    q: u32,
    idx: int,
    lo: int,
    hi: int,
    best: int,
) -> bool {
    &&& 1 <= idx
    &&& chop(idx) == best
    &&& 0 <= lo <= hi <= ks.len()
    &&& inorder(v, idx) == ks.subrange(lo, hi)
    &&& forall|m: int| 0 <= m < lo ==> ks[m] < q
    &&& if hi < ks.len() {
        &&& 1 <= best < v.len()
        &&& v[best] == ks[hi]
        &&& ks[hi] >= q
    } else {
        best == 0
    }
}

proof fn lemma_eytz_init(v: Seq<u32>, ks: Seq<u32>, q: u32)
    requires
        v.len() >= 2,
        ks == inorder(v, 1),
        ks.len() == v.len() - 1,
    ensures
        eytz_inv(v, ks, q, 1, 0, ks.len() as int, 0),
{
    assert(chop(1) == chop(0));
    assert(ks.subrange(0, ks.len() as int) =~= ks);
}

/// One descent step: comparing the slot key against the query and
/// moving to the matching child keeps the invariant.
proof fn lemma_eytz_descend(
    v: Seq<u32>,
    ks: Seq<u32>,
    q: u32,
    idx: int,
    lo: int,
    hi: int,
    best: int,
) -> (r: (int, int, int))
    requires
        v.len() >= 2,
        ks.len() == v.len() - 1,
        valid_keys(ks),
        eytz_inv(v, ks, q, idx, lo, hi, best),
        1 <= idx <= v.len() - 1,
    ensures
        eytz_inv(
            v,
            ks,
            q,
            2 * idx + (if v[idx] < q {
                1int
            } else {
                0int
            }),
            r.0,
            r.1,
            r.2,
        ),
{
    let s = inorder(v, idx);
    lemma_inorder_decompose(v, idx);
    let m = inorder(v, 2 * idx).len() as int;
    let mid = lo + m;
    assert(s.len() == hi - lo);
    assert(s[m] == ks[mid]);
    assert(v[idx] == ks[mid]);
    assert(inorder(v, 2 * idx) =~= ks.subrange(lo, mid));
    assert(inorder(v, 2 * idx + 1) =~= ks.subrange(mid + 1, hi));
    if v[idx] < q {
        assert(chop(2 * idx + 1) == chop(idx));
        assert forall|m2: int| 0 <= m2 < mid + 1 implies ks[m2] < q by {
            if lo <= m2 < mid {
                assert(ks[m2] < ks[mid]);
            }
        }
        (mid + 1, hi, best)
    } else {
        assert(chop(2 * idx) == idx);
        (lo, mid, idx)
    }
}

/// A step taken past the last existing slot always moves right and
/// changes nothing the invariant tracks.
proof fn lemma_eytz_skip(v: Seq<u32>, ks: Seq<u32>, q: u32, idx: int, lo: int, hi: int, best: int)
    requires
        eytz_inv(v, ks, q, idx, lo, hi, best),
        idx > v.len() - 1,
    ensures
        eytz_inv(v, ks, q, 2 * idx + 1, lo, hi, best),
{
    assert(chop(2 * idx + 1) == chop(idx));
    assert(inorder(v, 2 * idx + 1) =~= inorder(v, idx));
}

/// Once the descent has left the existing slots, the window is a single
/// position: the lower-bound position, whose key the last left turn
/// (or the guard) holds.
proof fn lemma_eytz_finish(v: Seq<u32>, ks: Seq<u32>, q: u32, idx: int, lo: int, hi: int, best: int)
    requires
        v.len() >= 2,
        ks.len() == v.len() - 1,
        valid_keys(ks),
        v[0] == SENTINEL,
        eytz_inv(v, ks, q, idx, lo, hi, best),
        idx > v.len() - 1,
    ensures
        0 <= best < v.len(),
        v[best] == lower_bound(ks, q),
        best == chop(idx),
{
    assert(inorder(v, idx) =~= Seq::<u32>::empty());
    assert(ks.subrange(lo, hi).len() == 0);
    assert(lo == hi);
    lemma_lb_index_props(ks, q);
    let lbi = lb_index(ks, q);
    assert(lbi >= lo) by {
        if lbi < lo {
            assert(ks[lbi] < q);
        }
    }
    assert(lbi <= hi) by {
        if hi < ks.len() {
            if lbi > hi {
                assert(ks[hi] < q);
            }
        }
    }
}

/// Relies on cmov's `Cmov::cmovnz` for `u64`: moves `value` into `dst`
/// exactly when `condition` is non-zero.
#[verifier::external_body]
fn cmovnz_u64(dst: &mut u64, value: u64, condition: u8)
    ensures
        *final(dst) == if condition != 0 {
            value
        } else {
            *old(dst)
        },
{
    dst.cmovnz(&value, condition);
}

/// Recover the answer slot from the final descent index: shift off the
/// trailing one bits and one further bit, landing on the slot of the
/// last left turn.
pub fn search_result_to_index(idx: usize) -> (r: usize)
    ensures
        r as int == chop(idx as int),
{
    let mut j = idx;
    while j % 2 == 1
        invariant
            chop(j as int) == chop(idx as int),
        decreases j,
    {
        j = j / 2;
    }
    j / 2
}

/// The breadth-first index: the guard sentinel at slot 0, the keys in
/// in-order placement over slots `1..=n`, and the precomputed complete
/// descent depth `floor(log2(n + 1))`.
pub struct Eytzinger {
    pub vals: Vec<u32>,
    pub num_iters: usize,
}

/// Recursive in-order placement: assign the next keys to the subtree of
/// slot `k`, left child first, then the slot itself, then the right
/// child.
fn fill_inorder(eytz: &mut Vec<u32>, sorted_vals: &[u32], k: usize, i: &mut usize)
    requires
        old(eytz)@.len() == sorted_vals@.len() + 1,
        sorted_vals@.len() < usize::MAX / 32,
        1 <= k,
        *old(i) + subtree_count(sorted_vals@.len() as int, k as int) <= sorted_vals@.len(),
    ensures
        final(eytz)@.len() == old(eytz)@.len(),
        *final(i) == *old(i) + subtree_count(sorted_vals@.len() as int, k as int),
        forall|j: int|
            0 <= j < final(eytz)@.len() && !(1 <= j && in_subtree(k as int, j))
                ==> final(eytz)@[j] == old(eytz)@[j],
        inorder(final(eytz)@, k as int) == sorted_vals@.subrange(*old(i) as int, *final(i) as int),
    decreases 2 * sorted_vals@.len() + 2 - k,
{
    let ghost n = sorted_vals@.len() as int;
    proof {
        lemma_count_nonneg(n, k as int);
    }
    if k <= sorted_vals.len() {
        proof {
            lemma_count_nonneg(n, 2 * (k as int));
            lemma_count_nonneg(n, 2 * (k as int) + 1);
        }
        let ghost e0 = eytz@;
        let ghost i0 = *i;
        let kl = 2 * k;
        fill_inorder(eytz, sorted_vals, kl, i);
        let ghost e1 = eytz@;
        let ghost i1 = *i;
        let pos = *i;
        eytz[k] = sorted_vals[pos];
        *i = pos + 1;
        let ghost e2 = eytz@;
        let kr = 2 * k + 1;
        fill_inorder(eytz, sorted_vals, kr, i);
        let ghost e3 = eytz@;
        let ghost i2 = *i;
        proof {
            // the write at `k` and the right subtree never touch the left
            assert forall|j: int|
                1 <= j < e3.len() && in_subtree(2 * (k as int), j) implies e3[j] == e1[j] by {
                lemma_subtree_disjoint(k as int, j);
                assert(j != k as int);
            }
            lemma_inorder_frame(e3, e1, 2 * (k as int));
            // the slot itself survives the right recursion
            assert(!(in_subtree(2 * (k as int) + 1, k as int)));
            assert(e3[k as int] == sorted_vals@[i1 as int]);
            assert(inorder(e3, k as int) == inorder(e3, 2 * (k as int)) + seq![e3[k as int]]
                + inorder(e3, 2 * (k as int) + 1));
            assert(inorder(e3, k as int) =~= sorted_vals@.subrange(i0 as int, i2 as int));
            // slots outside this subtree are untouched by all three parts
            assert forall|j: int|
                0 <= j < e3.len() && !(1 <= j && in_subtree(k as int, j)) implies e3[j]
                == e0[j] by {
                if 1 <= j {
                    assert(in_subtree(k as int, k as int));
                    if in_subtree(kl as int, j) || in_subtree(kr as int, j) {
                        lemma_subtree_parent(k as int, j);
                        assert(false);
                    }
                    assert(!in_subtree(kl as int, j));
                    assert(!in_subtree(kr as int, j));
                    assert(j != k as int);
                    assert(e1[j] == e0[j]);
                    assert(e2[j] == e1[j]);
                    assert(e3[j] == e2[j]);
                } else {
                    assert(!in_subtree(kl as int, j));
                    assert(!in_subtree(kr as int, j));
                    assert(e1[j] == e0[j]);
                    assert(e2[j] == e1[j]);
                    assert(e3[j] == e2[j]);
                }
            }
        }
    } else {
        proof {
            assert(inorder(eytz@, k as int) =~= sorted_vals@.subrange(
                *old(i) as int,
                *old(i) as int,
            ));
        }
    }
}

impl Searchable for Eytzinger {
    open spec fn wf(&self) -> bool {
        &&& self.vals@.len() >= 2
        &&& self.vals@.len() < usize::MAX / 16
        &&& self.vals@[0] == SENTINEL
        &&& valid_keys(inorder(self.vals@, 1))
        &&& inorder(self.vals@, 1).len() == self.vals@.len() - 1
        &&& pow2(self.num_iters as nat) <= self.vals@.len() < pow2(self.num_iters as nat + 1)
    }

    open spec fn keys(&self) -> Seq<u32> {
        inorder(self.vals@, 1)
    }

    fn new(sorted_vals: &[u32]) -> (s: Self) {
        let n = sorted_vals.len();
        let mut eytz_vec: Vec<u32> = Vec::new();
        eytz_vec.push(SENTINEL);
        for j in 0..n
            invariant
                eytz_vec@.len() == j + 1,
                eytz_vec@[0] == SENTINEL,
        {
            eytz_vec.push(0);
        }
        let mut i: usize = 0;
        proof {
            lemma_count_root(n as int);
        }
        fill_inorder(&mut eytz_vec, sorted_vals, 1, &mut i);
        proof {
            assert(inorder(eytz_vec@, 1) =~= sorted_vals@);
            assert(!in_subtree(1int, 0int));
            assert(eytz_vec@[0] == SENTINEL);
        }
        // complete descent depth: floor(log2(n + 1))
        let len2 = n + 1;
        let mut m = len2;
        let mut it: usize = 0;
        proof {
            lemma2_to64();
        }
        while m > 1
            invariant
                1 <= m <= len2,
                it + m <= len2,
                pow2(it as nat) * m <= len2 < pow2(it as nat) * (m + 1),
            decreases m,
        {
            proof {
                lemma_pow2_adds(it as nat, 1);
                lemma2_to64();
                let p = pow2(it as nat);
                assert(p * (2 * (m as int / 2)) <= p * m) by {
                    lemma_mul_inequality(2 * (m as int / 2), m as int, p as int);
                    vstd::arithmetic::mul::lemma_mul_is_commutative(2 * (m as int / 2), p as int);
                    vstd::arithmetic::mul::lemma_mul_is_commutative(m as int, p as int);
                }
                assert(p * (m + 1) <= p * (2 * (m as int / 2) + 2)) by {
                    lemma_mul_inequality(m as int + 1, 2 * (m as int / 2) + 2, p as int);
                    vstd::arithmetic::mul::lemma_mul_is_commutative(m as int + 1, p as int);
                    vstd::arithmetic::mul::lemma_mul_is_commutative(
                        2 * (m as int / 2) + 2,
                        p as int,
                    );
                }
                assert((2 * p) * (m as int / 2) == p * (2 * (m as int / 2))) by {
                    vstd::arithmetic::mul::lemma_mul_is_associative(2, p as int, m as int / 2);
                    vstd::arithmetic::mul::lemma_mul_is_associative(2, m as int / 2, p as int);
                    vstd::arithmetic::mul::lemma_mul_is_commutative(p as int, m as int / 2);
                }
                assert((2 * p) * (m as int / 2 + 1) == p * (2 * (m as int / 2) + 2)) by {
                    vstd::arithmetic::mul::lemma_mul_is_distributive_add(2 * p as int, m as int / 2, 1);
                    vstd::arithmetic::mul::lemma_mul_is_associative(2, p as int, m as int / 2);
                    vstd::arithmetic::mul::lemma_mul_is_associative(2, m as int / 2, p as int);
                    vstd::arithmetic::mul::lemma_mul_is_commutative(p as int, m as int / 2);
                    vstd::arithmetic::mul::lemma_mul_is_distributive_add(p as int, 2 * (m as int / 2), 2);
                }
            }
            m = m / 2;
            it = it + 1;
        }
        let s = Eytzinger { vals: eytz_vec, num_iters: it };
        proof {
            vstd::arithmetic::power2::lemma_pow2_pos(it as nat);
            assert(pow2(it as nat) * 1 == pow2(it as nat));
            assert(pow2(it as nat) * 2 == pow2(it as nat + 1)) by {
                lemma_pow2_adds(it as nat, 1);
                lemma2_to64();
            }
            assert(s.vals@.len() >= 2);
            assert(s.vals@.len() < usize::MAX / 16);
            assert(s.vals@[0] == SENTINEL);
            assert(valid_keys(inorder(s.vals@, 1)));
            assert(inorder(s.vals@, 1).len() == s.vals@.len() - 1);
            assert(pow2(s.num_iters as nat) <= s.vals@.len());
            assert(s.vals@.len() < pow2(s.num_iters as nat + 1));
        }
        s
    }
}

impl Eytzinger {
    /// Read one slot.
    fn get(&self, index: usize) -> (r: u32)
        requires
            index < self.vals@.len(),
        ensures
            r == self.vals@[index as int],
    {
        self.vals[index]
    }

    /// Simple descent: walk down while slots exist, then convert the
    /// final index back to the answer slot.
    pub fn eyz_search(&self, q: u32) -> (r: u32)
        requires
            self.wf(),
        ensures
            r == lower_bound(self.keys(), q),
    {
        let ghost ks = inorder(self.vals@, 1);
        let ghost mut lo: int = 0;
        let ghost mut hi: int = ks.len() as int;
        let ghost mut best: int = 0;
        proof {
            lemma_eytz_init(self.vals@, ks, q);
        }
        let mut idx: usize = 1;
        while idx < self.vals.len()
            invariant
                self.wf(),
                ks == inorder(self.vals@, 1),
                eytz_inv(self.vals@, ks, q, idx as int, lo, hi, best),
            decreases 2 * self.vals@.len() - idx,
        {
            let step: usize = if q > self.get(idx) {
                1
            } else {
                0
            };
            proof {
                let r = lemma_eytz_descend(self.vals@, ks, q, idx as int, lo, hi, best);
                lo = r.0;
                hi = r.1;
                best = r.2;
            }
            idx = 2 * idx + step;
        }
        proof {
            lemma_eytz_finish(self.vals@, ks, q, idx as int, lo, hi, best);
        }
        let res = search_result_to_index(idx);
        self.get(res)
    }

    /// One branch-free step past the complete levels: out-of-bounds
    /// indices always move right, which leaves the recovered answer
    /// unchanged; in-bounds ones take the ordinary comparison step. The
    /// select is a conditional move, not a branch.
    fn get_next_index_branchless(&self, idx: usize, q: u32) -> (r: usize)
        requires
            self.wf(),
            1 <= idx,
            idx < 2 * self.vals@.len(),
        ensures
            r == if idx < self.vals@.len() {
                2 * idx + (if q > self.vals@[idx as int] {
                    1int
                } else {
                    0int
                })
            } else {
                2 * idx + 1
            },
    {
        let mut idx_u64: u64 = 2 * (idx as u64);
        let candidate: u64 = 2 * (idx as u64) + 1;
        let in_bounds = idx < self.vals.len();
        let read_idx = if in_bounds {
            idx
        } else {
            0
        };
        let cond: u8 = if q > self.get(read_idx) || !in_bounds {
            1
        } else {
            0
        };
        cmovnz_u64(&mut idx_u64, candidate, cond);
        idx_u64 as usize
    }

    /// Branch-free descent: a fixed number of iterations covering the
    /// complete levels, one corrective branch-free step, then the
    /// answer recovery.
    pub fn search_branchless(&self, q: u32) -> (r: u32)
        requires
            self.wf(),
        ensures
            r == lower_bound(self.keys(), q),
    {
        let ghost ks = inorder(self.vals@, 1);
        let ghost mut lo: int = 0;
        let ghost mut hi: int = ks.len() as int;
        let ghost mut best: int = 0;
        proof {
            lemma_eytz_init(self.vals@, ks, q);
            lemma2_to64();
        }
        let mut idx: usize = 1;
        for t in 0..self.num_iters
            invariant
                self.wf(),
                ks == inorder(self.vals@, 1),
                t <= self.num_iters,
                pow2(t as nat) <= idx < pow2(t as nat + 1),
                eytz_inv(self.vals@, ks, q, idx as int, lo, hi, best),
        {
            proof {
                if t as nat + 1 < self.num_iters as nat {
                    lemma_pow2_strictly_increases(t as nat + 1, self.num_iters as nat);
                }
                assert(idx < self.vals@.len());
            }
            let step: usize = if q > self.get(idx) {
                1
            } else {
                0
            };
            proof {
                let r = lemma_eytz_descend(self.vals@, ks, q, idx as int, lo, hi, best);
                lo = r.0;
                hi = r.1;
                best = r.2;
                lemma_pow2_adds(t as nat, 1);
                lemma_pow2_adds(t as nat + 1, 1);
                lemma2_to64();
            }
            idx = 2 * idx + step;
        }
        proof {
            if idx >= self.vals@.len() {
                lemma_eytz_skip(self.vals@, ks, q, idx as int, lo, hi, best);
            } else {
                let r = lemma_eytz_descend(self.vals@, ks, q, idx as int, lo, hi, best);
                lo = r.0;
                hi = r.1;
                best = r.2;
            }
            lemma_pow2_adds(self.num_iters as nat, 1);
            lemma2_to64();
        }
        let idx2 = self.get_next_index_branchless(idx, q);
        proof {
            lemma_eytz_finish(self.vals@, ks, q, idx2 as int, lo, hi, best);
        }
        let res = search_result_to_index(idx2);
        self.get(res)
    }

    /// Simple descent that would additionally hint a prefetch of slot
    /// `16 * idx` while still far from the leaves; the hint has no
    /// observable effect, so the loops compute exactly the plain
    /// descent. The first loop covers the iterations that want the
    /// hint, the second finishes the descent.
    pub fn search_prefetch(&self, q: u32) -> (r: u32)
        requires
            self.wf(),
        ensures
            r == lower_bound(self.keys(), q),
    {
        let ghost ks = inorder(self.vals@, 1);
        let ghost mut lo: int = 0;
        let ghost mut hi: int = ks.len() as int;
        let ghost mut best: int = 0;
        proof {
            lemma_eytz_init(self.vals@, ks, q);
        }
        let mut idx: usize = 1;
        while 16 * idx < self.vals.len()
            invariant
                self.wf(),
                ks == inorder(self.vals@, 1),
                1 <= idx < self.vals@.len(),
                eytz_inv(self.vals@, ks, q, idx as int, lo, hi, best),
            decreases self.vals@.len() - idx,
        {
            let step: usize = if q > self.get(idx) {
                1
            } else {
                0
            };
            proof {
                let r = lemma_eytz_descend(self.vals@, ks, q, idx as int, lo, hi, best);
                lo = r.0;
                hi = r.1;
                best = r.2;
            }
            idx = 2 * idx + step;
        }
        while idx < self.vals.len()
            invariant
                self.wf(),
                ks == inorder(self.vals@, 1),
                eytz_inv(self.vals@, ks, q, idx as int, lo, hi, best),
            decreases 2 * self.vals@.len() - idx,
        {
            let step: usize = if q > self.get(idx) {
                1
            } else {
                0
            };
            proof {
                let r = lemma_eytz_descend(self.vals@, ks, q, idx as int, lo, hi, best);
                lo = r.0;
                hi = r.1;
                best = r.2;
            }
            idx = 2 * idx + step;
        }
        proof {
            lemma_eytz_finish(self.vals@, ks, q, idx as int, lo, hi, best);
        }
        let res = search_result_to_index(idx);
        self.get(res)
    }

    /// Branch-free descent split into the iterations that would hint a
    /// prefetch (all but the last few levels, which are cache-resident
    /// anyway) and the remaining ones, followed by the corrective step
    /// and the answer recovery. The hint has no observable effect.
    pub fn search_branchless_prefetch(&self, q: u32) -> (r: u32)
        requires
            self.wf(),
        ensures
            r == lower_bound(self.keys(), q),
    {
        let ghost ks = inorder(self.vals@, 1);
        let ghost mut lo: int = 0;
        let ghost mut hi: int = ks.len() as int;
        let ghost mut best: int = 0;
        proof {
            lemma_eytz_init(self.vals@, ks, q);
            lemma2_to64();
        }
        let prefetch_until = if self.num_iters >= 4 {
            self.num_iters - 4
        } else {
            0
        };
        let mut idx: usize = 1;
        for t in 0..prefetch_until
            invariant
                self.wf(),
                ks == inorder(self.vals@, 1),
                prefetch_until <= self.num_iters,
                t <= prefetch_until,
                pow2(t as nat) <= idx < pow2(t as nat + 1),
                eytz_inv(self.vals@, ks, q, idx as int, lo, hi, best),
        {
            proof {
                if t as nat + 1 < self.num_iters as nat {
                    lemma_pow2_strictly_increases(t as nat + 1, self.num_iters as nat);
                }
                assert(idx < self.vals@.len());
            }
            let step: usize = if q > self.get(idx) {
                1
            } else {
                0
            };
            proof {
                let r = lemma_eytz_descend(self.vals@, ks, q, idx as int, lo, hi, best);
                lo = r.0;
                hi = r.1;
                best = r.2;
                lemma_pow2_adds(t as nat, 1);
                lemma_pow2_adds(t as nat + 1, 1);
                lemma2_to64();
            }
            idx = 2 * idx + step;
        }
        for t in prefetch_until..self.num_iters
            invariant
                self.wf(),
                ks == inorder(self.vals@, 1),
                prefetch_until <= t <= self.num_iters,
                pow2(t as nat) <= idx < pow2(t as nat + 1),
                eytz_inv(self.vals@, ks, q, idx as int, lo, hi, best),
        {
            proof {
                if t as nat + 1 < self.num_iters as nat {
                    lemma_pow2_strictly_increases(t as nat + 1, self.num_iters as nat);
                }
                assert(idx < self.vals@.len());
            }
            let step: usize = if q > self.get(idx) {
                1
            } else {
                0
            };
            proof {
                let r = lemma_eytz_descend(self.vals@, ks, q, idx as int, lo, hi, best);
                lo = r.0;
                hi = r.1;
                best = r.2;
                lemma_pow2_adds(t as nat, 1);
                lemma_pow2_adds(t as nat + 1, 1);
                lemma2_to64();
            }
            idx = 2 * idx + step;
        }
        proof {
            if idx >= self.vals@.len() {
                lemma_eytz_skip(self.vals@, ks, q, idx as int, lo, hi, best);
            } else {
                let r = lemma_eytz_descend(self.vals@, ks, q, idx as int, lo, hi, best);
                lo = r.0;
                hi = r.1;
                best = r.2;
            }
            lemma_pow2_adds(self.num_iters as nat, 1);
            lemma2_to64();
        }
        let idx2 = self.get_next_index_branchless(idx, q);
        proof {
            lemma_eytz_finish(self.vals@, ks, q, idx2 as int, lo, hi, best);
        }
        let res = search_result_to_index(idx2);
        self.get(res)
    }
}

/// The in-order placement is injective: equal in-order sequences over
/// the same tree shape pin every slot of the subtree.
proof fn lemma_inorder_determines(v1: Seq<u32>, v2: Seq<u32>, k: int)
    requires
        k >= 1,
        v1.len() == v2.len(),
        inorder(v1, k) == inorder(v2, k),
    ensures
        forall|j: int| 1 <= j < v1.len() && in_subtree(k, j) ==> v1[j] == v2[j],
    decreases 2 * v1.len() - k,
{
    if k <= v1.len() - 1 {
        lemma_inorder_decompose(v1, k);
        lemma_inorder_decompose(v2, k);
        lemma_inorder_len(v1, 2 * k);
        lemma_inorder_len(v2, 2 * k);
        assert(inorder(v1, 2 * k) == inorder(v2, 2 * k));
        assert(inorder(v1, 2 * k + 1) == inorder(v2, 2 * k + 1));
        lemma_inorder_determines(v1, v2, 2 * k);
        lemma_inorder_determines(v1, v2, 2 * k + 1);
        assert(v1[k] == v2[k]);
        assert forall|j: int| 1 <= j < v1.len() && in_subtree(k, j) implies v1[j] == v2[j] by {
            if j != k {
                lemma_subtree_split(k, j);
            }
        }
    }
}

/// Determinism of construction: two well-formed indexes over the same
/// key sequence have identical slot contents and the same descent
/// depth — the layout is a function of the keys alone.
pub proof fn lemma_build_deterministic(e1: &Eytzinger, e2: &Eytzinger)
    requires
        e1.wf(),
        e2.wf(),
        e1.keys() == e2.keys(),
    ensures
        e1.vals@ == e2.vals@,
        e1.num_iters == e2.num_iters,
{
    lemma_inorder_determines(e1.vals@, e2.vals@, 1);
    assert forall|j: int| 0 <= j < e1.vals@.len() implies e1.vals@[j] == e2.vals@[j] by {
        if j >= 1 {
            lemma_subtree_root(j);
        }
    }
    assert(e1.vals@ =~= e2.vals@);
    let a = e1.num_iters as nat;
    let b = e2.num_iters as nat;
    if a < b {
        if a + 1 < b {
            lemma_pow2_strictly_increases(a + 1, b);
        }
        assert(false);
    } else if b < a {
        if b + 1 < a {
            lemma_pow2_strictly_increases(b + 1, a);
        }
        assert(false);
    }
}

} // verus!
