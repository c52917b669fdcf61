//! Flat sorted array searched with binary search in several forms: the
//! classic halving loop, a branch-free window-shrinking loop (with and
//! without speculative prefetching of both candidate halves), a
//! random-pivot variant, and a thin layer over the standard library's
//! search. All of them answer the one canonical lower-bound contract.

use vstd::prelude::*;

use crate::{
    lb_index, lemma_lb_index_props, lemma_lb_index_unique, lower_bound, valid_keys, Searchable,
    SENTINEL,
};

verus! {

/// A contiguous ascending key sequence with no padding.
pub struct SortedVec {
    pub vals: Vec<u32>,
}

impl Searchable for SortedVec {
    open spec fn wf(&self) -> bool {
        &&& valid_keys(self.vals@)
        &&& self.vals@.len() < usize::MAX / 32
    }

    open spec fn keys(&self) -> Seq<u32> {
        self.vals@
    }

    fn new(sorted_vals: &[u32]) -> (s: Self) {
        SortedVec { vals: vstd::slice::slice_to_vec(sorted_vals) }
    }
}

/// Relies on `<[u32]>::binary_search` on a sorted slice: `Ok(i)` names a
/// position holding the probe, `Err(i)` the position where the probe
/// could be inserted keeping the order, so everything before `i` is
/// smaller and, on a strictly ascending slice, everything from `i` on is
/// larger.
#[verifier::external_body]
fn slice_binary_search(v: &Vec<u32>, x: u32) -> (r: Result<usize, usize>)
    requires
        valid_keys(v@),
    ensures
        match r {
            Ok(i) => i < v@.len() && v@[i as int] == x,
            Err(i) => {
                &&& i <= v@.len()
                &&& forall|j: int| 0 <= j < i ==> v@[j] < x
                &&& i < v@.len() ==> v@[i as int] > x
            },
        },
{
    v.binary_search(&x)
}

/// Relies on `rand::random_range` over a non-empty inclusive range: the
/// sample lies inside the range (which bound comes out is left open).
#[verifier::external_body]
fn random_in_range(lo: usize, hi: usize) -> (r: usize)
    requires
        lo <= hi,
    ensures
        lo <= r <= hi,
{
    rand::random_range(lo..=hi)
}

/// Determinism of construction: the flat representation stores exactly
/// the key sequence, so equal keys give equal structures.
pub proof fn lemma_build_deterministic(s1: &SortedVec, s2: &SortedVec)
    requires
        s1.wf(),
        s2.wf(),
        s1.keys() == s2.keys(),
    ensures
        s1.vals@ == s2.vals@,
{
}

impl SortedVec {
    /// Read one stored key.
    pub fn get(&self, index: usize) -> (r: u32)
        requires
            index < self.vals@.len(),
        ensures
            r == self.vals@[index as int],
    {
        self.vals[index]
    }

    /// Lower-bound query through the standard library's binary search.
    pub fn std_binary_search(&self, num: u32) -> (r: u32)
        requires
            self.wf(),
        ensures
            r == lower_bound(self.keys(), num),
    {
        let idx = match slice_binary_search(&self.vals, num) {
            Ok(i) => i,
            Err(i) => i,
        };
        proof {
            lemma_lb_index_unique(self.vals@, num, idx as int);
        }
        if idx < self.vals.len() {
            self.get(idx)
        } else {
            SENTINEL
        }
    }

    /// Lower-bound query with a uniformly random pivot instead of the
    /// midpoint; the window shrinks towards the answer whatever pivot
    /// the generator hands back.
    pub fn binary_search_random(&self, num: u32) -> (res: u32)
        requires
            self.wf(),
        ensures
            res == lower_bound(self.keys(), num),
    {
        let ghost lbi = lb_index(self.vals@, num);
        proof {
            lemma_lb_index_props(self.vals@, num);
        }
        let mut l: usize = 0;
        let mut r: usize = self.vals.len() - 1;
        while l < r
            invariant
                self.wf(),
                l <= r < self.vals@.len(),
                forall|j: int| 0 <= j < l ==> self.vals@[j] < num,
                lbi <= r || lbi == self.vals@.len(),
                lbi == lb_index(self.vals@, num),
            decreases r - l,
        {
            proof {
                lemma_lb_index_props(self.vals@, num);
            }
            let ran = random_in_range(0, 10_000_000);
            let m = l + ran % (r - l);
            if self.get(m) >= num {
                r = m;
            } else {
                l = m + 1;
            }
        }
        proof {
            if lbi < self.vals@.len() {
                lemma_lb_index_unique(self.vals@, num, l as int);
            }
        }
        let k = self.get(l);
        if k >= num {
            k
        } else {
            SENTINEL
        }
    }

    /// Classic halving binary search over `[l, r]`, taking the branch
    /// that the comparison selects.
    pub fn binary_search_normal(&self, num: u32) -> (res: u32)
        requires
            self.wf(),
        ensures
            res == lower_bound(self.keys(), num),
    {
        let ghost lbi = lb_index(self.vals@, num);
        proof {
            lemma_lb_index_props(self.vals@, num);
        }
        let mut l: usize = 0;
        let mut r: usize = self.vals.len() - 1;
        while l < r
            invariant
                self.wf(),
                l <= r < self.vals@.len(),
                forall|j: int| 0 <= j < l ==> self.vals@[j] < num,
                lbi <= r || lbi == self.vals@.len(),
                lbi == lb_index(self.vals@, num),
            decreases r - l,
        {
            proof {
                lemma_lb_index_props(self.vals@, num);
            }
            let m = (l + r) / 2;
            if self.get(m) >= num {
                r = m;
            } else {
                l = m + 1;
            }
        }
        proof {
            if lbi < self.vals@.len() {
                lemma_lb_index_unique(self.vals@, num, l as int);
            }
        }
        let k = self.get(l);
        if k >= num {
            k
        } else {
            SENTINEL
        }
    }

    /// Branch-free binary search: each step halves a `[base, base+len)`
    /// window, moving `base` by a data-independent select on the
    /// comparison just before the midpoint.
    pub fn binary_search_branchless(&self, num: u32) -> (res: u32)
        requires
            self.wf(),
        ensures
            res == lower_bound(self.keys(), num),
    {
        let ghost lbi = lb_index(self.vals@, num);
        proof {
            lemma_lb_index_props(self.vals@, num);
        }
        let mut base: usize = 0;
        let mut len: usize = self.vals.len();
        while len > 1
            invariant
                self.wf(),
                1 <= len,
                base + len <= self.vals@.len(),
                forall|j: int| 0 <= j < base ==> self.vals@[j] < num,
                lbi <= base + len - 1 || lbi == self.vals@.len(),
                lbi == lb_index(self.vals@, num),
            decreases len,
        {
            proof {
                lemma_lb_index_props(self.vals@, num);
            }
            let half = len / 2;
            let cmp = self.get(base + half - 1) < num;
            base = if cmp {
                base + half
            } else {
                base
            };
            len -= half;
        }
        proof {
            if lbi < self.vals@.len() {
                lemma_lb_index_unique(self.vals@, num, base as int);
            }
        }
        let k = self.get(base);
        if k >= num {
            k
        } else {
            SENTINEL
        }
    }

    /// Branch-free binary search that additionally wants both candidate
    /// next half-windows prefetched before the comparison resolves. The
    /// prefetch is a memory-system hint with no observable effect, so
    /// the answer is computed exactly as in the plain branch-free form.
    pub fn binary_search_branchless_prefetching(&self, num: u32) -> (res: u32)
        requires
            self.wf(),
        ensures
            res == lower_bound(self.keys(), num),
    {
        let ghost lbi = lb_index(self.vals@, num);
        proof {
            lemma_lb_index_props(self.vals@, num);
        }
        let mut base: usize = 0;
        let mut len: usize = self.vals.len();
        while len > 1
            invariant
                self.wf(),
                1 <= len,
                base + len <= self.vals@.len(),
                forall|j: int| 0 <= j < base ==> self.vals@[j] < num,
                lbi <= base + len - 1 || lbi == self.vals@.len(),
                lbi == lb_index(self.vals@, num),
            decreases len,
        {
            proof {
                lemma_lb_index_props(self.vals@, num);
            }
            let half = len / 2;
            let cmp = self.get(base + half - 1) < num;
            base = if cmp {
                base + half
            } else {
                base
            };
            len -= half;
        }
        proof {
            if lbi < self.vals@.len() {
                lemma_lb_index_unique(self.vals@, num, base as int);
            }
        }
        let k = self.get(base);
        if k >= num {
            k
        } else {
            SENTINEL
        }
    }
}

} // verus!
