//! Blocked 17-ary static tree ("S-tree"): a multi-level flat array of
//! 16-key nodes. Leaf nodes hold the keys in consecutive blocks padded
//! with the sentinel; each internal level holds separator keys computed
//! from the level below; a closed-form sizing recurrence lays the whole
//! tree out in one flat node array with one starting offset per level.

use vstd::prelude::*;

use vstd::arithmetic::mul::lemma_mul_inequality;
use vstd::arithmetic::power::pow;

use crate::s_tree_node::{node_sorted, STreeNode};
use crate::{
    lb_index, lemma_lb_index_props, lemma_lb_index_unique, lemma_padded_monotone, lower_bound,
    padded_key, valid_keys, Searchable, NODE_LEN, SENTINEL,
};

verus! {

/// Number of 16-key blocks needed to hold `k` keys.
pub open spec fn blocks_spec(k: int) -> int {
    (k + 15) / 16
}

/// Number of separator keys one level up that index `k` keys below:
/// the blocks below are grouped 17 ways, 16 separators per group.
pub open spec fn prev_keys_spec(k: int) -> int {
    ((blocks_spec(k) + 16) / 17) * 16
}

/// Grouping into 16-key blocks shrinks any key count above one block.
pub proof fn lemma_prev_keys_lt(k: int)
    requires
        k >= 17,
    ensures
        16 <= prev_keys_spec(k) < k,
        prev_keys_spec(k) % 16 == 0,
{
    let b = blocks_spec(k);
    let q = (b + 16) / 17;
    assert(16 * b <= k + 15);
    assert(17 * q <= b + 16);
}

/// Number of levels of the blocked tree holding `k` keys.
pub open spec fn height_spec(k: int) -> int
    decreases k,
    when k <= 16 || (0 <= prev_keys_spec(k) < k)
    via height_spec_dec
{
    if k <= 16 {
        1
    } else {
        1 + height_spec(prev_keys_spec(k))
    }
}

#[via_fn]
proof fn height_spec_dec(k: int) {
    if k > 16 {
        lemma_prev_keys_lt(k);
    }
}

pub proof fn lemma_height_bounds(k: int)
    requires
        k >= 0,
    ensures
        1 <= height_spec(k) <= k + 1,
    decreases k,
{
    if k > 16 {
        lemma_prev_keys_lt(k);
        lemma_height_bounds(prev_keys_spec(k));
    }
}

/// Key count at level `h` of a tree of `total` levels built over `n`
/// keys: the leaf level holds `n`, each level above holds the separator
/// keys of the one below.
pub open spec fn layer_keys_spec(n: int, h: int, total: int) -> int
    decreases total - 1 - h,
    when h < total
{
    if h >= total - 1 {
        n
    } else {
        prev_keys_spec(layer_keys_spec(n, h + 1, total))
    }
}

/// Node count at level `h`.
pub open spec fn layer_blocks_spec(n: int, h: int, total: int) -> int {
    blocks_spec(layer_keys_spec(n, h, total))
}

/// Starting node index of level `h` in the flat array: the running sum
/// of the node counts of the levels above it. `offset_spec(n, total,
/// total)` is the total node count.
pub open spec fn offset_spec(n: int, h: int, total: int) -> int
    decreases h,
{
    if h <= 0 {
        0
    } else {
        offset_spec(n, h - 1, total) + layer_blocks_spec(n, h - 1, total)
    }
}

/// Per-level facts of the sizing recurrence, for every level `h` of a
/// tree over `n` keys: the level's key count is positive, itself of
/// height `h + 1`, bounded by the leaf count, and wide enough that the
/// levels below can cover all `n` keys.
pub proof fn lemma_layer_chain(n: int, h: int, total: int)
    requires
        n >= 1,
        total == height_spec(n),
        0 <= h < total,
    ensures
        height_spec(layer_keys_spec(n, h, total)) == h + 1,
        1 <= layer_keys_spec(n, h, total),
        layer_keys_spec(n, h, total) <= n,
        n <= pow(17, (total - 1 - h) as nat) * layer_keys_spec(n, h, total),
        h < total - 1 ==> layer_keys_spec(n, h, total) % 16 == 0,
    decreases total - 1 - h,
{
    if h >= total - 1 {
        vstd::arithmetic::power::lemma_pow0(17);
    } else {
        lemma_layer_chain(n, h + 1, total);
        let lk1 = layer_keys_spec(n, h + 1, total);
        let lk = layer_keys_spec(n, h, total);
        assert(height_spec(lk1) == h + 2);
        assert(lk1 >= 17) by {
            if lk1 <= 16 {
                assert(height_spec(lk1) == 1);
            }
        }
        lemma_prev_keys_lt(lk1);
        assert(lk == prev_keys_spec(lk1));
        assert(height_spec(lk) == h + 1);
        // the level below is covered 17-fold by this level's separators
        let b = blocks_spec(lk1);
        let q = (b + 16) / 17;
        assert(lk1 <= 16 * b);
        assert(b <= 17 * q);
        assert(lk1 <= 17 * lk);
        let d = (total - 1 - h - 1) as nat;
        assert(n <= pow(17, d) * lk1);
        assert(pow(17, d) * lk1 <= pow(17, d) * (17 * lk)) by {
            vstd::arithmetic::power::lemma_pow_positive(17, d);
            lemma_mul_inequality(lk1, 17 * lk, pow(17, d));
            vstd::arithmetic::mul::lemma_mul_is_commutative(lk1, pow(17, d));
            vstd::arithmetic::mul::lemma_mul_is_commutative(17 * lk, pow(17, d));
        }
        assert(pow(17, d) * (17 * lk) == pow(17, (d + 1) as nat) * lk) by {
            assert(pow(17, (d + 1) as nat) == 17 * pow(17, d)) by {
                vstd::arithmetic::power::lemma_pow_adds(17, 1, d);
                vstd::arithmetic::power::lemma_pow1(17);
            }
            vstd::arithmetic::mul::lemma_mul_is_associative(pow(17, d), 17, lk);
            vstd::arithmetic::mul::lemma_mul_is_commutative(pow(17, d), 17);
        }
    }
}

/// Each level's node count relates 17-fold to the one below, and the
/// running offsets stay bounded by twice the leaf node count plus one
/// node per level, so the flat array length fits comfortably.
pub proof fn lemma_offset_bound(n: int, h: int, total: int)
    requires
        n >= 1,
        total == height_spec(n),
        0 <= h < total,
    ensures
        offset_spec(n, h + 1, total) <= 2 * layer_blocks_spec(n, h, total) + h,
        layer_blocks_spec(n, h, total) >= 1,
    decreases h,
{
    lemma_layer_chain(n, h, total);
    assert(layer_blocks_spec(n, h, total) >= 1);
    assert(offset_spec(n, h + 1, total) == offset_spec(n, h, total) + layer_blocks_spec(
        n,
        h,
        total,
    ));
    if h > 0 {
        lemma_offset_bound(n, h - 1, total);
        lemma_layer_chain(n, h - 1, total);
        let bh = layer_blocks_spec(n, h, total);
        let bp = layer_blocks_spec(n, h - 1, total);
        // the level above holds exactly the block-group count of this one
        assert(layer_keys_spec(n, h - 1, total) == prev_keys_spec(layer_keys_spec(n, h, total)));
        assert(bp == (blocks_spec(layer_keys_spec(n, h, total)) + 16) / 17) by {
            let q = (blocks_spec(layer_keys_spec(n, h, total)) + 16) / 17;
            assert(blocks_spec(16 * q) == q);
        }
        assert(2 * bp <= bh + 1);
    }
}

/// No level ever needs more blocks than the leaf count allows.
pub proof fn lemma_blocks_le_leaf(n: int, h: int, total: int)
    requires
        n >= 1,
        total == height_spec(n),
        0 <= h < total,
    ensures
        layer_blocks_spec(n, h, total) <= blocks_spec(n),
{
    lemma_layer_chain(n, h, total);
}

/// A tree of two or more levels holds strictly more keys than a full
/// 17-ary tree one level shorter can index.
pub proof fn lemma_n_lower(k: int)
    requires
        height_spec(k) >= 2,
    ensures
        k >= 16 * pow(17, (height_spec(k) - 2) as nat) + 1,
    decreases k,
{
    let h = height_spec(k);
    assert(k >= 17) by {
        if k <= 16 {
            assert(height_spec(k) == 1);
        }
    }
    lemma_prev_keys_lt(k);
    let p = prev_keys_spec(k);
    let b = blocks_spec(k);
    let q = (b + 16) / 17;
    if h == 2 {
        vstd::arithmetic::power::lemma_pow0(17);
    } else {
        lemma_n_lower(p);
        assert(p == 16 * q);
        let e = (h - 3) as nat;
        assert(16 * q >= 16 * pow(17, e) + 1);
        assert(q >= pow(17, e) + 1);
        assert(17 * q <= b + 16);
        assert(b >= 17 * pow(17, e) + 1);
        assert(16 * b <= k + 15);
        assert(pow(17, (h - 2) as nat) == 17 * pow(17, e)) by {
            lemma_pow_step((h - 2) as nat);
        }
    }
}

/// `pow` unfolds one step.
pub proof fn lemma_pow_step(e: nat)
    requires
        e >= 1,
    ensures
        pow(17, e) == 17 * pow(17, (e - 1) as nat),
{
    vstd::arithmetic::power::lemma_pow_adds(17, 1, (e - 1) as nat);
    vstd::arithmetic::power::lemma_pow1(17);
}

/// Weighted block counts shrink 17-fold going up: at any level the node
/// count times the full fan-out below stays within one leaf span.
pub proof fn lemma_blocks_pow(n: int, h: int, total: int)
    requires
        n >= 1,
        total == height_spec(n),
        0 <= h < total,
    ensures
        layer_blocks_spec(n, h, total) * pow(17, (total - 1 - h) as nat) <= blocks_spec(n) + pow(
            17,
            (total - 1 - h) as nat,
        ) - 1,
    decreases total - 1 - h,
{
    let d = (total - 1 - h) as nat;
    vstd::arithmetic::power::lemma_pow_positive(17, d);
    if h == total - 1 {
        vstd::arithmetic::power::lemma_pow0(17);
    } else {
        lemma_blocks_pow(n, h + 1, total);
        lemma_layer_chain(n, h + 1, total);
        lemma_layer_chain(n, h, total);
        let bh = layer_blocks_spec(n, h, total);
        let b1 = layer_blocks_spec(n, h + 1, total);
        let lk1 = layer_keys_spec(n, h + 1, total);
        let q = (blocks_spec(lk1) + 16) / 17;
        assert(layer_keys_spec(n, h, total) == 16 * q);
        assert(bh == q) by {
            assert(blocks_spec(16 * q) == q);
        }
        assert(17 * bh <= b1 + 16);
        let dm = (d - 1) as nat;
        vstd::arithmetic::power::lemma_pow_positive(17, dm);
        assert(pow(17, d) == 17 * pow(17, dm)) by {
            lemma_pow_step(d);
        }
        assert(bh * pow(17, d) == (17 * bh) * pow(17, dm)) by {
            vstd::arithmetic::mul::lemma_mul_is_associative(bh, 17, pow(17, dm));
            vstd::arithmetic::mul::lemma_mul_is_commutative(bh, 17);
        }
        assert((17 * bh) * pow(17, dm) <= (b1 + 16) * pow(17, dm)) by {
            lemma_mul_inequality(17 * bh, b1 + 16, pow(17, dm));
        }
        assert((b1 + 16) * pow(17, dm) == b1 * pow(17, dm) + 16 * pow(17, dm)) by {
            vstd::arithmetic::mul::lemma_mul_is_distributive_add_other_way(
                pow(17, dm),
                b1,
                16,
            );
        }
    }
}

/// Every separator slot of an internal level routes to a leaf block
/// index of bounded magnitude, so the index arithmetic stays small.
pub proof fn lemma_sep_target_bound(n: int, h: int, total: int, i: int, j: int)
    requires
        n >= 1,
        total == height_spec(n),
        0 <= h < total - 1,
        0 <= i < layer_blocks_spec(n, h, total),
        0 <= j < 16,
    ensures
        1 <= 17 * i + j + 1,
        (17 * i + j + 1) * pow(17, (total - 2 - h) as nat) <= 3 * n,
{
    let d = (total - 2 - h) as nat;
    let bh = layer_blocks_spec(n, h, total);
    vstd::arithmetic::power::lemma_pow_positive(17, d);
    assert((17 * i + j + 1) * pow(17, d) <= (17 * bh) * pow(17, d)) by {
        lemma_mul_inequality(17 * i + j + 1, 17 * bh, pow(17, d));
    }
    assert((17 * bh) * pow(17, d) == bh * pow(17, (d + 1) as nat)) by {
        lemma_pow_step((d + 1) as nat);
        vstd::arithmetic::mul::lemma_mul_is_associative(bh, 17, pow(17, d));
        vstd::arithmetic::mul::lemma_mul_is_commutative(bh, 17);
    }
    lemma_blocks_pow(n, h, total);
    assert(bh * pow(17, (total - 1 - h) as nat) <= blocks_spec(n) + pow(17, (total - 1 - h) as nat)
        - 1);
    // the full fan-out is bounded through the key count of a tree this tall
    assert(height_spec(n) >= 2);
    lemma_n_lower(n);
    assert(pow(17, (total - 1) as nat) == 17 * pow(17, (total - 2) as nat)) by {
        lemma_pow_step((total - 1) as nat);
    }
    assert(pow(17, (total - 1 - h) as nat) <= pow(17, (total - 1) as nat)) by {
        if h > 0 {
            vstd::arithmetic::power::lemma_pow_increases(17, (total - 1 - h) as nat, (total
                - 1) as nat);
        }
    }
    assert(16 * pow(17, (total - 2) as nat) + 1 <= n);
    assert(blocks_spec(n) <= n);
}

/// The computed leaf block index is in the real-data range exactly when
/// its first key position is, and that position is the slot's separator
/// position.
pub proof fn lemma_sep_value(n: int, h: int, total: int, i: int, j: int, lni: int)
    requires
        n >= 1,
        total == height_spec(n),
        0 <= h < total - 1,
        0 <= i < layer_blocks_spec(n, h, total),
        0 <= j < 16,
        lni == (17 * i + j + 1) * pow(17, (total - 2 - h) as nat),
    ensures
        (lni < layer_blocks_spec(n, total - 1, total)) <==> (16 * lni < n),
        (17 * i + j + 1) * width_spec(h + 1, total) == 16 * lni,
{
    let d = (total - 2 - h) as nat;
    assert(width_spec(h + 1, total) == 16 * pow(17, d));
    assert((17 * i + j + 1) * (16 * pow(17, d)) == 16 * ((17 * i + j + 1) * pow(17, d))) by {
        vstd::arithmetic::mul::lemma_mul_is_associative(17 * i + j + 1, 16, pow(17, d));
        vstd::arithmetic::mul::lemma_mul_is_commutative(17 * i + j + 1, 16);
        vstd::arithmetic::mul::lemma_mul_is_associative(16, 17 * i + j + 1, pow(17, d));
    }
    lemma_layer_chain(n, total - 1, total);
    let bl = layer_blocks_spec(n, total - 1, total);
    assert(bl == (n + 15) / 16);
    assert(16 * ((n + 15) / 16) <= n + 15);
    assert((n + 15) / 16 >= n / 16);
}

/// One multiplication step of the routing-index computation keeps the
/// running product aligned with its target and bounded by it.
pub proof fn lemma_lni_growth(lni: int, d: nat, t: int)
    requires
        d >= 1,
        lni >= 1,
        lni * pow(17, d) == t,
    ensures
        (17 * lni) * pow(17, (d - 1) as nat) == t,
        17 * lni <= t,
{
    let dm = (d - 1) as nat;
    vstd::arithmetic::power::lemma_pow_positive(17, dm);
    assert(pow(17, d) == 17 * pow(17, dm)) by {
        lemma_pow_step(d);
    }
    assert(lni * (17 * pow(17, dm)) == (17 * lni) * pow(17, dm)) by {
        vstd::arithmetic::mul::lemma_mul_is_associative(lni, 17, pow(17, dm));
        vstd::arithmetic::mul::lemma_mul_is_commutative(lni, 17);
        vstd::arithmetic::mul::lemma_mul_is_associative(17, lni, pow(17, dm));
    }
    assert((17 * lni) * 1 <= (17 * lni) * pow(17, dm)) by {
        lemma_mul_inequality(1, pow(17, dm), 17 * lni);
        vstd::arithmetic::mul::lemma_mul_is_commutative(17 * lni, 1);
        vstd::arithmetic::mul::lemma_mul_is_commutative(17 * lni, pow(17, dm));
    }
}

impl STree {
    /// Number of 16-key blocks needed to hold `key_amount` keys.
    pub fn blocks_needed(key_amount: usize) -> (r: usize)
        ensures
            r == blocks_spec(key_amount as int),
    {
        key_amount / NODE_LEN + (if key_amount % NODE_LEN == 0 {
            0
        } else {
            1
        })
    }

    /// Number of separator keys needed one level up to index
    /// `key_amount` keys.
    pub fn prev_keys(key_amount: usize) -> (r: usize)
        ensures
            r == prev_keys_spec(key_amount as int),
            r <= key_amount + 16,
    {
        let b = Self::blocks_needed(key_amount);
        let q = b / (NODE_LEN + 1) + (if b % (NODE_LEN + 1) == 0 {
            0
        } else {
            1
        });
        proof {
            assert(16 * blocks_spec(key_amount as int) <= key_amount + 15);
        }
        q * NODE_LEN
    }

    /// Number of levels of a blocked tree over `key_amount` keys.
    pub fn height(key_amount: usize) -> (r: usize)
        ensures
            r == height_spec(key_amount as int),
        decreases key_amount,
    {
        if key_amount <= NODE_LEN {
            1
        } else {
            proof {
                lemma_prev_keys_lt(key_amount as int);
                lemma_height_bounds(prev_keys_spec(key_amount as int));
            }
            let p = Self::prev_keys(key_amount);
            Self::height(p) + 1
        }
    }

    /// Key count at level `h` of a tree of `total_height` levels over
    /// `key_amount` keys, by applying the separator recurrence upward
    /// from the leaves.
    pub fn layer_size(key_amount: usize, h: usize, total_height: usize) -> (r: usize)
        requires
            key_amount >= 1,
            total_height == height_spec(key_amount as int),
            h < total_height,
        ensures
            r == layer_keys_spec(key_amount as int, h as int, total_height as int),
    {
        let ghost n = key_amount as int;
        let ghost total = total_height as int;
        let mut k = key_amount;
        for j in h..total_height - 1
            invariant
                h <= j <= total_height - 1,
                total == total_height as int,
                n == key_amount as int,
                n >= 1,
                total == height_spec(n),
                h < total,
                k == layer_keys_spec(n, total - 1 - (j - h), total),
                k <= key_amount + 16,
        {
            proof {
                lemma_layer_chain(n, total - 1 - (j - h), total);
                lemma_layer_chain(n, total - 1 - (j - h) - 1, total);
            }
            k = Self::prev_keys(k);
            proof {
                if layer_keys_spec(n, total - 1 - (j - h), total) > 16 {
                    lemma_prev_keys_lt(layer_keys_spec(n, total - 1 - (j - h), total));
                }
            }
        }
        k
    }
}

/// The blocked tree: the flat node array, one starting offset per level
/// (root first, leaves last), and the ghost key sequence the structure
/// was built from and answers for.
pub struct STree {
    pub nodes: Vec<STreeNode>,
    pub offsets: Vec<usize>,
    pub key_seq: Ghost<Seq<u32>>,
}

/// Key positions spanned by one subtree hanging off level `h`: each of
/// the 17 children of a node one level up covers this many positions.
pub open spec fn width_spec(h: int, total: int) -> int {
    16 * pow(17, (total - 1 - h) as nat)
}

/// The leaf level holds the keys in consecutive blocks of 16, padded at
/// the tail with the sentinel.
pub open spec fn leaf_filled(nodes: Seq<STreeNode>, ks: Seq<u32>, n: int, total: int) -> bool {
    forall|i: int, j: int|
        0 <= i < layer_blocks_spec(n, total - 1, total) && 0 <= j < 16 ==> (#[trigger] nodes[
            offset_spec(n, total - 1, total) + i].keys@[j]) == padded_key(ks, 16 * i + j)
}

/// Internal level `h` holds, in slot `(i, j)`, the first key position of
/// the subtree that child `j + 1` of node `i` will route to.
pub open spec fn layer_filled(
    nodes: Seq<STreeNode>,
    ks: Seq<u32>,
    n: int,
    total: int,
    h: int,
) -> bool {
    forall|i: int, j: int|
        0 <= i < layer_blocks_spec(n, h, total) && 0 <= j < 16 ==> (#[trigger] nodes[offset_spec(
            n,
            h,
            total,
        ) + i].keys@[j]) == padded_key(ks, (17 * i + j + 1) * width_spec(h + 1, total))
}

/// The offsets grow level by level, each by that level's node count.
pub proof fn lemma_offset_monotone(n: int, h1: int, h2: int, total: int)
    requires
        n >= 1,
        total == height_spec(n),
        0 <= h1 <= h2 <= total,
    ensures
        offset_spec(n, h1, total) <= offset_spec(n, h2, total),
    decreases h2 - h1,
{
    if h1 < h2 {
        lemma_offset_monotone(n, h1, h2 - 1, total);
        lemma_offset_bound(n, h2 - 1, total);
    }
}

impl STree {
    /// The key sequence this tree was built from.
    pub open spec fn n_keys(&self) -> int {
        self.key_seq@.len() as int
    }

    /// Number of levels.
    pub open spec fn total_h(&self) -> int {
        height_spec(self.n_keys())
    }

    /// Structural invariant: offsets and node count follow the sizing
    /// recurrence, the leaf level holds the padded keys, and every
    /// internal level holds the separators of the level below.
    pub open spec fn wf_spec(&self) -> bool {
        let n = self.n_keys();
        let total = self.total_h();
        &&& valid_keys(self.key_seq@)
        &&& n < usize::MAX / 32
        &&& self.offsets@.len() == total
        &&& forall|h: int|
            0 <= h < total ==> (#[trigger] self.offsets@[h]) == offset_spec(n, h, total)
        &&& self.nodes@.len() == offset_spec(n, total, total)
        &&& leaf_filled(self.nodes@, self.key_seq@, n, total)
        &&& forall|h: int|
            0 <= h < total - 1 ==> #[trigger] layer_filled(self.nodes@, self.key_seq@, n, total, h)
    }
}

impl Searchable for STree {
    open spec fn wf(&self) -> bool {
        self.wf_spec()
    }

    open spec fn keys(&self) -> Seq<u32> {
        self.key_seq@
    }

    fn new(sorted_vals: &[u32]) -> (s: Self) {
        let ghost ks = sorted_vals@;
        let len = sorted_vals.len();
        let ghost n = len as int;
        let height = Self::height(len);
        let ghost total = height as int;
        proof {
            lemma_height_bounds(n);
        }
        // per-level node counts
        let mut layer_sizes: Vec<usize> = Vec::new();
        for h in 0..height
            invariant
                n == len as int,
                total == height as int,
                1 <= n < usize::MAX / 32,
                total == height_spec(n),
                layer_sizes@.len() == h,
                forall|g: int|
                    0 <= g < h ==> (#[trigger] layer_sizes@[g]) == layer_blocks_spec(n, g, total),
        {
            proof {
                lemma_layer_chain(n, h as int, total);
            }
            let ls = Self::layer_size(len, h, height);
            layer_sizes.push(Self::blocks_needed(ls));
        }
        // offsets as the running prefix sum of the level node counts
        let mut offsets: Vec<usize> = Vec::new();
        let mut acc: usize = 0;
        for h in 0..height
            invariant
                n == len as int,
                total == height as int,
                1 <= n < usize::MAX / 32,
                total == height_spec(n),
                layer_sizes@.len() == total,
                forall|g: int|
                    0 <= g < total ==> (#[trigger] layer_sizes@[g]) == layer_blocks_spec(
                        n,
                        g,
                        total,
                    ),
                offsets@.len() == h,
                forall|g: int| 0 <= g < h ==> (#[trigger] offsets@[g]) == offset_spec(n, g, total),
                acc == offset_spec(n, h as int, total),
                acc <= 2 * blocks_spec(n) + total,
        {
            proof {
                lemma_offset_bound(n, h as int, total);
                lemma_layer_chain(n, h as int, total);
                lemma_blocks_le_leaf(n, h as int, total);
                lemma_height_bounds(n);
            }
            offsets.push(acc);
            acc = acc + layer_sizes[h];
        }
        let n_blocks = acc;
        // flat array, every slot the sentinel
        let mut nodes: Vec<STreeNode> = Vec::new();
        while nodes.len() < n_blocks
            invariant
                n_blocks == offset_spec(n, total, total),
                nodes@.len() <= n_blocks,
                forall|x: int, j: int|
                    0 <= x < nodes@.len() && 0 <= j < 16 ==> (#[trigger] nodes@[x].keys@[j])
                        == SENTINEL,
            decreases n_blocks - nodes.len(),
        {
            nodes.push(STreeNode { keys: [SENTINEL; NODE_LEN] });
        }
        // leaf level: the keys in consecutive blocks of 16
        let leaf_off = offsets[height - 1];
        proof {
            lemma_offset_bound(n, total - 1, total);
            lemma_layer_chain(n, total - 1, total);
            assert(offset_spec(n, total, total) == offset_spec(n, total - 1, total)
                + layer_blocks_spec(n, total - 1, total));
        }
        for i in 0..len
            invariant
                n == len as int,
                total == height as int,
                1 <= n < usize::MAX / 32,
                total == height_spec(n),
                ks.len() == n,
                nodes@.len() == n_blocks,
                nodes@.len() == offset_spec(n, total, total),
                leaf_off == offset_spec(n, total - 1, total),
                nodes@.len() == leaf_off + layer_blocks_spec(n, total - 1, total),
                n <= 16 * layer_blocks_spec(n, total - 1, total),
                sorted_vals@ == ks,
                forall|x: int, j: int|
                    0 <= x < leaf_off && 0 <= j < 16 ==> (#[trigger] nodes@[x].keys@[j])
                        == SENTINEL,
                forall|x: int, j: int|
                    leaf_off <= x < nodes@.len() && 0 <= j < 16 ==> (#[trigger] nodes@[x].keys@[j])
                        == (if 16 * (x - leaf_off) + j < i {
                            ks[16 * (x - leaf_off) + j]
                        } else {
                            SENTINEL
                        }),
        {
            proof {
                assert(16 * ((i as int) / 16) <= i);
                assert((i as int) / 16 < layer_blocks_spec(n, total - 1, total));
            }
            let bidx = leaf_off + i / NODE_LEN;
            let mut nd = nodes[bidx];
            nd.keys[i % NODE_LEN] = sorted_vals[i];
            nodes[bidx] = nd;
        }
        // internal levels, bottom-up: each level is computed from the
        // already complete level below
        let mut hh = height - 1;
        while hh > 0
            invariant
                n == len as int,
                total == height as int,
                1 <= n < usize::MAX / 32,
                total == height_spec(n),
                ks.len() == n,
                0 <= hh <= total - 1,
                nodes@.len() == n_blocks,
                nodes@.len() == offset_spec(n, total, total),
                layer_sizes@.len() == total,
                forall|g: int|
                    0 <= g < total ==> (#[trigger] layer_sizes@[g]) == layer_blocks_spec(
                        n,
                        g,
                        total,
                    ),
                offsets@.len() == total,
                forall|g: int| 0 <= g < total ==> (#[trigger] offsets@[g]) == offset_spec(n, g, total),
                sorted_vals@ == ks,
                leaf_filled(nodes@, ks, n, total),
                forall|g: int|
                    hh <= g < total - 1 ==> #[trigger] layer_filled(nodes@, ks, n, total, g),
            decreases hh,
        {
            let h = hh - 1;
            let blocks_h = layer_sizes[h];
            let leaf_blocks = layer_sizes[height - 1];
            let offset = offsets[h];
            let leaf_off2 = offsets[height - 1];
            proof {
                lemma_layer_chain(n, h as int, total);
                lemma_layer_chain(n, total - 1, total);
                lemma_offset_monotone(n, h as int + 1, total - 1, total);
                lemma_offset_bound(n, h as int, total);
                lemma_offset_bound(n, total - 1, total);
                assert(16 * ((layer_keys_spec(n, h as int, total) + 15) / 16) <= layer_keys_spec(
                    n,
                    h as int,
                    total,
                ) + 15);
            }
            for i2 in 0..blocks_h * NODE_LEN
                invariant
                    n == len as int,
                    total == height as int,
                    1 <= n < usize::MAX / 32,
                    total == height_spec(n),
                    ks.len() == n,
                    0 <= h < total - 1,
                    hh == h + 1,
                    nodes@.len() == n_blocks,
                    nodes@.len() == offset_spec(n, total, total),
                    blocks_h == layer_blocks_spec(n, h as int, total),
                    leaf_blocks == layer_blocks_spec(n, total - 1, total),
                    blocks_h * NODE_LEN == 16 * layer_blocks_spec(n, h as int, total),
                    offset == offset_spec(n, h as int, total),
                    leaf_off2 == offset_spec(n, total - 1, total),
                    16 * blocks_h <= n + 15,
                    offset + blocks_h <= offset_spec(n, h as int + 1, total),
                    offset_spec(n, h as int + 1, total) <= leaf_off2,
                    leaf_off2 + leaf_blocks <= nodes@.len(),
                    n <= 16 * layer_blocks_spec(n, total - 1, total),
                    sorted_vals@ == ks,
                    leaf_filled(nodes@, ks, n, total),
                    forall|g: int|
                        hh <= g < total - 1 ==> #[trigger] layer_filled(nodes@, ks, n, total, g),
                    forall|x: int, j: int|
                        offset <= x < offset + blocks_h && 0 <= j < 16 && 16 * (x - offset) + j
                            < i2 ==> (#[trigger] nodes@[x].keys@[j]) == padded_key(
                            ks,
                            (17 * (x - offset) + j + 1) * width_spec(h as int + 1, total),
                        ),
            {
                let node_idx = i2 / NODE_LEN;
                let key_idx = i2 % NODE_LEN;
                proof {
                    assert(16 * ((i2 as int) / 16) <= i2);
                    assert((i2 as int) / 16 < blocks_h);
                    lemma_sep_target_bound(n, h as int, total, (i2 as int) / 16, (i2 as int) % 16);
                }
                let ghost tgt = (17 * node_idx + key_idx + 1) * pow(17, (total - 2 - h) as nat);
                let mut lni = node_idx * (NODE_LEN + 1) + 1 + key_idx;
                proof {
                    vstd::arithmetic::power::lemma_pow_positive(17, (total - 2 - h) as nat);
                    lemma_mul_inequality(1, pow(17, (total - 2 - h) as nat), lni as int);
                    vstd::arithmetic::mul::lemma_mul_is_commutative(
                        lni as int,
                        pow(17, (total - 2 - h) as nat),
                    );
                }
                let mut s: usize = h;
                while s < height - 2
                    invariant
                        0 <= h <= s <= total - 2,
                        total == height as int,
                        1 <= n < usize::MAX / 32,
                        total == height_spec(n),
                        0 <= h < total - 1,
                        node_idx < layer_blocks_spec(n, h as int, total),
                        key_idx < 16,
                        tgt == (17 * node_idx + key_idx + 1) * pow(17, (total - 2 - h) as nat),
                        lni * pow(17, (total - 2 - s) as nat) == tgt,
                        1 <= lni <= tgt,
                        tgt <= 3 * n,
                    decreases height - 2 - s,
                {
                    proof {
                        lemma_lni_growth(lni as int, (total - 2 - s) as nat, tgt);
                        assert((lni as int) * ((NODE_LEN + 1) as int) == 17 * (lni as int));
                    }
                    lni = lni * (NODE_LEN + 1);
                    s = s + 1;
                }
                proof {
                    vstd::arithmetic::power::lemma_pow0(17);
                    assert(lni as int == tgt);
                    lemma_sep_value(
                        n,
                        h as int,
                        total,
                        node_idx as int,
                        key_idx as int,
                        lni as int,
                    );
                }
                // `lni` now indexes the leaf block this slot routes to;
                // it is in range exactly when that block holds real keys
                let ghost pos = (17 * (node_idx as int) + key_idx + 1) * width_spec(
                    h as int + 1,
                    total,
                );
                let val = if lni < leaf_blocks {
                    let nd2 = nodes[leaf_off2 + lni];
                    proof {
                        assert(nodes@[leaf_off2 + lni].keys@[0] == padded_key(
                            ks,
                            16 * (lni as int),
                        ));
                    }
                    nd2.keys[0]
                } else {
                    proof {
                        assert(16 * (lni as int) >= n);
                    }
                    SENTINEL
                };
                proof {
                    assert(pos == 16 * (lni as int));
                    assert(val == padded_key(ks, pos));
                }
                let bidx = offset + node_idx;
                let ghost nodes0 = nodes@;
                let mut nd = nodes[bidx];
                nd.keys[key_idx] = val;
                nodes[bidx] = nd;
                proof {
                    assert(nodes@ == nodes0.update(bidx as int, nd));
                    assert(nd.keys@ == nodes0[bidx as int].keys@.update(key_idx as int, val));
                    assert(leaf_filled(nodes@, ks, n, total)) by {
                        assert forall|x: int, j2: int|
                            0 <= x < layer_blocks_spec(n, total - 1, total) && 0 <= j2
                                < 16 implies (#[trigger] nodes@[offset_spec(n, total - 1, total)
                            + x].keys@[j2]) == padded_key(ks, 16 * x + j2) by {
                            assert(offset_spec(n, total - 1, total) + x != bidx as int);
                            assert(nodes@[offset_spec(n, total - 1, total) + x] == nodes0[
                                offset_spec(n, total - 1, total) + x]);
                        }
                    }
                    assert forall|g: int| hh <= g < total - 1 implies #[trigger] layer_filled(
                        nodes@,
                        ks,
                        n,
                        total,
                        g,
                    ) by {
                        lemma_offset_monotone(n, h as int + 1, g, total);
                        lemma_offset_bound(n, g, total);
                        lemma_offset_monotone(n, g + 1, total, total);
                        assert(offset_spec(n, g + 1, total) == offset_spec(n, g, total)
                            + layer_blocks_spec(n, g, total));
                        assert(layer_filled(nodes0, ks, n, total, g));
                        assert forall|x: int, j2: int|
                            0 <= x < layer_blocks_spec(n, g, total) && 0 <= j2 < 16 implies (
                        #[trigger] nodes@[offset_spec(n, g, total) + x].keys@[j2]) == padded_key(
                            ks,
                            (17 * x + j2 + 1) * width_spec(g + 1, total),
                        ) by {
                            assert(offset_spec(n, g, total) + x >= offset_spec(
                                n,
                                h as int + 1,
                                total,
                            ));
                            assert(offset_spec(n, g, total) + x != bidx as int);
                            assert(nodes@[offset_spec(n, g, total) + x] == nodes0[offset_spec(
                                n,
                                g,
                                total,
                            ) + x]);
                        }
                    }
                    assert forall|x: int, j2: int|
                        offset <= x < offset + blocks_h && 0 <= j2 < 16 && 16 * (x - offset) + j2
                            < i2 + 1 implies (#[trigger] nodes@[x].keys@[j2]) == padded_key(
                        ks,
                        (17 * (x - offset) + j2 + 1) * width_spec(h as int + 1, total),
                    ) by {
                        if x == bidx as int && j2 == key_idx as int {
                            assert(x - offset == node_idx as int);
                            assert(nodes@[x].keys@[j2] == val);
                        } else if x == bidx as int {
                            assert(nodes@[x].keys@[j2] == nodes0[x].keys@[j2]);
                            assert(16 * (x - offset) + j2 != i2);
                        } else {
                            assert(nodes@[x] == nodes0[x]);
                            assert(16 * (x - offset) + j2 != i2);
                        }
                    }
                }
            }
            hh = h;
        }
        let s = STree { nodes, offsets, key_seq: Ghost(ks) };
        proof {
            assert(s.wf_spec());
        }
        s
    }
}

/// Traversal cursor invariant: while a query for `v` stands on node `i`
/// of level `h`, that node's subtree spans the (padded) key positions
/// containing the lower-bound position, and starts on a real key.
pub open spec fn cursor_inv(ks: Seq<u32>, total: int, h: int, i: int, v: u32) -> bool {
    let n = ks.len() as int;
    let w = width_spec(h, total);
    &&& 0 <= i
    &&& i * w < n
    &&& i * w <= lb_index(ks, v) <= (i + 1) * w
}

/// One level's span is 17 child spans.
proof fn lemma_width_step(h: int, total: int)
    requires
        h < total - 1,
    ensures
        width_spec(h, total) == 17 * width_spec(h + 1, total),
        width_spec(h + 1, total) >= 1,
{
    lemma_pow_step((total - 1 - h) as nat);
    vstd::arithmetic::power::lemma_pow_positive(17, (total - 2 - h) as nat);
}

/// A cursor always points into the allocated blocks of its level.
proof fn lemma_cursor_in_layer(t: &STree, h: int, i: int, v: u32)
    requires
        t.wf_spec(),
        0 <= h < t.total_h(),
        cursor_inv(t.key_seq@, t.total_h(), h, i, v),
    ensures
        i < layer_blocks_spec(t.n_keys(), h, t.total_h()),
        16 * i < layer_keys_spec(t.n_keys(), h, t.total_h()),
        offset_spec(t.n_keys(), h, t.total_h()) + i < t.nodes@.len(),
{
    let n = t.n_keys();
    let total = t.total_h();
    let ks = t.key_seq@;
    let p = pow(17, (total - 1 - h) as nat);
    let lk = layer_keys_spec(n, h, total);
    lemma_layer_chain(n, h, total);
    vstd::arithmetic::power::lemma_pow_positive(17, (total - 1 - h) as nat);
    assert(16 * i < lk) by {
        if 16 * i >= lk {
            lemma_mul_inequality(lk, 16 * i, p);
            vstd::arithmetic::mul::lemma_mul_is_commutative(lk, p);
            vstd::arithmetic::mul::lemma_mul_is_commutative(16 * i, p);
            vstd::arithmetic::mul::lemma_mul_is_associative(i, 16, p);
            vstd::arithmetic::mul::lemma_mul_is_commutative(i, 16);
            assert(n <= p * lk);
            assert(i * width_spec(h, total) >= n);
        }
    }
    lemma_offset_monotone(t.n_keys(), h + 1, total, t.total_h());
    lemma_offset_bound(n, h, total);
}

/// Every node a cursor can stand on is ascending, so any of the three
/// node-search forms may be run on it.
proof fn lemma_node_sorted_at(t: &STree, h: int, i: int)
    requires
        t.wf_spec(),
        0 <= h < t.total_h(),
        0 <= i < layer_blocks_spec(t.n_keys(), h, t.total_h()),
    ensures
        node_sorted(t.nodes@[offset_spec(t.n_keys(), h, t.total_h()) + i].keys@),
{
    let n = t.n_keys();
    let total = t.total_h();
    let ks = t.key_seq@;
    let nd = t.nodes@[offset_spec(n, h, total) + i];
    if h == total - 1 {
        assert(leaf_filled(t.nodes@, ks, n, total));
        assert forall|a: int, b: int| 0 <= a <= b < 16 implies nd.keys@[a] <= nd.keys@[b] by {
            assert(nd.keys@[a] == padded_key(ks, 16 * i + a));
            assert(nd.keys@[b] == padded_key(ks, 16 * i + b));
            lemma_padded_monotone(ks, 16 * i + a, 16 * i + b);
        }
    } else {
        let w1 = width_spec(h + 1, total);
        lemma_width_step(h, total);
        assert(layer_filled(t.nodes@, ks, n, total, h));
        assert forall|a: int, b: int| 0 <= a <= b < 16 implies nd.keys@[a] <= nd.keys@[b] by {
            assert(nd.keys@[a] == padded_key(ks, (17 * i + a + 1) * w1));
            assert(nd.keys@[b] == padded_key(ks, (17 * i + b + 1) * w1));
            lemma_mul_inequality(17 * i + a + 1, 17 * i + b + 1, w1);
            lemma_padded_monotone(ks, (17 * i + a + 1) * w1, (17 * i + b + 1) * w1);
        }
    }
}

/// A query starts at the root covering every key position.
proof fn lemma_root_cursor(t: &STree, v: u32)
    requires
        t.wf_spec(),
    ensures
        cursor_inv(t.key_seq@, t.total_h(), 0, 0, v),
{
    let n = t.n_keys();
    let total = t.total_h();
    let ks = t.key_seq@;
    lemma_height_bounds(n);
    lemma_layer_chain(n, 0, total);
    let lk = layer_keys_spec(n, 0, total);
    assert(lk <= 16) by {
        if lk > 16 {
            lemma_prev_keys_lt(lk);
            lemma_height_bounds(prev_keys_spec(lk));
            assert(height_spec(lk) >= 2);
        }
    }
    let p = pow(17, (total - 1) as nat);
    vstd::arithmetic::power::lemma_pow_positive(17, (total - 1) as nat);
    assert(p * lk <= p * 16) by {
        lemma_mul_inequality(lk, 16, p);
        vstd::arithmetic::mul::lemma_mul_is_commutative(lk, p);
        vstd::arithmetic::mul::lemma_mul_is_commutative(16, p);
    }
    lemma_lb_index_props(ks, v);
    assert(n <= 16 * p);
}

/// Descending one level by the node-search position keeps the cursor
/// invariant: the chosen child's span still brackets the lower bound.
proof fn lemma_descend(t: &STree, h: int, i: int, v: u32, r: int)
    requires
        t.wf_spec(),
        0 <= h < t.total_h() - 1,
        cursor_inv(t.key_seq@, t.total_h(), h, i, v),
        r == lb_index(t.nodes@[offset_spec(t.n_keys(), h, t.total_h()) + i].keys@, v),
    ensures
        0 <= r <= 16,
        cursor_inv(t.key_seq@, t.total_h(), h + 1, 17 * i + r, v),
        17 * i + r < layer_blocks_spec(t.n_keys(), h + 1, t.total_h()),
{
    let n = t.n_keys();
    let total = t.total_h();
    let ks = t.key_seq@;
    let nd = t.nodes@[offset_spec(n, h, total) + i];
    let w = width_spec(h, total);
    let w1 = width_spec(h + 1, total);
    let i2 = 17 * i + r;
    let lbi = lb_index(ks, v);
    lemma_cursor_in_layer(t, h, i, v);
    lemma_width_step(h, total);
    lemma_lb_index_props(nd.keys@, v);
    lemma_lb_index_props(ks, v);
    assert(layer_filled(t.nodes@, ks, n, total, h));
    assert(nd.keys@.len() == 16);
    // distribute the child spans over the parent span
    assert((17 * i) * w1 == i * w) by {
        vstd::arithmetic::mul::lemma_mul_is_associative(i, 17, w1);
        vstd::arithmetic::mul::lemma_mul_is_commutative(i, 17);
    }
    assert((17 * i + r) * w1 == (17 * i) * w1 + r * w1) by {
        vstd::arithmetic::mul::lemma_mul_is_distributive_add_other_way(w1, 17 * i, r);
    }
    assert((17 * i + r + 1) * w1 == (17 * i) * w1 + (r + 1) * w1) by {
        vstd::arithmetic::mul::lemma_mul_is_distributive_add_other_way(w1, 17 * i, r + 1);
    }
    assert((r + 1) * w1 == r * w1 + w1) by {
        vstd::arithmetic::mul::lemma_mul_is_distributive_add_other_way(w1, r, 1);
    }
    if r >= 1 {
        // the separator before the chosen child is below `v`
        assert(nd.keys@[r - 1] == padded_key(ks, (17 * i + r) * w1));
        assert(nd.keys@[r - 1] < v);
        assert(i2 * w1 < n && ks[i2 * w1] < v);
        assert(i2 * w1 < lbi) by {
            if lbi <= i2 * w1 {
                if lbi < n {
                    assert(ks[lbi] >= v);
                    if lbi < i2 * w1 {
                        assert(ks[lbi] < ks[i2 * w1]);
                    }
                }
            }
        }
    } else {
        assert(i2 * w1 == i * w);
    }
    if r <= 15 {
        // the separator at the position reaches `v`
        assert(nd.keys@[r] == padded_key(ks, (17 * i + r + 1) * w1));
        assert(nd.keys@[r] >= v);
        assert(lbi <= (i2 + 1) * w1) by {
            if (i2 + 1) * w1 < n {
                assert(ks[(i2 + 1) * w1] >= v);
                if lbi > (i2 + 1) * w1 {
                    assert(ks[(i2 + 1) * w1] < v);
                }
            } else {
                assert(lbi <= n);
            }
        }
    } else {
        assert((i2 + 1) * w1 == (i + 1) * w) by {
            vstd::arithmetic::mul::lemma_mul_is_distributive_add_other_way(w1, 17 * i, 17);
            vstd::arithmetic::mul::lemma_mul_is_associative(i + 1, 17, w1);
            vstd::arithmetic::mul::lemma_mul_is_commutative(i + 1, 17);
            vstd::arithmetic::mul::lemma_mul_is_distributive_add_other_way(17, i, 1);
        }
    }
    // the child's span still starts on a real key
    assert(i2 * w1 < n);
    // and therefore indexes an allocated block one level down
    let lk1 = layer_keys_spec(n, h + 1, total);
    let p1 = pow(17, (total - 2 - h) as nat);
    lemma_layer_chain(n, h + 1, total);
    vstd::arithmetic::power::lemma_pow_positive(17, (total - 2 - h) as nat);
    assert(16 * i2 < lk1) by {
        if 16 * i2 >= lk1 {
            lemma_mul_inequality(lk1, 16 * i2, p1);
            vstd::arithmetic::mul::lemma_mul_is_commutative(lk1, p1);
            vstd::arithmetic::mul::lemma_mul_is_commutative(16 * i2, p1);
            vstd::arithmetic::mul::lemma_mul_is_associative(i2, 16, p1);
            vstd::arithmetic::mul::lemma_mul_is_commutative(i2, 16);
            assert(n <= p1 * lk1);
            assert(i2 * w1 >= n);
        }
    }
}

/// At the leaf level the node-search position lands exactly on the
/// lower-bound key position, possibly running one block over.
proof fn lemma_leaf_step(t: &STree, i: int, v: u32, r: int)
    requires
        t.wf_spec(),
        cursor_inv(t.key_seq@, t.total_h(), t.total_h() - 1, i, v),
        r == lb_index(
            t.nodes@[offset_spec(t.n_keys(), t.total_h() - 1, t.total_h()) + i].keys@,
            v,
        ),
    ensures
        0 <= r <= 16,
        16 * i + r == lb_index(t.key_seq@, v),
        i + r / 16 < layer_blocks_spec(t.n_keys(), t.total_h() - 1, t.total_h())
            ==> t.nodes@[offset_spec(t.n_keys(), t.total_h() - 1, t.total_h()) + i + r / 16].keys@[r
            % 16] == lower_bound(t.key_seq@, v),
        i + r / 16 >= layer_blocks_spec(t.n_keys(), t.total_h() - 1, t.total_h()) ==> lower_bound(
            t.key_seq@,
            v,
        ) == SENTINEL,
        offset_spec(t.n_keys(), t.total_h() - 1, t.total_h()) + i + r / 16 < t.nodes@.len() <==> i
            + r / 16 < layer_blocks_spec(t.n_keys(), t.total_h() - 1, t.total_h()),
{
    let n = t.n_keys();
    let total = t.total_h();
    let ks = t.key_seq@;
    let nd = t.nodes@[offset_spec(n, total - 1, total) + i];
    let lbi = lb_index(ks, v);
    lemma_height_bounds(n);
    lemma_cursor_in_layer(t, total - 1, i, v);
    lemma_lb_index_props(nd.keys@, v);
    lemma_lb_index_props(ks, v);
    assert(leaf_filled(t.nodes@, ks, n, total));
    assert(width_spec(total - 1, total) == 16) by {
        vstd::arithmetic::power::lemma_pow0(17);
    }
    let bl = layer_blocks_spec(n, total - 1, total);
    lemma_layer_chain(n, total - 1, total);
    assert(n <= 16 * bl);
    // everything in the node before `r` is below `v`
    assert(16 * i + r <= lbi) by {
        if lbi < 16 * i + r {
            let j = lbi - 16 * i;
            assert(0 <= j < r);
            assert(nd.keys@[j] == padded_key(ks, lbi));
            assert(nd.keys@[j] < v);
            if lbi < n {
                assert(ks[lbi] >= v);
            }
        }
    }
    // and the slot at `r`, if any, reaches `v`
    assert(lbi <= 16 * i + r) by {
        if r <= 15 {
            assert(nd.keys@[r] == padded_key(ks, 16 * i + r));
            assert(nd.keys@[r] >= v);
            if 16 * i + r < n {
                if lbi > 16 * i + r {
                    assert(ks[16 * i + r] < v);
                }
            }
        }
    }
    assert(16 * i + r == lbi);
    lemma_offset_bound(n, total - 1, total);
    assert(offset_spec(n, total, total) == offset_spec(n, total - 1, total) + bl);
    if i + r / 16 < bl {
        let x2 = i + r / 16;
        assert(t.nodes@[offset_spec(n, total - 1, total) + x2].keys@[r % 16] == padded_key(
            ks,
            16 * x2 + r % 16,
        ));
        assert(16 * x2 + r % 16 == 16 * i + r);
    } else {
        assert(16 * i + r >= 16 * bl);
        assert(lower_bound(ks, v) == padded_key(ks, lbi));
    }
}

/// Every allocated node index belongs to exactly one of the first `m`
/// levels; returns that level.
proof fn lemma_node_layer(n: int, total: int, m: int, x: int) -> (h: int)
    requires
        n >= 1,
        total == height_spec(n),
        1 <= m <= total,
        0 <= x < offset_spec(n, m, total),
    ensures
        0 <= h < m,
        offset_spec(n, h, total) <= x < offset_spec(n, h, total) + layer_blocks_spec(n, h, total),
    decreases m,
{
    if x >= offset_spec(n, m - 1, total) {
        m - 1
    } else {
        lemma_node_layer(n, total, m - 1, x)
    }
}

/// Determinism of construction: any two well-formed trees over the same
/// key sequence have identical level offsets and identical node
/// contents — the layout is a function of the keys alone.
pub proof fn lemma_build_deterministic(t1: &STree, t2: &STree)
    requires
        t1.wf_spec(),
        t2.wf_spec(),
        t1.key_seq@ == t2.key_seq@,
    ensures
        t1.offsets@ == t2.offsets@,
        t1.nodes@.len() == t2.nodes@.len(),
        forall|x: int| 0 <= x < t1.nodes@.len() ==> t1.nodes@[x].keys@ == t2.nodes@[x].keys@,
{
    let n = t1.n_keys();
    let total = t1.total_h();
    lemma_height_bounds(n);
    assert(t1.offsets@ =~= t2.offsets@) by {
        assert forall|h: int| 0 <= h < total implies t1.offsets@[h] == t2.offsets@[h] by {
            assert(t1.offsets@[h] == offset_spec(n, h, total));
            assert(t2.offsets@[h] == offset_spec(n, h, total));
        }
    }
    assert forall|x: int| 0 <= x < t1.nodes@.len() implies t1.nodes@[x].keys@
        == t2.nodes@[x].keys@ by {
        let h = lemma_node_layer(n, total, total, x);
        let i = x - offset_spec(n, h, total);
        if h == total - 1 {
            assert(leaf_filled(t1.nodes@, t1.key_seq@, n, total));
            assert(leaf_filled(t2.nodes@, t2.key_seq@, n, total));
            assert forall|j: int| 0 <= j < 16 implies t1.nodes@[x].keys@[j]
                == t2.nodes@[x].keys@[j] by {
                assert(t1.nodes@[offset_spec(n, total - 1, total) + i].keys@[j] == padded_key(
                    t1.key_seq@,
                    16 * i + j,
                ));
                assert(t2.nodes@[offset_spec(n, total - 1, total) + i].keys@[j] == padded_key(
                    t2.key_seq@,
                    16 * i + j,
                ));
            }
            assert(t1.nodes@[x].keys@ =~= t2.nodes@[x].keys@);
        } else {
            assert(layer_filled(t1.nodes@, t1.key_seq@, n, total, h));
            assert(layer_filled(t2.nodes@, t2.key_seq@, n, total, h));
            assert forall|j: int| 0 <= j < 16 implies t1.nodes@[x].keys@[j]
                == t2.nodes@[x].keys@[j] by {
                assert(t1.nodes@[offset_spec(n, h, total) + i].keys@[j] == padded_key(
                    t1.key_seq@,
                    (17 * i + j + 1) * width_spec(h + 1, total),
                ));
                assert(t2.nodes@[offset_spec(n, h, total) + i].keys@[j] == padded_key(
                    t2.key_seq@,
                    (17 * i + j + 1) * width_spec(h + 1, total),
                ));
            }
            assert(t1.nodes@[x].keys@ =~= t2.nodes@[x].keys@);
        }
    }
}

impl STree {
    /// Read one node of the flat array.
    fn node(&self, node_idx: usize) -> (r: &STreeNode)
        requires
            node_idx < self.nodes@.len(),
        ensures
            *r == self.nodes@[node_idx as int],
    {
        &self.nodes[node_idx]
    }

    /// Read one key of one node.
    fn key(&self, node_idx: usize, key_idx: usize) -> (r: u32)
        requires
            node_idx < self.nodes@.len(),
            key_idx < 16,
        ensures
            r == self.nodes@[node_idx as int].keys@[key_idx as int],
    {
        self.nodes[node_idx].keys[key_idx]
    }

    /// Level-by-level descent with a pluggable node-search primitive:
    /// any implementation that returns the scan position on ascending
    /// nodes yields the canonical lower-bound answer.
    pub fn search_with_find_impl<F: Fn(&STreeNode, u32) -> usize>(&self, value: u32, find: F) -> (r:
        u32)
        requires
            self.wf(),
            forall|nd: &STreeNode, v: u32|
                node_sorted(nd.keys@) ==> #[trigger] call_requires(find, (nd, v)),
            forall|nd: &STreeNode, v: u32, res: usize|
                node_sorted(nd.keys@) && #[trigger] call_ensures(find, (nd, v), res) ==> res
                    == lb_index(nd.keys@, v),
        ensures
            r == lower_bound(self.keys(), value),
    {
        let ghost ks = self.key_seq@;
        let ghost n = self.n_keys();
        let ghost total = self.total_h();
        proof {
            lemma_height_bounds(n);
        }
        let height = self.offsets.len();
        let mut node_idx: usize = 0;
        proof {
            lemma_root_cursor(self, value);
        }
        for h in 0..height - 1
            invariant
                self.wf_spec(),
                0 <= h < height,
                ks == self.key_seq@,
                n == self.n_keys(),
                total == self.total_h(),
                height == total,
                n < usize::MAX / 32,
                cursor_inv(ks, total, h as int, node_idx as int, value),
                forall|nd: &STreeNode, v: u32|
                    node_sorted(nd.keys@) ==> #[trigger] call_requires(find, (nd, v)),
                forall|nd: &STreeNode, v: u32, res: usize|
                    node_sorted(nd.keys@) && #[trigger] call_ensures(find, (nd, v), res) ==> res
                        == lb_index(nd.keys@, v),
        {
            proof {
                assert(self.nodes.len() == self.nodes@.len());
                lemma_cursor_in_layer(self, h as int, node_idx as int, value);
                lemma_node_sorted_at(self, h as int, node_idx as int);
                lemma_layer_chain(n, h as int + 1, total);
            }
            let o = self.offsets[h];
            let nd = self.node(o + node_idx);
            let jump_to = find(nd, value);
            proof {
                lemma_descend(self, h as int, node_idx as int, value, jump_to as int);
                assert(16 * blocks_spec(n) <= n + 15);
                lemma_blocks_le_leaf(n, h as int + 1, total);
                assert((node_idx as int) * ((NODE_LEN + 1) as int) == 17 * (node_idx as int));
            }
            node_idx = node_idx * (NODE_LEN + 1) + jump_to;
        }
        proof {
            assert(self.nodes.len() == self.nodes@.len());
            lemma_cursor_in_layer(self, total - 1, node_idx as int, value);
            lemma_node_sorted_at(self, total - 1, node_idx as int);
        }
        let last = self.offsets[height - 1];
        let nd = self.node(last + node_idx);
        let key_idx = find(nd, value);
        proof {
            lemma_leaf_step(self, node_idx as int, value, key_idx as int);
        }
        let tnode = last + node_idx + key_idx / NODE_LEN;
        if tnode < self.nodes.len() {
            self.key(tnode, key_idx % NODE_LEN)
        } else {
            SENTINEL
        }
    }

    /// Lower-bound query using the early-exit linear node search.
    pub fn search_linear(&self, value: u32) -> (r: u32)
        requires
            self.wf(),
        ensures
            r == lower_bound(self.keys(), value),
    {
        self.search_with_find_impl(value, STreeNode::find_linear)
    }

    /// Lower-bound query using the branch-free counting node search.
    pub fn search_linear_count(&self, value: u32) -> (r: u32)
        requires
            self.wf(),
        ensures
            r == lower_bound(self.keys(), value),
    {
        proof {
            assert forall|nd: &STreeNode, v: u32, res: usize|
                node_sorted(nd.keys@) && #[trigger] call_ensures(
                    STreeNode::find_linear_count,
                    (nd, v),
                    res,
                ) implies res == lb_index(nd.keys@, v) by {
                crate::s_tree_node::lemma_node_find_agreement(nd.keys@, v);
            }
        }
        self.search_with_find_impl(value, STreeNode::find_linear_count)
    }

    /// Lower-bound query using the wide-compare node search.
    pub fn search_manual_simd(&self, value: u32) -> (r: u32)
        requires
            self.wf(),
        ensures
            r == lower_bound(self.keys(), value),
    {
        self.search_with_find_impl(value, STreeNode::find_simd)
    }

    /// Batched traversal: `P` independent queries descend the tree
    /// together, one level at a time, interleaved so that the memory
    /// accesses of different queries overlap. Each query's answer equals
    /// its sequential lower-bound answer.
    pub fn batch<const P: usize>(&self, values: &[u32; P]) -> (res: [u32; P])
        requires
            self.wf(),
        ensures
            forall|x: int| 0 <= x < P ==> res@[x] == lower_bound(self.keys(), values@[x]),
    {
        let ghost ks = self.key_seq@;
        let ghost n = self.n_keys();
        let ghost total = self.total_h();
        proof {
            lemma_height_bounds(n);
        }
        let height = self.offsets.len();
        let mut k: [usize; P] = vstd::array::array_fill_for_copy_types(0);
        proof {
            assert forall|y: int| 0 <= y < P implies cursor_inv(
                ks,
                total,
                0,
                k@[y] as int,
                values@[y],
            ) by {
                lemma_root_cursor(self, values@[y]);
            }
        }
        for h in 0..height - 1
            invariant
                self.wf_spec(),
                0 <= h < height,
                ks == self.key_seq@,
                n == self.n_keys(),
                total == self.total_h(),
                height == total,
                n < usize::MAX / 32,
                forall|y: int|
                    0 <= y < P ==> cursor_inv(ks, total, h as int, k@[y] as int, values@[y]),
        {
            let o = self.offsets[h];
            for x in 0..P
                invariant
                    self.wf_spec(),
                    0 <= h < height - 1,
                    ks == self.key_seq@,
                    n == self.n_keys(),
                    total == self.total_h(),
                    height == total,
                    n < usize::MAX / 32,
                    o == offset_spec(n, h as int, total),
                    forall|y: int|
                        0 <= y < x ==> cursor_inv(
                            ks,
                            total,
                            h as int + 1,
                            k@[y] as int,
                            values@[y],
                        ),
                    forall|y: int|
                        x <= y < P ==> cursor_inv(ks, total, h as int, k@[y] as int, values@[y]),
            {
                proof {
                    assert(self.nodes.len() == self.nodes@.len());
                    lemma_cursor_in_layer(self, h as int, k@[x as int] as int, values@[x as int]);
                    lemma_node_sorted_at(self, h as int, k@[x as int] as int);
                    lemma_layer_chain(n, h as int + 1, total);
                }
                let cur = k[x];
                let jump_to = self.node(o + cur).find_simd(values[x]);
                proof {
                    lemma_descend(self, h as int, cur as int, values@[x as int], jump_to as int);
                    assert(16 * blocks_spec(n) <= n + 15);
                    lemma_blocks_le_leaf(n, h as int + 1, total);
                    assert((cur as int) * ((NODE_LEN + 1) as int) == 17 * (cur as int));
                }
                k[x] = cur * (NODE_LEN + 1) + jump_to;
            }
        }
        let last = self.offsets[height - 1];
        let mut res: [u32; P] = vstd::array::array_fill_for_copy_types(0);
        for x in 0..P
            invariant
                self.wf_spec(),
                ks == self.key_seq@,
                n == self.n_keys(),
                total == self.total_h(),
                height == total,
                n < usize::MAX / 32,
                1 <= total,
                last == offset_spec(n, total - 1, total),
                forall|y: int| 0 <= y < x ==> res@[y] == lower_bound(ks, values@[y]),
                forall|y: int|
                    x <= y < P ==> cursor_inv(ks, total, total - 1, k@[y] as int, values@[y]),
        {
            proof {
                assert(self.nodes.len() == self.nodes@.len());
                lemma_cursor_in_layer(self, total - 1, k@[x as int] as int, values@[x as int]);
                lemma_node_sorted_at(self, total - 1, k@[x as int] as int);
            }
            let cur = k[x];
            let idx = self.node(last + cur).find_simd(values[x]);
            proof {
                lemma_leaf_step(self, cur as int, values@[x as int], idx as int);
            }
            let tnode = last + cur + idx / NODE_LEN;
            res[x] = if tnode < self.nodes.len() {
                self.key(tnode, idx % NODE_LEN)
            } else {
                SENTINEL
            };
        }
        res
    }

    /// Batched traversal that additionally wants each query's next node
    /// prefetched as soon as its index is known, before the following
    /// query of the batch is touched. The prefetch is a memory-system
    /// hint with no observable effect, so the answers are computed
    /// exactly as in [`Self::batch`].
    pub fn batch_prefetch<const P: usize>(&self, values: &[u32; P]) -> (res: [u32; P])
        requires
            self.wf(),
        ensures
            forall|x: int| 0 <= x < P ==> res@[x] == lower_bound(self.keys(), values@[x]),
    {
        self.batch(values)
    }
}

} // verus!
