use rand::{Rng, SeedableRng};
use static_index::binary_search::SortedVec;
use static_index::eytzinger::Eytzinger;
use static_index::s_tree::STree;
use static_index::s_tree_node::STreeNode;
use static_index::{Searchable, SENTINEL};

fn reference_lower_bound(keys: &[u32], q: u32) -> u32 {
    for &k in keys {
        if k >= q {
            return k;
        }
    }
    SENTINEL
}

#[test]
fn test_tree() {
    let arr: Vec<u32> = (0..=88).collect();
    let tree = STree::new(&arr);
    for q in 0..=89u32 {
        assert_eq!(tree.search_linear(q), reference_lower_bound(&arr, q));
    }
}

#[test]
fn stree_small_scenario() {
    let keys: Vec<u32> = (0..=32).collect();
    let tree = STree::new(&keys);
    assert_eq!(tree.search_linear(0), 0);
    assert_eq!(tree.search_linear(16), 16);
    assert_eq!(tree.search_linear(32), 32);
    assert_eq!(tree.search_linear(33), SENTINEL);
    assert_eq!(tree.search_linear_count(33), SENTINEL);
    assert_eq!(tree.search_manual_simd(16), 16);
}

#[test]
fn eytzinger_small_scenario() {
    let keys = [10u32, 20, 30, 40];
    let e = Eytzinger::new(&keys);
    assert_eq!(e.eyz_search(25), 30);
    assert_eq!(e.eyz_search(5), 10);
    assert_eq!(e.eyz_search(41), SENTINEL);
    assert_eq!(e.search_branchless(25), 30);
    assert_eq!(e.search_branchless(5), 10);
    assert_eq!(e.search_branchless(41), SENTINEL);
    assert_eq!(e.search_prefetch(25), 30);
    assert_eq!(e.search_branchless_prefetch(25), 30);
}

#[test]
fn sorted_vec_variants_agree() {
    let keys = [3u32, 7, 9, 100, 101, 4000];
    let s = SortedVec::new(&keys);
    for q in [0u32, 3, 4, 7, 8, 9, 99, 100, 101, 102, 3999, 4000, 4001, 1 << 30] {
        let want = reference_lower_bound(&keys, q);
        assert_eq!(s.std_binary_search(q), want);
        assert_eq!(s.binary_search_normal(q), want);
        assert_eq!(s.binary_search_branchless(q), want);
        assert_eq!(s.binary_search_branchless_prefetching(q), want);
        assert_eq!(s.binary_search_random(q), want);
    }
}

#[test]
fn single_key_all_representations() {
    let keys = [42u32];
    let s = SortedVec::new(&keys);
    let e = Eytzinger::new(&keys);
    let t = STree::new(&keys);
    for q in [0u32, 41, 42, 43, SENTINEL - 1] {
        let want = reference_lower_bound(&keys, q);
        assert_eq!(s.binary_search_branchless(q), want);
        assert_eq!(e.eyz_search(q), want);
        assert_eq!(e.search_branchless(q), want);
        assert_eq!(t.search_linear(q), want);
    }
}

#[test]
fn full_leaf_boundary() {
    // exactly one full 16-key block: the exceeds-all query must resolve
    // to the sentinel instead of running past the leaf level
    let keys: Vec<u32> = (100..116).collect();
    let t = STree::new(&keys);
    assert_eq!(t.search_linear(116), SENTINEL);
    assert_eq!(t.search_manual_simd(200), SENTINEL);
    assert_eq!(t.search_linear(100), 100);
    assert_eq!(t.search_linear(115), 115);
    let e = Eytzinger::new(&keys);
    assert_eq!(e.search_branchless(116), SENTINEL);
    let s = SortedVec::new(&keys);
    assert_eq!(s.binary_search_branchless(116), SENTINEL);
}

#[test]
fn node_search_forms_agree() {
    let node = STreeNode {
        keys: [2, 4, 6, 8, 10, 12, 14, 16, 18, 20, 22, 24, 26, 28, 30, 32],
    };
    let padded = STreeNode {
        keys: [
            5,
            9,
            13,
            SENTINEL,
            SENTINEL,
            SENTINEL,
            SENTINEL,
            SENTINEL,
            SENTINEL,
            SENTINEL,
            SENTINEL,
            SENTINEL,
            SENTINEL,
            SENTINEL,
            SENTINEL,
            SENTINEL,
        ],
    };
    for q in 0..40u32 {
        let a = node.find_linear(q);
        assert_eq!(a, node.find_linear_count(q));
        assert_eq!(a, node.find_simd(q));
    }
    for q in [0u32, 5, 6, 9, 10, 13, 14, SENTINEL - 1, SENTINEL] {
        let a = padded.find_linear(q);
        assert_eq!(a, padded.find_linear_count(q));
        assert_eq!(a, padded.find_simd(q));
    }
    assert_eq!(node.find_linear(1), 0);
    assert_eq!(node.find_linear(2), 0);
    assert_eq!(node.find_linear(3), 1);
    assert_eq!(node.find_linear(33), 16);
    assert_eq!(padded.find_linear(14), 3);
}

#[test]
fn cross_representation_agreement_randomized() {
    let mut rng = rand::rngs::StdRng::seed_from_u64(0xC0FFEE);
    for round in 0..8 {
        let n = 1 + rng.random_range(0..300usize) + round * 50;
        let mut keys: Vec<u32> = (0..n).map(|_| rng.random_range(0..1_000_000u32)).collect();
        keys.sort_unstable();
        keys.dedup();
        let s = SortedVec::new(&keys);
        let e = Eytzinger::new(&keys);
        let t = STree::new(&keys);
        for _ in 0..200 {
            let q: u32 = rng.random_range(0..1_100_000u32);
            let want = reference_lower_bound(&keys, q);
            assert_eq!(s.binary_search_branchless(q), want);
            assert_eq!(s.binary_search_branchless_prefetching(q), want);
            assert_eq!(s.binary_search_normal(q), want);
            assert_eq!(s.std_binary_search(q), want);
            assert_eq!(e.eyz_search(q), want);
            assert_eq!(e.search_branchless(q), want);
            assert_eq!(e.search_prefetch(q), want);
            assert_eq!(e.search_branchless_prefetch(q), want);
            assert_eq!(t.search_linear(q), want);
            assert_eq!(t.search_linear_count(q), want);
            assert_eq!(t.search_manual_simd(q), want);
        }
    }
}

#[test]
fn batch_matches_sequential() {
    let mut rng = rand::rngs::StdRng::seed_from_u64(7);
    let mut keys: Vec<u32> = (0..2000).map(|_| rng.random_range(0..100_000u32)).collect();
    keys.sort_unstable();
    keys.dedup();
    let t = STree::new(&keys);

    let mut q2 = [0u32; 2];
    for v in q2.iter_mut() {
        *v = rng.random_range(0..110_000u32);
    }
    let r2 = t.batch(&q2);
    for i in 0..2 {
        assert_eq!(r2[i], t.search_linear(q2[i]));
    }

    let mut q8 = [0u32; 8];
    for v in q8.iter_mut() {
        *v = rng.random_range(0..110_000u32);
    }
    let r8 = t.batch(&q8);
    for i in 0..8 {
        assert_eq!(r8[i], t.search_linear(q8[i]));
    }

    let mut q128 = [0u32; 128];
    for v in q128.iter_mut() {
        *v = rng.random_range(0..110_000u32);
    }
    let r128 = t.batch(&q128);
    let p128 = t.batch_prefetch(&q128);
    for i in 0..128 {
        assert_eq!(r128[i], t.search_linear(q128[i]));
        assert_eq!(p128[i], r128[i]);
    }
}

#[test]
fn build_is_deterministic() {
    let keys: Vec<u32> = (0..777).map(|x| x * 3 + 1).collect();
    let t1 = STree::new(&keys);
    let t2 = STree::new(&keys);
    assert_eq!(t1.offsets, t2.offsets);
    assert_eq!(t1.nodes.len(), t2.nodes.len());
    for (a, b) in t1.nodes.iter().zip(t2.nodes.iter()) {
        assert_eq!(a.keys, b.keys);
    }
    let e1 = Eytzinger::new(&keys);
    let e2 = Eytzinger::new(&keys);
    assert_eq!(e1.vals, e2.vals);
    assert_eq!(e1.num_iters, e2.num_iters);
    let s1 = SortedVec::new(&keys);
    let s2 = SortedVec::new(&keys);
    assert_eq!(s1.vals, s2.vals);
}
