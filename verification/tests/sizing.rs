use static_index::experiment::sizes;
use static_index::s_tree::STree;

// Brute-force simulation of the layout: group the keys into blocks of
// 16 and index them 17 ways upward until a single block remains,
// recording each level's key count from the root down.
fn simulate_layers(n: usize) -> Vec<usize> {
    let mut counts = vec![n];
    let mut k = n;
    while k.div_ceil(16) > 1 {
        k = k.div_ceil(16).div_ceil(17) * 16;
        counts.push(k);
    }
    counts.reverse();
    counts
}

#[test]
fn sizing_closed_forms_match_simulation() {
    for n in [1usize, 15, 16, 17, 256, 257, 4096] {
        let sim = simulate_layers(n);
        let h = STree::height(n);
        assert_eq!(h, sim.len(), "height for {n}");
        for (lvl, &keys_at_level) in sim.iter().enumerate() {
            assert_eq!(STree::layer_size(n, lvl, h), keys_at_level, "layer {lvl} of {n}");
            assert_eq!(
                STree::blocks_needed(STree::layer_size(n, lvl, h)),
                keys_at_level.div_ceil(16)
            );
        }
    }
}

#[test]
fn sizing_primitives() {
    assert_eq!(STree::blocks_needed(0), 0);
    assert_eq!(STree::blocks_needed(1), 1);
    assert_eq!(STree::blocks_needed(16), 1);
    assert_eq!(STree::blocks_needed(17), 2);
    assert_eq!(STree::prev_keys(16), 16);
    assert_eq!(STree::prev_keys(17), 16);
    assert_eq!(STree::prev_keys(16 * 17), 16);
    assert_eq!(STree::prev_keys(16 * 17 + 1), 32);
    assert_eq!(STree::height(1), 1);
    assert_eq!(STree::height(16), 1);
    assert_eq!(STree::height(17), 2);
    assert_eq!(STree::height(16 * 17), 2);
    assert_eq!(STree::height(16 * 17 + 1), 3);
}

#[test]
fn experiment_sizes_sweep() {
    let s = sizes();
    assert_eq!(s.len(), 113);
    assert_eq!(s[0], 16);
    assert_eq!(s[1], 20);
    assert_eq!(s[2], 24);
    assert_eq!(s[3], 28);
    assert_eq!(s[4], 32);
    assert_eq!(s[108], 1u64 << 31);
    assert_eq!(s[111], (1u64 << 31) * 7 / 4);
    assert_eq!(s[112], 1u64 << 32);
}
