//! Geometry, ladder, Engram hashing and lane offsets.

use needle::v3::config::{V3Config, V3Engram};
use needle::v3::engram::{engram_indices, fetch_rows, max_order, ngram_valid};
use needle::v3::kernels::{hada_blocks, permute};
use needle::v3::ladder::{ladder_layer_indices, ladder_order};
use needle::v3::mhc::{post_off, pre_off};
use needle::v3::slice::config_at_depth;

/// A full-size geometry.
fn shipped() -> V3Config {
    V3Config {
        vocab_size: 8192,
        out_vocab: 8192,
        d_model: 768,
        num_heads: 12,
        num_kv_heads: 2,
        num_layers: 20,
        qk_head_dim: 48,
        v_head_dim: 64,
        max_seq_len: 8192,
        hada_n: 1024,
        mhc_lanes: 4,
        rope_theta: 100_000.0f32.to_bits(),
        sliding_window: 1024,
        global_layers: vec![4, 9, 14, 19],
        qkv_conv_taps: 3,
        engram: V3Engram {
            orders: vec![2, 3],
            heads: 3,
            slots: 18432,
            sub_dim: 128,
            sites: vec![3, 7, 11, 15, 19],
            conv_taps: 4,
            conv_dilation: 3,
            seed_heads: 0,
        },
    }
}

#[test]
fn projection_widths_match_the_container() {
    let c = shipped();
    assert_eq!(c.q_dim(), 576);
    assert_eq!(c.k_dim(), 96);
    assert_eq!(c.v_dim(), 128);
    assert_eq!(c.attn_out_dim(), 768);
    assert_eq!(c.kv_repeat(), 6);
}

#[test]
fn engram_tables_are_orders_times_heads() {
    let c = shipped();
    assert_eq!(c.engram.num_tables(), 6);
    assert_eq!(c.d_model / (c.engram.orders.len() * c.engram.sub_dim), 3);
    assert_eq!(c.engram.site_of(11), Some(2));
    assert_eq!(c.engram.site_of(12), None);
}

#[test]
fn global_layers_have_no_attention_span() {
    let c = shipped();
    for l in [4, 9, 14, 19] {
        assert!(c.is_global(l), "layer {l} should be global");
        assert_eq!(c.attention_span(l), None, "layer {l} span");
    }
    for l in [0, 3, 10, 18] {
        assert!(!c.is_global(l));
        assert_eq!(c.attention_span(l), Some(1024), "layer {l} span");
    }
}

#[test]
fn kv_cost_is_paid_for_what_a_session_uses() {
    let c = shipped();
    let short = c.kv_bytes(512, 1);
    let full = c.kv_bytes(8192, 1);
    assert_eq!(short, 512 * 20 * 224);
    assert_eq!(full, (16 * 1024 + 4 * 8192) * 224);
    assert!(
        short * 4 < full,
        "a 512-token session should cost far less than a full-context one: {short} vs {full}"
    );
    // Local layers saturate at the window; only the 4 global ones grow.
    let at_window = c.kv_bytes(1024, 1);
    let beyond = c.kv_bytes(2048, 1);
    let per_pos = c.num_kv_heads * (c.qk_head_dim + c.v_head_dim);
    assert_eq!(
        beyond - at_window,
        c.global_layers.len() * 1024 * per_pos,
        "past the window only the global layers should keep growing"
    );
}

#[test]
fn a_bigram_depends_on_exactly_two_tokens() {
    let orders = vec![2usize];
    // Same current token, different predecessor, so a correct bigram hash
    // must differ; a unigram hash would not.
    let a = engram_indices(&[10, 20, 30], &orders, 1, 18432, 0);
    let b = engram_indices(&[10, 99, 30], &orders, 1, 18432, 0);
    assert_eq!(a[0], b[0], "position 0 sees only token 10 either way");
    assert_ne!(a[1], b[1], "position 1's bigram changed");
    assert_ne!(a[2], b[2], "position 2's bigram changed");
}

#[test]
fn tables_differ_by_seed() {
    let orders = vec![2usize, 3];
    let idx = engram_indices(&[7, 8, 9], &orders, 3, 18432, 0);
    let row: Vec<u32> = (0..6).map(|t| idx[2 * 6 + t]).collect();
    assert!(
        row.windows(2).any(|w| w[0] != w[1]),
        "all six tables produced the same slot: {row:?}"
    );
}

#[test]
fn validity_follows_the_order() {
    let orders = vec![2usize, 3];
    // heads = 1, so table 0 is order 2 and table 1 is order 3.
    assert!(!ngram_valid(0, 0, &orders, 1));
    assert!(ngram_valid(1, 0, &orders, 1));
    assert!(!ngram_valid(1, 1, &orders, 1));
    assert!(ngram_valid(2, 1, &orders, 1));
}

#[test]
fn stepping_fetches_what_the_whole_sequence_fetches() {
    let e = shipped().engram;
    let tokens = [5u32, 17, 900, 3, 3, 41];
    assert_eq!(max_order(&e.orders), 3);
    for p in 0..tokens.len() {
        let from = if p + 1 > 3 { p + 1 - 3 } else { 0 };
        let whole = fetch_rows(&e, &tokens[..p + 1], p);
        let recent = fetch_rows(&e, &tokens[from..p + 1], p);
        assert_eq!(whole, recent, "position {p}");
    }
    assert_eq!(fetch_rows(&e, &tokens[..1], 0), vec![None; 6]);
}

#[test]
fn block_sizes_match_upstream() {
    assert_eq!(hada_blocks(1024), (32, 32));
    assert_eq!(hada_blocks(512), (16, 32));
    assert_eq!(hada_blocks(256), (16, 16));
}

#[test]
fn permute_gathers() {
    let src = [10.0f32, 20.0, 30.0];
    let perm = [2u32, 0, 1];
    let out = permute(&src, &perm);
    assert_eq!(out, [30.0, 10.0, 20.0]);
}

#[test]
fn the_order_matches_upstream_for_twenty_blocks() {
    assert_eq!(
        ladder_order(20),
        vec![0, 19, 9, 14, 4, 6, 11, 16, 2, 7, 12, 17, 1, 3, 5, 8, 10, 13, 15, 18]
    );
}

#[test]
fn rungs_nest_and_keep_both_endpoints() {
    for depth in 2..=20 {
        let kept = ladder_layer_indices(20, depth).unwrap();
        assert_eq!(kept.len(), depth);
        assert_eq!(kept[0], 0);
        assert_eq!(*kept.last().unwrap(), 19);
        assert!(
            kept.windows(2).all(|w| w[0] < w[1]),
            "ascending, no repeats"
        );
        if depth > 2 {
            let prev = ladder_layer_indices(20, depth - 1).unwrap();
            assert!(
                prev.iter().all(|l| kept.contains(l)),
                "depth {depth} must contain every block of {}",
                depth - 1
            );
        }
    }
}

#[test]
fn a_depth_outside_the_ladder_is_rejected() {
    assert!(ladder_layer_indices(20, 1).is_none());
    assert!(ladder_layer_indices(20, 0).is_none());
    assert!(ladder_layer_indices(20, 21).is_none());
    assert!(ladder_layer_indices(20, 20).is_some());
    assert!(ladder_layer_indices(20, 2).is_some());
}

#[test]
fn offsets_single_out_the_active_lane() {
    // Layer 5 with 4 lanes is assigned lane 1.
    assert_eq!(pre_off(5, 1, 4) as f32, 4.0);
    assert_eq!(pre_off(5, 0, 4) as f32, -4.0);
    assert_eq!(post_off(5, 1, 4) as f32, 0.0);
    assert_eq!(post_off(5, 2, 4) as f32, -4.0);
}

#[test]
fn a_rung_renumbers_its_global_layers_and_sites() {
    let parent = shipped();
    let cases: [(usize, Vec<usize>, Vec<usize>); 4] = [
        (6, vec![1, 3, 4, 5], vec![5]),
        (8, vec![1, 3, 5, 7], vec![4, 7]),
        (12, vec![2, 5, 8, 11], vec![4, 6, 11]),
        (16, vec![4, 9, 12, 15], vec![3, 7, 10, 15]),
    ];
    for (depth, globals, sites) in cases {
        let cfg = config_at_depth(&parent, depth).unwrap();
        assert_eq!(cfg.num_layers, depth);
        assert_eq!(cfg.global_layers, globals, "depth {depth}");
        assert_eq!(cfg.engram.sites, sites, "depth {depth}");
    }
    assert!(config_at_depth(&parent, 1).is_none());
    let whole = config_at_depth(&parent, 20).unwrap();
    assert_eq!(whole.global_layers, parent.global_layers);
    assert_eq!(whole.engram.sites, parent.engram.sites);
}

#[test]
fn lanes_and_logit_rows() {
    let mut c = shipped();
    assert_eq!(c.active_lane(7), 3);
    assert_eq!(c.mhc_width(), 3072);
    assert_eq!(c.logit_rows(), 8192);
    c.out_vocab = 100;
    assert_eq!(c.logit_rows(), 100);
    c.out_vocab = 0;
    assert_eq!(c.logit_rows(), 8192);
}

#[test]
fn a_slot_depends_on_its_ngram_alone() {
    let orders = vec![2usize, 3];
    let (heads, slots) = (2usize, 997u32);
    let tables = orders.len() * heads;
    let a = engram_indices(&[1, 2, 7, 8, 9], &orders, heads, slots, 0);
    let b = engram_indices(&[5, 7, 8, 9], &orders, heads, slots, 0);
    assert_eq!(a.len(), 5 * tables);
    // Both end in 7, 8, 9.
    assert_eq!(&a[4 * tables..], &b[3 * tables..]);
    // One position earlier only the bigrams agree, which come first.
    assert_eq!(&a[3 * tables..3 * tables + heads], &b[2 * tables..2 * tables + heads]);
    // What lies before the start counts as token 0.
    let padded = engram_indices(&[0, 0, 4], &orders, heads, slots, 0);
    let bare = engram_indices(&[4], &orders, heads, slots, 0);
    assert_eq!(&padded[2 * tables..], &bare[..]);
    assert!(a.iter().all(|i| *i < slots));
    // No seed heads of their own means those of the tables.
    assert_eq!(engram_indices(&[1, 2, 7, 8, 9], &orders, heads, slots, heads), a);
    assert_ne!(engram_indices(&[1, 2, 7, 8, 9], &orders, heads, slots, 5), a);
    // Of a table's number only the low word counts, however large it gets.
    let wide = engram_indices(&[1, 2, 7, 8, 9], &orders, heads, slots, usize::MAX);
    assert_eq!(wide.len(), a.len());
    assert_eq!(
        wide,
        engram_indices(&[1, 2, 7, 8, 9], &orders, heads, slots, u32::MAX as usize)
    );
}
