//! The published geometry: its directory, its rungs and what its sessions
//! cost.

use needle::v3::cache::{KvPrecision, V3Cache};
use needle::v3::config::V3Config;
use needle::v3::container::{
    config_from_geometry, CactV3Geometry, Record, V3GeometryError, DT_FP16, DT_FP32, DT_RAW,
};
use needle::v3::heads::ProbeHead;
use needle::v3::layout::{V3Layout, V3LayoutError};
use needle::v3::slice::{config_at_depth, plan_rung, V3LoadError};

fn geometry(tables: usize) -> CactV3Geometry {
    CactV3Geometry {
        num_tensors: 581,
        kv_window: 0,
        kv_bits: 8,
        vocab_size: 8192,
        out_vocab: 8192,
        d_model: 768,
        num_heads: 12,
        num_kv_heads: 2,
        num_layers: 20,
        qk_head_dim: 48,
        v_head_dim: 64,
        max_seq_len: 8192,
        hada_n: 1024,
        mhc_lanes: 4,
        sliding_window: 1024,
        global: vec![4, 9, 14, 19],
        qkv_conv_taps: 3,
        engram_slots: 18432,
        engram_sub_dim: 128,
        num_engram_tables: tables,
        engram_conv_taps: 4,
        engram_conv_dilation: 3,
        engram_seed_heads: 0,
        engram_orders: vec![2, 3],
        engram_sites: vec![3, 7, 11, 15, 19],
        rope_theta: 100_000.0f32.to_bits(),
    }
}

fn shipped() -> V3Config {
    config_from_geometry(&geometry(6)).expect("geometry should be consistent")
}

fn record(dtype: u8, shape: &[usize]) -> Record {
    let mut padded = [0usize; 4];
    padded[..shape.len()].copy_from_slice(shape);
    Record { dtype, ndim: shape.len() as u8, shape: padded, offset: 0, nbytes: 0, group: 0, bits: 0 }
}

/// The directory in canon order.
fn directory(c: &V3Config) -> Vec<Record> {
    let fp16 = |shape: &[usize]| record(DT_FP16, shape);
    let (d, n, lanes) = (c.d_model, c.num_layers, c.mhc_lanes);
    let mut r = vec![fp16(&[c.vocab_size, d])];
    for _ in 0..n {
        r.push(fp16(&[d]));
        r.push(fp16(&[c.q_dim(), d]));
        r.push(fp16(&[c.k_dim(), d]));
        r.push(fp16(&[c.v_dim(), d]));
        for width in [c.q_dim(), c.k_dim(), c.v_dim()] {
            r.push(fp16(&[c.qkv_conv_taps, width]));
        }
        r.push(fp16(&[c.qk_head_dim]));
        r.push(fp16(&[c.qk_head_dim]));
        r.push(fp16(&[c.attn_out_dim(), d]));
        r.push(fp16(&[d, c.attn_out_dim()]));
        r.push(fp16(&[d]));
        r.push(fp16(&[1]));
        r.push(fp16(&[d]));
        for _ in 0..5 {
            r.push(fp16(&[c.hada_n]));
        }
        for _ in 0..6 {
            r.push(fp16(&[32, 32]));
        }
        r.push(fp16(&[d, 2]));
        r.push(fp16(&[2, c.hada_n]));
    }
    for _ in 0..3 {
        r.push(fp16(&[n]));
    }
    r.push(fp16(&[n, lanes]));
    r.push(fp16(&[n, lanes]));
    r.push(fp16(&[n, lanes, lanes]));
    r.push(fp16(&[n * lanes, lanes * d]));
    r.push(fp16(&[n * lanes, lanes * d]));
    r.push(fp16(&[n * lanes * lanes, lanes * d]));
    r.push(record(DT_FP32, &[c.hada_n]));
    r.push(record(DT_FP32, &[c.hada_n]));
    let wide = c.engram.num_tables() * c.engram.sub_dim;
    for _ in 0..c.engram.sites.len() {
        r.push(fp16(&[c.engram.num_tables() * c.engram.slots, c.engram.sub_dim]));
        r.push(fp16(&[d, wide]));
        r.push(fp16(&[d, wide]));
        r.push(fp16(&[c.engram.conv_taps, d]));
    }
    r.push(fp16(&[d]));
    r.push(fp16(&[1]));
    r.push(fp16(&[(n + 1) * 2, d]));
    r.push(fp16(&[n + 1, 2]));
    r.push(fp16(&[2, d]));
    r.push(fp16(&[2, n + 1, 2]));
    r.push(fp16(&[1, 2 * d]));
    r.push(fp16(&[1]));
    r.push(record(DT_RAW, &[]));
    r
}

fn globals(c: &V3Config) -> Vec<usize> {
    (0..c.num_layers).filter(|&l| c.attention_span(l).is_none()).collect()
}

#[test]
fn derives_the_shipped_geometry() {
    let cfg = shipped();
    assert_eq!(cfg.d_model, 768);
    assert_eq!(cfg.num_layers, 20);
    assert_eq!(cfg.qk_head_dim, 48);
    assert_eq!(cfg.v_head_dim, 64);
    assert_eq!(cfg.q_dim(), 576);
    assert_eq!(cfg.k_dim(), 96);
    assert_eq!(cfg.v_dim(), 128);
    assert_eq!(cfg.global_layers, vec![4, 9, 14, 19]);
    assert_eq!(cfg.qkv_conv_taps, 3);
    assert_eq!(cfg.sliding_window, 1024);

    // The head count, recovered from the table count.
    assert_eq!(cfg.engram.heads, 3);
    assert_eq!(cfg.engram.num_tables(), 6);
    assert_eq!(cfg.engram.sites, vec![3, 7, 11, 15, 19]);
    assert_eq!(cfg.engram.orders, vec![2, 3]);
}

#[test]
fn canon_walk_lands_on_the_right_slots() {
    let cfg = shipped();
    let records = directory(&cfg);
    assert_eq!(records.len(), 581);
    let l = V3Layout::derive(&cfg, &records).expect("canon should walk cleanly");

    assert_eq!(l.embedding, 0);
    assert_eq!(l.layers.len(), 20);
    assert_eq!(l.engrams.len(), 5);
    assert_eq!(l.final_norm, 572);
    assert_eq!(l.head_manifest, Some(573));
    assert_eq!(l.head_tensors, (574..580).collect::<Vec<_>>());
    assert_eq!(l.tokenizer, Some(580));

    // 27 tensors per layer with conv taps present: the first layer starts
    // right after the embedding, the last ends before the mHC block.
    assert_eq!(l.layers[0].norm_in, 1);
    assert_eq!(l.layers[0].qkv_taps, Some([5, 6, 7]));
    assert_eq!(l.mhc.scalars[0], 541);
    assert_eq!(l.mhc.phi[0], 547);
    assert_eq!(l.hada_perms, [550, 551]);
    assert_eq!(l.engrams[0].tables, 552);

    // The two FP32 records are exactly the Hadamard permutations.
    for idx in l.hada_perms {
        assert_eq!(records[idx].dtype, DT_FP32, "hada perm at {idx}");
        assert_eq!(records[idx].shape[0], cfg.hada_n);
    }
}

#[test]
fn a_shape_in_the_wrong_slot_is_rejected() {
    let mut cfg = shipped();
    let records = directory(&cfg);
    // Claim one layer fewer: the walk stays in bounds but every slot after it
    // shifts by 27, so the engram tables land on a layer tensor.
    cfg.num_layers = 19;
    let err = V3Layout::derive(&cfg, &records).unwrap_err();
    assert!(matches!(err, V3LayoutError::BadShape { .. }), "expected a shape rejection");
}

#[test]
fn rejects_a_table_count_that_contradicts_the_geometry() {
    // Not a multiple of 2 orders.
    assert!(matches!(
        config_from_geometry(&geometry(7)),
        Err(V3GeometryError::TableCountNotDivisible { .. })
    ));
    // Divisible, but then sub_dim would be 96.
    assert!(matches!(
        config_from_geometry(&geometry(8)),
        Err(V3GeometryError::SubDimMismatch { .. })
    ));
    // Orders and no tables at all.
    assert_eq!(
        config_from_geometry(&geometry(0)).unwrap_err(),
        V3GeometryError::SubDimMismatch { declared: 128, derived: 0 }
    );
}

#[test]
fn a_slice_has_the_geometry_the_ladder_prescribes() {
    let full = shipped();
    let records = directory(&full);
    for (depth, want_global, want_sites) in [
        (6usize, vec![1usize, 3, 4, 5], vec![5usize]),
        (8, vec![1, 3, 5, 7], vec![4, 7]),
        (12, vec![2, 5, 8, 11], vec![4, 6, 11]),
        (16, vec![4, 9, 12, 15], vec![3, 7, 10, 15]),
    ] {
        let cfg = plan_rung(&full, &records, depth).expect("slice").cfg;
        assert_eq!(cfg.num_layers, depth);
        assert_eq!(globals(&cfg), want_global, "{depth}L global layers");
        assert_eq!(cfg.engram.sites, want_sites, "{depth}L Engram sites");
        // The head is sliced to one cell per kept block plus the embedding.
        let head = ProbeHead {
            probes: vec![0u8; 21 * 2],
            gain: vec![0; 21 * 2],
            query: vec![],
            row_bias: vec![0; 2 * 21 * 2],
            proj: vec![],
            bias: vec![],
            cells: 21,
            probes_per_cell: 2,
            queries: 2,
            out_dim: 1,
        };
        assert_eq!(head.at_depth(20, 1, depth).expect("rung").cells, depth + 1, "{depth}L head cells");
    }
}

#[test]
fn a_rung_declares_the_depth_it_was_built_at() {
    let full = shipped();
    for d in [6usize, 8] {
        let cfg = config_at_depth(&full, d).expect("rung");
        assert_eq!(cfg.num_layers, d, "{d}L: header num_layers");
        let globals = globals(&cfg);
        let want_global: Vec<usize> = match d {
            6 => vec![1, 3, 4, 5],
            8 => vec![1, 3, 5, 7],
            _ => unreachable!(),
        };
        let want_sites: Vec<usize> = match d {
            6 => vec![5],
            8 => vec![4, 7],
            _ => unreachable!(),
        };
        assert_eq!(globals, want_global, "{d}L: global-attention layers");
        assert_eq!(cfg.engram.sites, want_sites, "{d}L: Engram sites");
        assert!(globals.contains(&(d - 1)), "{d}L: the last block is global");
        assert!(
            cfg.engram.sites.contains(&(d - 1)),
            "{d}L: the last block holds an Engram site"
        );
    }
}

#[test]
fn a_shallow_rung_costs_less_cache_and_the_full_depth_is_unchanged() {
    let full = shipped();
    let records = directory(&full);
    let same = plan_rung(&full, &records, full.num_layers).expect("full via depth").cfg;
    assert_eq!(same.num_layers, full.num_layers);
    assert_eq!(globals(&same), globals(&full));
    assert_eq!(same.engram.sites, full.engram.sites);

    let mut prev = 0usize;
    for depth in [6usize, 8, 12, 16, 20] {
        let cfg = plan_rung(&full, &records, depth).expect("slice").cfg;
        let kv = cfg.kv_bytes(512, 4);
        assert!(kv > prev, "{depth}L cache did not grow with depth");
        prev = kv;
    }
}

#[test]
fn a_depth_outside_the_ladder_is_refused() {
    let full = shipped();
    let records = directory(&full);
    for bad in [0usize, 1, 21, 100] {
        assert!(
            matches!(
                plan_rung(&full, &records, bad),
                Err(V3LoadError::Shape("depth is outside the ladder"))
            ),
            "depth {bad} should be refused"
        );
    }
}

fn cache(c: &V3Config, hint: usize, precision: KvPrecision) -> V3Cache<f32> {
    V3Cache::with_precision(c, hint, precision, 0.0, 1.0)
}

#[test]
fn int8_storage_is_about_a_quarter_of_f32() {
    let cfg = shipped();
    let full = cfg.max_seq_len;
    let a = cache(&cfg, full, KvPrecision::F32).bytes();
    let b = cache(&cfg, full, KvPrecision::Int8).bytes();

    // One i8 plus a per-head scale against one f32: a touch over a quarter,
    // never at or above a half.
    assert!(b * 3 < a, "int8 cache {b} is not materially below f32 {a}");
    assert!(b * 5 > a, "int8 cache {b} is implausibly small against {a}");

    for n in [512usize, 2048, 8192] {
        for (p, actual) in [
            (KvPrecision::F32, cache(&cfg, n, KvPrecision::F32).bytes()),
            (KvPrecision::Int8, cache(&cfg, n, KvPrecision::Int8).bytes()),
        ] {
            let est = cfg.kv_bytes_at(n, p);
            // The cache also holds the small conv and engram tails, so it may
            // exceed the estimate a little, never fall below it.
            assert!(est <= actual, "{p:?} at {n}: estimate {est} exceeds actual {actual}");
            let over = (actual - est) as f64 / actual as f64;
            assert!(
                over < 0.10,
                "{p:?} at {n}: estimate {est} is {:.1}% under the actual {actual}",
                over * 100.0
            );
        }
    }
}

#[test]
fn int8_is_not_silently_the_f32_path() {
    let cfg = shipped();
    let mut a = cache(&cfg, 8, KvPrecision::F32);
    let mut b = cache(&cfg, 8, KvPrecision::Int8);
    let k: Vec<f32> = (0..cfg.k_dim()).map(|i| (i as f32) * 0.013 - 0.4).collect();
    let v: Vec<f32> = (0..cfg.v_dim()).map(|i| (i as f32) * -0.007 + 0.2).collect();
    let ints = |x: &[f32]| x.iter().map(|v| (v * 100.0).round() as i8).collect::<Vec<i8>>();
    let scales = vec![0.01f32; cfg.num_kv_heads];
    a.write_kv(0, 0, &k, &v);
    b.write_kv_int8(0, 0, &ints(&k), &scales, &ints(&v), &scales);
    assert!(
        b.bytes() < a.bytes(),
        "int8 cache did not allocate less: {} vs {}",
        b.bytes(),
        a.bytes()
    );
}
