//! The decode cache: rings, tails and histories.

use needle::v3::attention::{AttnDims, KvStore, Ring};
use needle::v3::cache::{conv_reads, engram_reads, is_cacheable, KvPrecision, Qkv, V3Cache};
use needle::v3::config::{V3Config, V3Engram};
use needle::v3::engram::{fetch_rows, is_fetchable, sequence_rows};
use needle::v3::taps::{conv_sources, engram_sources};

fn cfg() -> V3Config {
    V3Config {
        vocab_size: 8192,
        out_vocab: 8192,
        d_model: 8,
        num_heads: 2,
        num_kv_heads: 1,
        num_layers: 4,
        qk_head_dim: 4,
        v_head_dim: 4,
        max_seq_len: 64,
        hada_n: 8,
        mhc_lanes: 2,
        rope_theta: 10000.0f32.to_bits(),
        sliding_window: 4,
        global_layers: vec![3],
        qkv_conv_taps: 3,
        engram: V3Engram {
            orders: vec![2, 3],
            heads: 1,
            slots: 16,
            sub_dim: 4,
            sites: vec![1],
            conv_taps: 4,
            conv_dilation: 3,
            seed_heads: 0,
        },
    }
}

/// A full-size geometry, so the byte counts below are the ones a real session
/// pays.
fn shipped() -> V3Config {
    V3Config {
        vocab_size: 8192,
        out_vocab: 8192,
        d_model: 768,
        num_heads: 12,
        num_kv_heads: 2,
        num_layers: 20,
        qk_head_dim: 48,
        v_head_dim: 64,
        max_seq_len: 8192,
        hada_n: 1024,
        mhc_lanes: 4,
        rope_theta: 100_000.0f32.to_bits(),
        sliding_window: 1024,
        global_layers: vec![4, 9, 14, 19],
        qkv_conv_taps: 3,
        engram: V3Engram {
            orders: vec![2, 3],
            heads: 3,
            slots: 18432,
            sub_dim: 128,
            sites: vec![3, 7, 11, 15, 19],
            conv_taps: 4,
            conv_dilation: 3,
            seed_heads: 0,
        },
    }
}

fn fresh(c: &V3Config, hint: usize) -> V3Cache<f32> {
    V3Cache::new(c, hint, 0.0, 1.0)
}

/// One head's codes and scale: the largest magnitude becomes 127.
fn quantised(x: &[f32]) -> (Vec<i8>, f32) {
    let top = x.iter().fold(0.0f32, |m, v| if v.abs() > m { v.abs() } else { m });
    let scale = if top > 0.0 { top / 127.0 } else { 1.0 };
    (x.iter().map(|v| (v / scale).round() as i8).collect(), scale)
}

#[test]
fn an_int8_ring_wraps_and_grows_like_the_f32_one() {
    let c = cfg();
    let mut cache: V3Cache<f32> = V3Cache::with_precision(&c, 2, KvPrecision::Int8, 0.0, 1.0);
    let heads = c.num_kv_heads;

    // Distinct magnitudes per position, so every slot gets its own scale and
    // a misindexed one is visible.
    for pos in 0..10usize {
        let m = (pos + 1) as f32;
        let k: Vec<f32> = (0..c.k_dim()).map(|i| m * (i as f32 + 1.0)).collect();
        let v: Vec<f32> = (0..c.v_dim()).map(|i| -m * (i as f32 + 1.0)).collect();
        let (kq, ks) = quantised(&k);
        let (vq, vs) = quantised(&v);
        cache.write_kv_int8(0, pos, &kq, &[ks], &vq, &[vs]);
    }
    assert_eq!(cache.slots(0), 4, "local layer is capped at its window");

    let KvStore::Int8 {
        k,
        k_scale,
        v_scale,
        ..
    } = cache.kv(0)
    else {
        panic!("an int8 cache must hand out an int8 store");
    };
    assert_eq!(k.len(), 4 * c.k_dim());
    assert_eq!(k_scale.len(), 4 * heads);
    assert_eq!(v_scale.len(), 4 * heads);

    // Position 9 landed in slot 9 % 4 == 1, and its scale is the largest
    // magnitude written there. Reading it back through the stored integers
    // must reproduce the quantised input rather than a neighbour's.
    let slot = 9 % 4;
    let want: Vec<f32> = {
        let m = 10.0f32;
        let x: Vec<f32> = (0..c.k_dim()).map(|i| m * (i as f32 + 1.0)).collect();
        x.chunks(c.qk_head_dim)
            .flat_map(|ch| {
                let (codes, scale) = quantised(ch);
                codes.into_iter().map(move |q| q as f32 * scale)
            })
            .collect()
    };
    for h in 0..heads {
        let sc = k_scale[slot * heads + h];
        for i in 0..c.qk_head_dim {
            let idx = slot * c.k_dim() + h * c.qk_head_dim + i;
            let got = k[idx] as f32 * sc;
            let expect = want[h * c.qk_head_dim + i];
            assert!(
                (got - expect).abs() <= 1e-4 * expect.abs().max(1.0),
                "slot {slot} head {h} element {i}: {got} against {expect}"
            );
        }
    }
}

#[test]
fn layers_grow_to_their_cap_and_no_further() {
    let c = cfg();
    let mut cache = fresh(&c, 2);
    assert_eq!(
        cache.slots(0),
        2,
        "local layer starts at the hint, not its window"
    );
    assert_eq!(cache.slots(3), 2, "global layer starts at the hint");

    let k = vec![1.0f32; c.k_dim()];
    let v = vec![1.0f32; c.v_dim()];

    // Layer 0 is local with a window of 4: it grows to 4 and then wraps.
    cache.write_kv(0, 3, &k, &v);
    assert_eq!(cache.slots(0), 4);
    cache.write_kv(0, 99, &k, &v);
    assert_eq!(
        cache.slots(0),
        4,
        "a local layer must never exceed its window"
    );

    // Layer 3 is global: it keeps growing.
    cache.write_kv(3, 9, &k, &v);
    assert!(cache.slots(3) >= 10, "global layer should have grown");
}

#[test]
fn a_global_layer_never_asks_for_more_than_it_stores() {
    // Past max_seq_len the ring wraps, and an unclamped span would make a
    // position read itself as its own past.
    let mut c = shipped();
    c.max_seq_len = 8;
    c.sliding_window = 4;
    c.num_layers = 2;
    c.global_layers = vec![1];
    let mut cache = fresh(&c, 8);
    let k = vec![0.0f32; c.k_dim()];
    let v = vec![0.0f32; c.v_dim()];

    for pos in 0..12 {
        cache.write_kv(1, pos, &k, &v);
        let (lo, hi) = cache.span(1, pos);
        let slots = cache.slots(1);
        assert!(
            hi - lo < slots,
            "span {lo}..={hi} exceeds {slots} slots at position {pos}"
        );
    }
    // And the caller can see that history was lost.
    for _ in 0..12 {
        cache.advance();
    }
    assert!(
        cache.is_saturated(),
        "running past the context must be visible"
    );
}

#[test]
fn a_short_session_pays_for_what_it_uses() {
    let c = shipped();
    let k = vec![0.0f32; c.k_dim()];
    let v = vec![0.0f32; c.v_dim()];

    let mut short = fresh(&c, 512);
    for li in 0..c.num_layers {
        short.write_kv(li, 511, &k, &v);
    }
    let short_mb = short.bytes() as f64 / 1024.0 / 1024.0;

    // Reserving every window and the full context instead, which is what a
    // fixed allocation would cost.
    let reserved = (16 * 1024 + 4 * 8192) * (c.k_dim() + c.v_dim()) * 4;
    let reserved_mb = reserved as f64 / 1024.0 / 1024.0;

    assert!(
        short_mb < reserved_mb / 4.0,
        "a 512-token session should cost far less than reserving the windows: \
         {short_mb:.1} MB vs {reserved_mb:.1} MB"
    );
    // 8.75 MB at f32: 20 layers x 512 slots x (96 + 128) x 4 bytes.
    assert!(
        short_mb < 9.5,
        "expected under 9.5 MB at f32, got {short_mb:.1} MB"
    );
    assert!(
        short_mb > 8.0,
        "unexpectedly small — has the KV representation changed? {short_mb:.1} MB"
    );
}

#[test]
fn a_long_session_caps_the_local_layers() {
    let c = shipped();
    let k = vec![0.0f32; c.k_dim()];
    let v = vec![0.0f32; c.v_dim()];
    let mut cache = fresh(&c, 64);
    for li in 0..c.num_layers {
        cache.write_kv(li, 4095, &k, &v);
    }
    for li in 0..c.num_layers {
        if c.is_global(li) {
            assert!(
                cache.slots(li) >= 4096,
                "global layer {li} must hold all of it"
            );
        } else {
            assert_eq!(cache.slots(li), 1024, "local layer {li} caps at its window");
        }
    }
}

#[test]
fn spans_bound_local_layers_only() {
    let c = cfg();
    let mut cache = fresh(&c, 8);
    let k = vec![0.0f32; c.k_dim()];
    let v = vec![0.0f32; c.v_dim()];
    // Written before queried, as decoding does: a global layer's ring grows on
    // write, and the span is clamped to what it holds.
    for pos in 0..=10 {
        cache.write_kv(0, pos, &k, &v);
        cache.write_kv(3, pos, &k, &v);
    }
    // Layer 0 is local with a window of 4.
    assert_eq!(cache.span(0, 2), (0, 2));
    assert_eq!(cache.span(0, 10), (7, 10));
    // Layer 3 is global: it kept everything, so it sees everything.
    assert_eq!(cache.span(3, 10), (0, 10));
}

/// The convolution of one position over the retained tail.
fn conv_step(cache: &mut V3Cache<f32>, n_taps: usize, taps: &[f32], cur: &mut [f32]) {
    let dim = cur.len();
    let reads = conv_reads(n_taps, cache.pos());
    let mut out = vec![0.0f32; dim];
    {
        let tail = cache.conv_tail(0, Qkv::Q);
        for c in 0..dim {
            let mut acc = taps[c] * cur[c];
            for &(j, row) in &reads {
                acc += taps[j * dim + c] * tail[row * dim + c];
            }
            out[c] = acc;
        }
    }
    cache.roll_conv(0, Qkv::Q, cur);
    cur.copy_from_slice(&out);
}

#[test]
fn conv_step_matches_the_sequence_conv() {
    let c = cfg();
    let dim = c.q_dim();
    let taps: Vec<f32> = (0..3 * dim).map(|i| (i as f32 * 0.37).sin()).collect();

    // The whole sequence at once.
    let seq = 6;
    let raw: Vec<f32> = (0..seq * dim).map(|i| (i as f32 * 0.11).cos()).collect();
    let mut want = vec![0.0f32; seq * dim];
    for t in 0..seq {
        for i in 0..dim {
            for j in 0..3 {
                if j <= t {
                    want[t * dim + i] += taps[j * dim + i] * raw[(t - j) * dim + i];
                }
            }
        }
    }

    // Step form, one position at a time.
    let mut cache = fresh(&c, seq);
    for t in 0..seq {
        let mut cur = raw[t * dim..(t + 1) * dim].to_vec();
        conv_step(&mut cache, 3, &taps, &mut cur);
        for (i, &g) in cur.iter().enumerate() {
            let e = want[t * dim + i];
            assert!(
                (g - e).abs() < 1e-5,
                "position {t} dim {i}: step {g} vs sequence {e}"
            );
        }
        cache.advance();
    }
}

#[test]
fn engram_conv_step_matches_the_sequence_conv() {
    let c = cfg();
    let d = c.d_model;
    let (n_taps, dilation, max_order) = (4usize, 3usize, 3usize);
    let taps: Vec<f32> = (0..4 * d).map(|i| (i as f32 * 0.23).cos()).collect();
    let seq = 12;
    let raw: Vec<f32> = (0..seq * d).map(|i| (i as f32 * 0.19).sin()).collect();
    let mut want = vec![0.0f32; seq * d];
    for p in 0..seq {
        for i in 0..d {
            for j in 0..n_taps {
                let back = j * dilation;
                if back > p || p < j * max_order {
                    continue;
                }
                want[p * d + i] += taps[j * d + i] * raw[(p - back) * d + i];
            }
        }
    }

    let mut cache = fresh(&c, seq);
    for t in 0..seq {
        let cur = raw[t * d..(t + 1) * d].to_vec();
        let reads = engram_reads(n_taps, dilation, max_order, t);
        let tail = cache.engram_values(0).to_vec();
        for i in 0..d {
            let mut g = taps[i] * cur[i];
            for &(j, row) in &reads {
                g += taps[j * d + i] * tail[row * d + i];
            }
            let e = want[t * d + i];
            assert!(
                (g - e).abs() < 1e-5,
                "position {t} dim {i}: step {g} vs sequence {e}"
            );
        }
        cache.roll_engram(0, &cur);
        cache.advance();
    }
}

#[test]
fn a_ring_remembers_the_positions_of_its_window() {
    let c = cfg();
    let mut cache = fresh(&c, 2);
    for pos in 0..9usize {
        let k: Vec<f32> = vec![pos as f32; c.k_dim()];
        let v: Vec<f32> = vec![-(pos as f32); c.v_dim()];
        cache.write_kv(0, pos, &k, &v);
        cache.write_kv(3, pos, &k, &v);
    }
    for li in [0usize, 3] {
        let (lo, hi) = cache.span(li, 8);
        let slots = cache.slots(li);
        let KvStore::F32 { k, v } = cache.kv(li) else {
            panic!("written as f32");
        };
        for p in lo..=hi {
            let row = p % slots;
            assert_eq!(k[row * c.k_dim()], p as f32);
            assert_eq!(v[row * c.v_dim()], -(p as f32));
        }
    }
}

#[test]
fn stepping_and_seeding_leave_the_same_history() {
    let c = cfg();
    let tokens = [4u32, 8, 15, 16, 23, 42];
    let mut stepped = fresh(&c, 8);
    for &t in &tokens {
        stepped.push_token(t);
    }
    let mut seeded = fresh(&c, 8);
    seeded.seed_tokens(&tokens);
    assert_eq!(stepped.token_history(), &[16, 23, 42]);
    assert_eq!(seeded.token_history(), stepped.token_history());
    seeded.set_pos(6);
    assert_eq!(seeded.pos(), 6);
    assert_eq!(seeded.len(), 6);
    assert!(!seeded.is_empty());
    assert!(stepped.is_empty());
    assert_eq!(stepped.precision(), KvPrecision::F32);
}

#[test]
fn a_cache_is_charged_for_rings_and_tails() {
    let c = shipped();
    let wide: V3Cache<f32> = V3Cache::with_precision(&c, 512, KvPrecision::F32, 0.0, 1.0);
    let narrow: V3Cache<f32> = V3Cache::with_precision(&c, 512, KvPrecision::Int8, 0.0, 1.0);
    // Two rows of every projection per layer, nine rows of the model per site.
    let tails = 20 * 2 * (576 + 96 + 128) * 4 + 5 * 9 * 768 * 4;
    assert_eq!(wide.bytes(), 20 * 512 * 224 * 4 + tails);
    assert_eq!(narrow.bytes(), 20 * 512 * (224 + 2 * 8) + tails);
    assert_eq!(c.kv_bytes_at(512, KvPrecision::F32), 20 * 512 * 224 * 4);
    assert_eq!(c.kv_bytes_at(512, KvPrecision::Int8), 20 * 512 * (224 + 2 * 8));
    assert!(c.kv_bytes_at(512, KvPrecision::F32) <= wide.bytes());
}

#[test]
fn seeded_tails_are_what_rolling_leaves() {
    let c = cfg();
    let dim = c.q_dim();
    let raw: Vec<f32> = (0..5 * dim).map(|i| i as f32).collect();
    let mut rolled = fresh(&c, 8);
    for t in 0..5 {
        rolled.roll_conv(0, Qkv::Q, &raw[t * dim..(t + 1) * dim]);
    }
    let mut seeded = fresh(&c, 8);
    seeded.seed_conv_tail(0, Qkv::Q, &raw[3 * dim..]);
    assert_eq!(rolled.conv_tail(0, Qkv::Q), seeded.conv_tail(0, Qkv::Q));
    assert_eq!(rolled.conv_tail(1, Qkv::Q), &vec![0.0; 2 * dim][..]);

    let d = c.d_model;
    let raw: Vec<f32> = (0..12 * d).map(|i| i as f32).collect();
    let mut rolled = fresh(&c, 8);
    for t in 0..12 {
        rolled.roll_engram(0, &raw[t * d..(t + 1) * d]);
    }
    let mut seeded = fresh(&c, 8);
    seeded.seed_engram_tail(0, &raw[3 * d..]);
    assert_eq!(rolled.engram_values(0), seeded.engram_values(0));
}

#[test]
fn filling_from_a_prompt_leaves_what_stepping_leaves() {
    let c = cfg();
    let seq = 9usize;
    let (qd, kd, vd, d) = (c.q_dim(), c.k_dim(), c.v_dim(), c.d_model);
    let numbers = |n: usize, from: f32| -> Vec<f32> { (0..n).map(|i| from + i as f32).collect() };
    let (q, k, v) = (numbers(seq * qd, 0.5), numbers(seq * kd, 100.0), numbers(seq * vd, 900.0));
    let e = numbers(seq * d, 7000.0);
    let tokens: Vec<u32> = (0..seq as u32).map(|t| t * 3).collect();

    let mut stepped = fresh(&c, 2);
    for t in 0..seq {
        stepped.push_token(tokens[t]);
        stepped.roll_engram(0, &e[t * d..(t + 1) * d]);
        for li in 0..c.num_layers {
            stepped.roll_conv(li, Qkv::Q, &q[t * qd..(t + 1) * qd]);
            stepped.roll_conv(li, Qkv::K, &k[t * kd..(t + 1) * kd]);
            stepped.roll_conv(li, Qkv::V, &v[t * vd..(t + 1) * vd]);
            stepped.write_kv(li, t, &k[t * kd..(t + 1) * kd], &v[t * vd..(t + 1) * vd]);
        }
        stepped.advance();
    }

    let mut filled = fresh(&c, 2);
    for li in 0..c.num_layers {
        filled.fill_conv_tails(li, seq, &q, &k, &v);
        filled.fill_kv(li, seq, &k, &v);
    }
    filled.finish_fill(&tokens, &e);

    assert_eq!(filled.pos(), stepped.pos());
    assert_eq!(filled.token_history(), stepped.token_history());
    assert_eq!(filled.engram_values(0), stepped.engram_values(0));
    for li in 0..c.num_layers {
        assert_eq!(filled.slots(li), stepped.slots(li));
        for which in [Qkv::Q, Qkv::K, Qkv::V] {
            assert_eq!(filled.conv_tail(li, which), stepped.conv_tail(li, which));
        }
        match (filled.kv(li), stepped.kv(li)) {
            (KvStore::F32 { k: a, v: b }, KvStore::F32 { k: x, v: y }) => {
                assert_eq!(a, x);
                assert_eq!(b, y);
            }
            _ => panic!("both are full width"),
        }
    }
    assert_eq!(filled.config().num_layers, 4);
}

#[test]
fn a_prompt_shorter_than_the_tails_is_padded() {
    let c = cfg();
    let mut filled = fresh(&c, 2);
    let (qd, kd, vd, d) = (c.q_dim(), c.k_dim(), c.v_dim(), c.d_model);
    filled.fill_conv_tails(2, 1, &vec![1.0; qd], &vec![2.0; kd], &vec![3.0; vd]);
    let mut want = vec![0.0; qd];
    want.extend(vec![1.0; qd]);
    assert_eq!(filled.conv_tail(2, Qkv::Q), &want[..]);
    filled.finish_fill(&[5], &vec![4.0; d]);
    let mut want = vec![0.0; 8 * d];
    want.extend(vec![4.0; d]);
    assert_eq!(filled.engram_values(0), &want[..]);
    assert_eq!(filled.token_history(), &[5]);
}

#[test]
fn an_int8_prompt_keeps_its_scales() {
    let c = cfg();
    let mut filled: V3Cache<f32> = V3Cache::with_precision(&c, 2, KvPrecision::Int8, 0.0, 1.0);
    let (kd, vd) = (c.k_dim(), c.v_dim());
    let seq = 6usize;
    let k: Vec<i8> = (0..seq * kd).map(|i| i as i8).collect();
    let v: Vec<i8> = (0..seq * vd).map(|i| -(i as i8)).collect();
    let ks: Vec<f32> = (0..seq).map(|i| i as f32).collect();
    let vs: Vec<f32> = (0..seq).map(|i| 10.0 + i as f32).collect();
    filled.fill_kv_int8(0, seq, &k, &ks, &v, &vs);
    let KvStore::Int8 { k: got, v: got_v, k_scale, v_scale } = filled.kv(0) else {
        panic!("an int8 cache must hand out an int8 store");
    };
    // A window of four: positions 2 to 5 at slots 2, 3, 0, 1.
    assert_eq!(k_scale, &[4.0, 5.0, 2.0, 3.0]);
    assert_eq!(v_scale, &[14.0, 15.0, 12.0, 13.0]);
    for (slot, pos) in [(0, 4), (1, 5), (2, 2), (3, 3)] {
        assert_eq!(&got[slot * kd..(slot + 1) * kd], &k[pos * kd..(pos + 1) * kd]);
        assert_eq!(&got_v[slot * vd..(slot + 1) * vd], &v[pos * vd..(pos + 1) * vd]);
    }
}

#[test]
fn a_session_is_budgeted_before_it_opens() {
    let c = shipped();
    assert_eq!(c.kv_bytes_at(512, KvPrecision::F32), 9_175_040);
    assert_eq!(c.kv_bytes_at(512, KvPrecision::Int8), 2_457_600);
    assert_eq!(c.kv_bytes_at(8192, KvPrecision::F32), 44_040_192);
    assert_eq!(c.kv_bytes_at(8192, KvPrecision::Int8), 11_796_480);
    assert_eq!(c.kv_bytes_checked(512, KvPrecision::F32), Some(9_175_040));
    assert_eq!(c.kv_bytes_checked(8192, KvPrecision::Int8), Some(11_796_480));
    assert_eq!(c.kv_bytes_checked(0, KvPrecision::Int8), Some(0));
    assert_eq!(c.kv_bytes_checked(usize::MAX, KvPrecision::F32), None);
}

#[test]
fn oversized_geometries_are_told_apart() {
    let mut c = cfg();
    assert!(is_cacheable(&c));
    c.max_seq_len = 0;
    assert!(!is_cacheable(&c));
    c.max_seq_len = usize::MAX;
    assert!(!is_cacheable(&c));
    let mut e = cfg().engram;
    assert!(is_fetchable(&e));
    e.slots = 0;
    assert!(!is_fetchable(&e));
    e.slots = 16;
    e.heads = usize::MAX;
    assert!(!is_fetchable(&e));
}

#[test]
fn query_heads_share_key_heads_in_groups() {
    let d = AttnDims { seq: 1, num_heads: 6, num_kv_heads: 2, qk_head_dim: 4, v_head_dim: 4 };
    assert!(d.is_grouped());
    let heads: Vec<usize> = (0..6).map(|h| d.kv_head(h)).collect();
    assert_eq!(heads, vec![0, 0, 0, 1, 1, 1]);
    assert_eq!(d.cell(3, 5), 7);
    assert_eq!(d.cell(0, 2), 0);
    assert!(!AttnDims { num_heads: 5, ..d }.is_grouped());
    assert!(!AttnDims { num_kv_heads: 0, ..d }.is_grouped());
}

#[test]
fn a_window_names_the_slots_it_reads() {
    let ring = Ring { kv: KvStore::F32 { k: &[0u8], v: &[0u8] }, slots: 4, lo: 6, hi: 9 };
    assert_eq!(ring.rows(), vec![2, 3, 0, 1]);

    let c = cfg();
    let mut cache: V3Cache<f32> = V3Cache::new(&c, 64, 0.0, 1.0);
    for pos in 0..6 {
        let k = vec![pos as f32; c.k_dim()];
        cache.write_kv(0, pos, &k, &vec![0.5; c.v_dim()]);
        cache.advance();
    }
    let window = cache.window(0, 5);
    assert_eq!((window.lo, window.hi, window.slots), (2, 5, 4));
    let read: Vec<f32> = match window.kv {
        KvStore::F32 { k, .. } => window.rows().iter().map(|&r| k[r * c.k_dim()]).collect(),
        KvStore::Int8 { .. } => vec![],
    };
    assert_eq!(read, vec![2.0, 3.0, 4.0, 5.0]);
}

#[test]
fn taps_read_a_sequence_and_a_tail_alike() {
    assert_eq!(conv_sources(3, 0), vec![(0, 0)]);
    assert_eq!(conv_sources(3, 5), vec![(0, 5), (1, 4), (2, 3)]);
    assert_eq!(conv_sources(0, 5), vec![]);
    // Tap 2 reaches six back, and waits for position six.
    assert_eq!(engram_sources(4, 3, 3, 5), vec![(0, 5), (1, 2)]);
    assert_eq!(engram_sources(4, 3, 3, 9), vec![(0, 9), (1, 6), (2, 3), (3, 0)]);
    // A larger order gates a tap that would reach.
    assert_eq!(engram_sources(3, 1, 4, 6), vec![(0, 6), (1, 5)]);
    for pos in 0..12 {
        let tail_start = |reach: usize| pos as isize - reach as isize;
        let stepped: Vec<(usize, usize)> = conv_reads(3, pos)
            .iter()
            .map(|&(j, r)| (j, (tail_start(2) + r as isize) as usize))
            .collect();
        assert_eq!(stepped, conv_sources(3, pos)[1..].to_vec(), "position {pos}");
        let stepped: Vec<(usize, usize)> = engram_reads(4, 3, 3, pos)
            .iter()
            .map(|&(j, r)| (j, (tail_start(9) + r as isize) as usize))
            .collect();
        assert_eq!(stepped, engram_sources(4, 3, 3, pos)[1..].to_vec(), "position {pos}");
    }
}

#[test]
fn a_sequence_fetches_what_a_session_fetches() {
    let e = cfg().engram;
    let tokens = [4u32, 8, 15, 16, 23, 42];
    for p in 0..tokens.len() {
        let history = &tokens[(p + 1).saturating_sub(3)..p + 1];
        assert_eq!(sequence_rows(&e, &tokens, p), fetch_rows(&e, history, p), "position {p}");
    }
    assert_eq!(sequence_rows(&e, &tokens, 0), vec![None, None]);
    assert!(sequence_rows(&e, &tokens, 1)[0].is_some());
    assert!(sequence_rows(&e, &tokens, 1)[1].is_none());
}
