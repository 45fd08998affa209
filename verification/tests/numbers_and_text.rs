//! Bit patterns, bytes and characters.

use needle::bytes::{read_u16, read_u32, read_u64};
use needle::floats::{
    argmax, argmax_total, bf16_to_f32, f16_to_f32, i8_to_f32, rank_descending, to_u32,
};
use needle::text::{
    chars_of, find_from, is_alphanumeric, is_lowercase, is_uppercase, parse_usize, push_decimal,
    split_lines, text_of, trim,
};
use needle::v3::heads::{head_dims, take_head, ProbeHead, V3HeadIdx};
use needle::v3::container::Record;
use needle::v3::attention::{ring_slots, window_start};
use needle::v3::slice::V3LoadError;

fn bits(values: &[f32]) -> Vec<u32> {
    values.iter().map(|v| v.to_bits()).collect()
}

#[test]
fn half_precision_widens_exactly() {
    for (half, value) in [
        (0x0000u16, 0.0f32),
        (0x3C00, 1.0),
        (0xC000, -2.0),
        (0x7BFF, 65504.0),
        (0x0001, 5.9604645e-8),
        (0x03FF, 6.097555e-5),
        (0x7C00, f32::INFINITY),
        (0xFC00, f32::NEG_INFINITY),
    ] {
        assert_eq!(f32::from_bits(f16_to_f32(half)), value, "{half:#x}");
    }
    assert_eq!(f16_to_f32(0x8000), 0x8000_0000);
    assert!(f32::from_bits(f16_to_f32(0x7E00)).is_nan());
}

#[test]
fn whole_numbers_widen_exactly() {
    for n in i8::MIN..=i8::MAX {
        assert_eq!(f32::from_bits(i8_to_f32(n)), n as f32);
    }
    assert_eq!(bf16_to_f32(0x4049), 0x4049_0000);
}

#[test]
fn the_whole_part_is_what_a_cast_gives() {
    for v in [
        0.0f32, -0.0, 0.5, 0.999, 1.0, 1.5, 8191.75, 16777216.0, 4294967040.0, 4294967296.0, 1e30,
        -1.0, -7.5, f32::INFINITY, f32::NEG_INFINITY, f32::NAN, 1e-40,
    ] {
        assert_eq!(to_u32(v.to_bits()), v as u32, "{v}");
    }
}

#[test]
fn a_search_passes_over_what_is_no_number() {
    assert_eq!(argmax(&bits(&[f32::NAN, 1.0, 3.0, 3.0])), 2);
    assert_eq!(argmax(&bits(&[f32::NAN, f32::NEG_INFINITY])), 0);
    assert_eq!(argmax(&bits(&[-0.0, 0.0])), 0);
    assert_eq!(argmax(&[]), 0);
    assert_eq!(argmax_total(&bits(&[1.0, 3.0, 3.0, 2.0])), Some(2));
    assert_eq!(argmax_total(&bits(&[-0.0, 0.0])), Some(1));
    assert_eq!(argmax_total(&bits(&[f32::INFINITY, f32::NAN])), Some(1));
    assert_eq!(argmax_total(&[]), None);
}

#[test]
fn ranking_is_highest_first_and_stable() {
    assert_eq!(rank_descending(&bits(&[0.5, 0.9, 0.5, -1.0]), 10), vec![1, 0, 2, 3]);
    assert_eq!(rank_descending(&bits(&[0.5, 0.9, 0.5, -1.0]), 2), vec![1, 0]);
    assert_eq!(rank_descending(&[], 3), Vec::<usize>::new());
}

#[test]
fn numbers_are_little_endian() {
    let b = [0x01u8, 0x02, 0x03, 0x04, 0x05, 0x06, 0x07, 0x88];
    assert_eq!(read_u16(&b, 1), 0x0302);
    assert_eq!(read_u32(&b, 0), 0x0403_0201);
    assert_eq!(read_u64(&b, 0), u64::from_le_bytes(b));
}

#[test]
fn numbers_in_text() {
    let parse = |s: &str| parse_usize(&chars_of(s));
    assert_eq!(parse("0"), Some(0));
    assert_eq!(parse("+8192"), Some(8192));
    assert_eq!(parse("007"), Some(7));
    assert_eq!(parse("18446744073709551615"), Some(usize::MAX));
    assert_eq!(parse("18446744073709551616"), None);
    for s in ["", "+", "-1", " 1", "1x", "１"] {
        assert_eq!(parse(s), None, "{s:?}");
    }
    let mut out = Vec::new();
    push_decimal(&mut out, 90210);
    push_decimal(&mut out, 0);
    assert_eq!(text_of(&out), "902100");
}

#[test]
fn white_space_of_any_script_is_trimmed() {
    assert_eq!(text_of(&trim(&chars_of("\u{3000}\t a b\u{a0}\n"))), "a b");
    assert_eq!(text_of(&trim(&chars_of(" \u{2003}"))), "");
    assert_eq!(text_of(&trim(&chars_of("\u{200b}a"))), "\u{200b}a");
}

#[test]
fn lines_end_with_either_mark() {
    let lines = |s: &str| -> Vec<String> {
        split_lines(&chars_of(s)).iter().map(|l| text_of(l)).collect()
    };
    for s in ["", "a", "a\n", "a\r\nb\n", "\n\n", "a\rb", "a\r", "a\r\r\n"] {
        let want: Vec<String> = s.lines().map(|l| l.to_string()).collect();
        assert_eq!(lines(s), want, "{s:?}");
    }
}

#[test]
fn characters_are_classed_by_unicode() {
    for c in ['a', 'Z', '0', 'é', 'Ω', 'ß', '天', '²', '_', '-', ' ', '€', 'ǅ', '\u{345}'] {
        assert_eq!(is_alphanumeric(c), c.is_alphanumeric(), "{c}");
        assert_eq!(is_uppercase(c), c.is_uppercase(), "{c}");
        assert_eq!(is_lowercase(c), c.is_lowercase(), "{c}");
    }
}

#[test]
fn the_first_place_is_found() {
    let find = |s: &str, from: usize, pat: &str| find_from(&chars_of(s), from, &chars_of(pat));
    assert_eq!(find("abcabc", 0, "bc"), Some(1));
    assert_eq!(find("abcabc", 2, "bc"), Some(4));
    assert_eq!(find("abcabc", 5, "bc"), None);
    assert_eq!(find("abc", 3, ""), Some(3));
}

#[test]
fn a_window_ends_at_the_query() {
    assert_eq!(window_start(9, Some(4)), 6);
    assert_eq!(window_start(2, Some(4)), 0);
    assert_eq!(window_start(9, None), 0);
    assert_eq!(ring_slots(6, 9, 4), vec![2, 3, 0, 1]);
}

fn record(rows: usize) -> Record {
    Record {
        dtype: 1,
        ndim: 2,
        shape: [rows, 4, 0, 0],
        offset: 0,
        nbytes: 0,
        group: 0,
        bits: 0,
    }
}

#[test]
fn heads_claim_their_tensors_in_order() {
    let list: Vec<usize> = (100..120).collect();
    let (h, next) = take_head(&list, 0, 3).unwrap();
    assert_eq!(
        h,
        V3HeadIdx { probes: 100, gain: 101, query: 102, row_bias: 103, proj: 104, bias: 105 }
    );
    assert_eq!(next, 7);
    let (h, next) = take_head(&list, next, 2).unwrap();
    assert_eq!((h.probes, next), (107, 13));
    assert!(matches!(
        take_head(&list, 15, 1),
        Err(V3LoadError::Shape("head tensors ran out"))
    ));
}

#[test]
fn a_heads_sizes_are_read_off_its_records() {
    let h = V3HeadIdx { probes: 0, gain: 0, query: 1, row_bias: 0, proj: 2, bias: 0 };
    let records = [record(6), record(2), record(5)];
    let d = head_dims(&h, &records, 6, 2).unwrap();
    assert_eq!((d.cells, d.probes_per_cell, d.queries, d.out_dim), (3, 2, 2, 5));
    for (gain, layers) in [(6usize, 3usize), (5, 2)] {
        assert!(matches!(
            head_dims(&h, &records, gain, layers),
            Err(V3LoadError::Shape("probe head shapes disagree with num_layers + 1 cells"))
        ));
    }
}

fn head() -> ProbeHead<u32> {
    // Five cells of one probe over a model of width two, two queries.
    ProbeHead {
        probes: (0..10).collect(),
        gain: (0..5).collect(),
        query: vec![7; 4],
        row_bias: (0..10).collect(),
        proj: vec![1; 4],
        bias: vec![9],
        cells: 5,
        probes_per_cell: 1,
        queries: 2,
        out_dim: 1,
    }
}

#[test]
fn a_rung_cuts_a_head_by_its_cells() {
    // Depth two of four keeps blocks 0 and 3: cells 0, 1 and 4.
    assert!(head().is_whole(2));
    assert!(!head().is_whole(3));
    assert!(!head().is_whole(usize::MAX));
    let cut = head().at_depth(4, 2, 2).unwrap();
    assert_eq!(cut.cells, 3);
    assert_eq!(cut.probes, vec![0, 1, 2, 3, 8, 9]);
    assert_eq!(cut.gain, vec![0, 1, 4]);
    assert_eq!(cut.row_bias, vec![0, 1, 4, 5, 6, 9]);
    assert_eq!(cut.query, vec![7; 4]);
    assert_eq!(cut.bias, vec![9]);
    assert_eq!(head().at_depth(4, 2, 4).unwrap().cells, 5);
    assert!(head().at_depth(4, 2, 1).is_err());
}

#[test]
fn masking_leaves_an_allowed_pick_alone() {
    let scores = [0.5f32, 2.0, 7.0, -1.0];
    let masked = [0.5f32, 2.0 - 1e9, 7.0, -1.0 - 1e9];
    let bits = |v: &[f32]| v.iter().map(|x| x.to_bits()).collect::<Vec<u32>>();
    assert_eq!(argmax(&bits(&scores)), 2);
    assert_eq!(argmax(&bits(&masked)), 2);
}
