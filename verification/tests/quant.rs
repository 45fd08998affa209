//! Packed weights.

use needle::quant::{pack_codes, pack_pair, sign_extend4, GroupLayout, QuantizedWeight};

#[test]
fn test_sign_extend() {
    assert_eq!(sign_extend4(0x7), 7);
    assert_eq!(sign_extend4(0x8), -8);
    assert_eq!(sign_extend4(0xF), -1);
    assert_eq!(sign_extend4(0x0), 0);
}

#[test]
fn bits_above_a_nibble_are_kept_without_a_sign() {
    assert_eq!(sign_extend4(0x73), 0x73);
    assert_eq!(sign_extend4(0x83), -125);
    assert_eq!(sign_extend4(0x7F), -1);
}

#[test]
fn a_pair_shares_a_byte() {
    assert_eq!(pack_pair(7, -8), 0x87);
    assert_eq!(pack_pair(-1, 1), 0x1F);
    assert_eq!(pack_pair(0, 0), 0);
}

#[test]
fn groups_and_padding() {
    let l = GroupLayout::of(64);
    assert_eq!((l.group_rows, l.padded, l.groups, l.pairs), (32, 64, 2, 32));
    let l = GroupLayout::of(33);
    assert_eq!((l.group_rows, l.padded, l.groups, l.pairs), (32, 64, 2, 32));
    let l = GroupLayout::of(6);
    assert_eq!((l.group_rows, l.padded, l.groups, l.pairs), (6, 6, 1, 3));
    let l = GroupLayout::of(5);
    assert_eq!((l.group_rows, l.padded, l.groups, l.pairs), (5, 5, 1, 2));
}

#[test]
fn a_packed_matrix_reads_back_its_codes() {
    let (rows, cols) = (64usize, 3usize);
    let codes: Vec<i8> = (0..rows * cols).map(|i| (i % 16) as i8 - 8).collect();
    let scales: Vec<f32> = vec![0.5, 1.0, 2.0, 4.0, 8.0, 16.0];
    let w = QuantizedWeight::from_codes(&codes, scales, rows, cols);
    assert_eq!(w.num_groups, 2);
    for r in 0..rows {
        for o in 0..cols {
            assert_eq!(w.code_at(r, o), codes[r * cols + o]);
            assert_eq!(w.scale_at(r, o), w.scales[(r / 32) * cols + o]);
        }
    }
}

#[test]
fn padding_rows_hold_zero() {
    let codes = vec![-3i8; 33];
    let data = pack_codes(&codes, 33, 1);
    assert_eq!(data.len(), 32);
    assert_eq!(data[15], 0xDD);
    assert_eq!(data[16], 0x0D);
    assert_eq!(data[17], 0);
}

#[test]
fn packed_buffers_that_lack_codes_are_refused() {
    assert!(QuantizedWeight::from_packed(vec![0u8; 3], vec![1.0f32; 2], 4, 2).is_none());
    assert!(QuantizedWeight::from_packed(vec![0u8; 4], vec![1.0f32; 1], 4, 2).is_none());
    assert!(QuantizedWeight::<f32>::from_packed(Vec::new(), Vec::new(), 4, 0).is_none());
    let w = QuantizedWeight::from_packed(vec![0xF1u8; 4], vec![1.0f32; 2], 4, 2).unwrap();
    assert_eq!(w.code_at(0, 0), 1);
    assert_eq!(w.code_at(1, 0), -1);
}

#[test]
fn groups_cover_the_rows() {
    let l = GroupLayout::of(40);
    assert_eq!((l.group_rows, l.padded, l.groups, l.pairs), (32, 64, 2, 32));
    assert_eq!(l.rows_of(40, 0), (0, 32));
    assert_eq!(l.rows_of(40, 1), (32, 40));
    assert_eq!([0, 31, 32, 39].map(|r| l.group_of(r)), [0, 0, 1, 1]);
    let l = GroupLayout::of(5);
    assert_eq!(l.rows_of(5, 0), (0, 5));
    assert_eq!(l.group_of(3), 0);
}

#[test]
fn an_odd_last_row_of_a_single_group_is_not_stored() {
    let w = QuantizedWeight::from_codes(&[1, 2, 3, 4, 5], vec![1u8], 5, 1);
    assert_eq!(w.used_rows(), 4);
    let w = QuantizedWeight::from_codes(&[1i8; 33], vec![1u8, 2], 33, 1);
    assert_eq!(w.used_rows(), 33);
    assert_eq!((w.scale_at(31, 0), w.scale_at(32, 0)), (1, 2));
}

#[test]
fn the_scales_say_how_many_groups_are_stored() {
    // One group of two: rows past it are not stored.
    let short = QuantizedWeight::from_packed(vec![0x21u8; 16], vec![1.0f32], 40, 1).unwrap();
    assert_eq!((short.num_groups, short.pairs(), short.used_rows()), (1, 16, 32));
    assert_eq!((short.code_at(30, 0), short.code_at(31, 0)), (1, 2));
    // A group too many, and codes that no group asks for.
    let long = QuantizedWeight::from_packed(vec![0x21u8; 50], vec![1.0f32, 2.0, 3.0], 40, 1).unwrap();
    assert_eq!((long.num_groups, long.pairs(), long.used_rows()), (3, 48, 40));
    assert_eq!(long.scale_at(64, 0), 3.0);
    // No scales, no rows.
    let none = QuantizedWeight::<f32>::from_packed(Vec::new(), Vec::new(), 0, 2).unwrap();
    assert_eq!((none.pairs(), none.used_rows()), (0, 0));
}
