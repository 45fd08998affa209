//! The vocabulary, encoding and decoding.

use needle::snake::to_snake_case;
use needle::tokenizer::{bytes_of, bytes_of_char, score_texts, Vocabulary, UNK_ID};

/// A vocabulary of `(piece, score)` lines; a piece without a score has none.
fn vocabulary(lines: &[(&str, Option<f32>)]) -> Vocabulary {
    let mut content = String::new();
    let mut read = Vec::new();
    for (piece, score) in lines {
        content.push_str(piece);
        if let Some(s) = score {
            content.push('\t');
            content.push_str(&format!("{s}"));
        }
        content.push('\n');
        read.push(score.unwrap_or(0.0).to_bits());
    }
    Vocabulary::parse(&content, &read)
}

const FIXED: [&str; 6] = ["<pad>", "</s>", "<s>", "<unk>", "<tool_call>", "<tools>"];

fn with_fixed(pieces: &[(&'static str, Option<f32>)]) -> Vocabulary {
    let mut all: Vec<(&str, Option<f32>)> = FIXED.iter().map(|p| (*p, None)).collect();
    all.extend_from_slice(pieces);
    vocabulary(&all)
}

#[test]
fn test_to_snake_case() {
    assert_eq!(to_snake_case("getWeather"), "get_weather");
    assert_eq!(to_snake_case("GetWeather"), "get_weather");
    assert_eq!(to_snake_case("get-weather"), "get_weather");
    assert_eq!(to_snake_case("get.weather"), "get_weather");
    assert_eq!(to_snake_case("HTMLParser"), "html_parser");
    assert_eq!(to_snake_case("already_snake"), "already_snake");
}

#[test]
fn snake_case_reads_letters_of_any_script() {
    // Letters outside ASCII keep their case and part words like any other.
    assert_eq!(to_snake_case("ÄrgerÜber"), "Ärger_Über");
    assert_eq!(to_snake_case("größeMessen"), "größe_messen");
    assert_eq!(to_snake_case("天気 予報"), "天気_予報");
    assert_eq!(to_snake_case("a…b"), "a_b");
}

#[test]
fn snake_case_twice_is_snake_case_once() {
    for name in ["getWeather", "HTTPServer2", "--x--", "", "a__b"] {
        let once = to_snake_case(name);
        assert_eq!(to_snake_case(&once), once);
    }
}

#[test]
fn merging_follows_the_scores_and_not_the_length() {
    let pieces = [
        ("\u{2581}", Some(-9.0)),
        ("a", Some(-9.0)),
        ("b", Some(-9.0)),
        ("c", Some(-9.0)),
        ("bc", Some(-0.5)),
        ("\u{2581}a", Some(-2.0)),
        ("\u{2581}ab", Some(-1.0)),
    ];
    let scored = with_fixed(&pieces);
    // "bc" merges first, so "ab" can no longer form.
    assert_eq!(scored.encode("abc"), vec![11, 10]);
    let plain: Vec<(&'static str, Option<f32>)> = pieces.iter().map(|(p, _)| (*p, None)).collect();
    let greedy = with_fixed(&plain);
    assert_eq!(greedy.encode("abc"), vec![12, 9]);
    assert_eq!(scored.decode_ids(&scored.encode("abc")), "abc");
    assert_eq!(greedy.decode_ids(&greedy.encode("abc")), "abc");
}

#[test]
fn equal_scores_merge_from_the_left() {
    let v = with_fixed(&[
        ("\u{2581}", Some(-9.0)),
        ("a", Some(-9.0)),
        ("aa", Some(-1.0)),
    ]);
    // One boundary, then "aa" and a lone "a".
    assert_eq!(v.encode("aaa"), vec![6, 8, 7]);
}

#[test]
fn unknown_characters_fall_back_to_bytes() {
    let v = with_fixed(&[
        ("\u{2581}", Some(0.0)),
        ("<0xC3>", Some(0.0)),
        ("<0xA9>", Some(0.0)),
    ]);
    assert_eq!(v.encode("é"), vec![6, 7, 8]);
    // A byte without a piece is the unknown token.
    assert_eq!(v.encode("z"), vec![6, UNK_ID]);
    let greedy = with_fixed(&[("\u{2581}", None), ("<0xC3>", None)]);
    assert_eq!(greedy.encode("é"), vec![6, 7, UNK_ID]);
}

#[test]
fn spaces_become_boundaries_and_back() {
    let v = with_fixed(&[
        ("\u{2581}", Some(0.0)),
        ("a", Some(0.0)),
        ("\u{2581}a", Some(1.0)),
    ]);
    let ids = v.encode("  a a\n");
    assert_eq!(ids, vec![8, 8]);
    assert_eq!(v.decode_ids(&ids), "a a");
    assert_eq!(v.piece_text(8), " a");
    assert_eq!(v.piece_text(999), "");
    assert_eq!(v.encode(""), Vec::<u32>::new());
    assert_eq!(v.encode(" \t "), Vec::<u32>::new());
}

#[test]
fn a_vocabulary_file_is_read_line_by_line() {
    let content = "x\t1.5\ny\nx\t -2 \r\nz\t";
    assert_eq!(
        score_texts(content),
        vec![Some("1.5".to_string()), None, Some("-2".to_string()), Some(String::new())]
    );
    let read = [1.5f32.to_bits(), 0, (-2.0f32).to_bits(), 0];
    let v = Vocabulary::parse(content, &read);
    assert_eq!(v.id_to_piece, vec!["x", "y", "x", "z"]);
    // A piece that stands twice has its last id.
    assert_eq!(v.piece_id("x"), Some(2));
    assert_eq!(v.piece_id("y"), Some(1));
    assert_eq!(v.piece_id("w"), None);
}

#[test]
fn token_bytes_are_the_texts_bytes() {
    let v = with_fixed(&[("\u{2581}é", None)]);
    let map = v.token_bytes();
    assert_eq!(map.len(), 7);
    assert_eq!(map[6], (6, vec![0x20, 0xC3, 0xA9]));
    assert_eq!(map[0], (0, b"<pad>".to_vec()));
    assert_eq!(bytes_of(&['h', '€']), vec![0x68, 0xE2, 0x82, 0xAC]);
    assert_eq!(bytes_of_char('𝄞'), vec![0xF0, 0x9D, 0x84, 0x9E]);
}
