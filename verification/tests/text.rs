//! Text, numbers, JSON, and floating-point numbers as bit patterns.

use std::collections::hash_map::DefaultHasher;
use std::hash::{Hash, Hasher};
use std::time::{SystemTime, UNIX_EPOCH};

use semanta::bits::{bytes_to_f32, less, nan, nan_double, ranks_below, ONE_DOUBLE, ONE_SINGLE};
use semanta::document::{
    content_hash, DocumentExtractor, MarkdownExtractor, DEFAULT_CHARS_PER_TOKEN,
    DEFAULT_OVERLAP_RATIO,
};
use semanta::error::Error;
use semanta::ranking::expand::DEFAULT_HOP_DECAY;
use semanta::text::{blank, chars_of, decimal_string, parse_usize, split_list, string_of, white};
use semanta::util::{json_array, json_escape, timestamp_of, unix_timestamp};

#[test]
fn white_space_is_that_of_the_standard_library() {
    for code in 0..=0x10ffffu32 {
        if let Some(c) = char::from_u32(code) {
            assert_eq!(white(c), c.is_whitespace(), "{code:x}");
        }
    }
}

#[test]
fn blank_is_empty_once_trimmed() {
    for s in ["", " ", "\t\n\u{3000}", "a", " a ", "\u{a0}", "\u{200b}"] {
        assert_eq!(blank(s), s.trim().is_empty(), "{s:?}");
    }
}

#[test]
fn characters_and_strings_convert() {
    let chars = chars_of("añ€b");
    assert_eq!(chars, vec!['a', 'ñ', '€', 'b']);
    assert_eq!(string_of(&chars, 1, 3), "ñ€");
    assert_eq!(string_of(&chars, 2, 2), "");
}

#[test]
fn decimals_are_those_of_the_standard_library() {
    for i in [0, 1, 9, 10, 99, 100, 12345, -1, -10, i64::MAX, i64::MIN] {
        assert_eq!(decimal_string(i), i.to_string());
    }
}

#[test]
fn unsigned_numbers_parse_as_in_the_standard_library() {
    for s in [
        "", "+", "-", "0", "007", "16", "+16", "-16", " 16", "16 ", "1_6", "1.0", "١", "++1",
        "18446744073709551615", "18446744073709551616", "99999999999999999999999",
    ] {
        assert_eq!(parse_usize(s), s.parse::<usize>().ok(), "{s:?}");
    }
}

#[test]
fn lists_are_split_trimmed_and_rid_of_empty_items() {
    for s in ["", ",", "a", " a , b ", ",a,,b,", "a b,c", "\u{3000}x\u{3000},\ty"] {
        let want: Vec<String> = s
            .split(',')
            .map(|item| item.trim().to_string())
            .filter(|item| !item.is_empty())
            .collect();
        assert_eq!(split_list(s), want, "{s:?}");
    }
}

#[test]
fn json_strings_are_escaped() {
    assert_eq!(json_escape("plain ñ €"), "plain ñ €");
    assert_eq!(json_escape("say \"hi\""), "say \\\"hi\\\"");
    assert_eq!(json_escape("a\\b"), "a\\\\b");
    assert_eq!(json_escape("a\nb\rc\td"), "a\\nb\\rc\\td");
    assert_eq!(json_escape("\u{0}\u{1f}\u{b}"), "\\u0000\\u001f\\u000b");
    assert_eq!(json_escape(""), "");
}

#[test]
fn json_arrays_are_joined_by_commas() {
    assert_eq!(json_array(&vec![]), "[]");
    assert_eq!(json_array(&vec!["1".to_string()]), "[1]");
    assert_eq!(json_array(&vec!["1".to_string(), "".to_string(), "3".to_string()]), "[1,,3]");
}

#[test]
fn content_hash_is_the_standard_hash_of_the_text() {
    for s in ["", "a", "contenido", "ñandú €", "0123456789abcdef0123456789"] {
        let mut hasher = DefaultHasher::new();
        s.hash(&mut hasher);
        assert_eq!(content_hash(s), format!("{:x}", hasher.finish()));
    }
    assert_ne!(content_hash("a"), content_hash("b"));
}

#[test]
fn markdown_is_its_own_text() {
    assert_eq!(MarkdownExtractor.extract("# título\n\ntexto"), "# título\n\ntexto");
}

#[test]
fn timestamps_are_seconds_since_the_epoch() {
    let before = SystemTime::now().duration_since(UNIX_EPOCH).unwrap().as_secs() as i64;
    let read = unix_timestamp().unwrap();
    let after = SystemTime::now().duration_since(UNIX_EPOCH).unwrap().as_secs() as i64;
    assert!(before <= read && read <= after);
}

#[test]
fn timestamps_keep_the_bits_of_the_reading() {
    assert_eq!(timestamp_of(None), None);
    for s in [0u64, 1, 1_700_000_000, i64::MAX as u64, i64::MAX as u64 + 1, u64::MAX] {
        assert_eq!(timestamp_of(Some(s)), Some(s as i64));
    }
}

const SAMPLES: [f32; 14] = [
    0.0, -0.0, 1.0, -1.0, 0.5, -0.5, f32::MIN_POSITIVE, -f32::MIN_POSITIVE, f32::MAX, f32::MIN,
    f32::INFINITY, f32::NEG_INFINITY, 1.0e-45, f32::NAN,
];

#[test]
fn singles_compare_as_floating_point_numbers() {
    for a in SAMPLES {
        assert_eq!(nan(a.to_bits()), a.is_nan());
        for b in SAMPLES {
            assert_eq!(less(a.to_bits(), b.to_bits()), a < b, "{a} {b}");
            if !a.is_nan() && !b.is_nan() {
                assert_eq!(ranks_below(a.to_bits(), b.to_bits()), a < b, "{a} {b}");
            }
        }
    }
    assert!(nan(0xffc0_0001));
}

#[test]
fn doubles_that_are_not_numbers_are_told_apart() {
    for x in [0.0, -0.0, 1.5, f64::INFINITY, f64::NEG_INFINITY, f64::MAX, f64::MIN_POSITIVE] {
        assert!(!nan_double(x.to_bits()));
    }
    assert!(nan_double(f64::NAN.to_bits()));
    assert!(nan_double((-f64::NAN).to_bits()));
}

#[test]
fn vectors_are_little_endian_singles() {
    let values = [1.0f32, -2.5, 0.0, f32::MAX];
    let mut bytes: Vec<u8> = values.iter().flat_map(|v| v.to_le_bytes()).collect();
    let want: Vec<u32> = values.iter().map(|v| v.to_bits()).collect();
    assert_eq!(bytes_to_f32(&bytes), want);
    bytes.push(7);
    assert_eq!(bytes_to_f32(&bytes), want);
    assert!(bytes_to_f32(&vec![1, 2, 3]).is_empty());
}

#[test]
fn constants_are_the_bit_patterns_they_stand_for() {
    assert_eq!(f32::from_bits(ONE_SINGLE), 1.0);
    assert_eq!(f64::from_bits(ONE_DOUBLE), 1.0);
    assert_eq!(f64::from_bits(DEFAULT_HOP_DECAY), 0.5);
    assert_eq!(f64::from_bits(DEFAULT_CHARS_PER_TOKEN), 3.5);
    assert_eq!(f64::from_bits(DEFAULT_OVERLAP_RATIO), 0.125);
}

#[test]
fn errors_say_what_happened() {
    assert_eq!(Error::BlankExternalId.message(), "external_id no puede ser una cadena vacía");
    assert_eq!(
        Error::UnknownDocument { external_id: "x".to_string() }.message(),
        "no existe ningún documento con external_id 'x'"
    );
    assert_eq!(
        Error::VectorLength { bytes: 11, dimension: 3, expected: 12 }.message(),
        "vector de 11 bytes no coincide con dimension 3 (se esperaban 12 bytes, 4 por componente f32)"
    );
    assert_eq!(
        Error::NoEmbedding { chunk_id: -7 }.message(),
        "el chunk -7 no tiene un embedding guardado"
    );
    assert_eq!(
        Error::DuplicateExternalId.message(),
        "UNIQUE constraint failed: documents.external_id"
    );
    assert_eq!(
        Error::ModelDimension { dimension: 2, registered: 3 }.message(),
        "la dimension 2 no coincide con la del modelo registrado (3)"
    );
    assert_eq!(Error::ForeignKey.message(), "FOREIGN KEY constraint failed");
    assert_eq!(Error::ClockBeforeEpoch.message(), "system clock before unix epoch");
    assert_eq!(Error::NotComparable.message(), "a score or distance is not a number");
}
