//! Cutting text into chunks.

use semanta::document::chunk::chunk_text;

/// The sizes in characters for a size in tokens, as the settings give them.
fn chunk(text: &str, chunk_size: usize, chars_per_token: f64, overlap_ratio: f64) -> Vec<String> {
    let size = (chunk_size as f64 * chars_per_token) as usize;
    let overlap = (size as f64 * overlap_ratio) as usize;
    chunk_text(text, size, overlap)
}

#[test]
fn single_chunk_when_text_fits() {
    let chunks = chunk("hola mundo", 10, 3.5, 0.15);
    assert_eq!(chunks.len(), 1);
    assert_eq!(chunks[0], "hola mundo");
}

#[test]
fn splits_into_multiple_chunks_with_overlap() {
    let text = "0123456789".repeat(10);
    let chunks = chunk(&text, 10, 3.0, 0.5);

    assert!(chunks.len() > 1);

    let first_tail = &chunks[0][chunks[0].len() - 15..];
    let second_head = &chunks[1][..15];
    assert_eq!(first_tail, second_head);
}

#[test]
fn does_not_panic_on_accented_characters() {
    let text = "café niño mañana ñoño áéíóú".repeat(20);
    let chunks = chunk(&text, 5, 3.5, 0.1);

    assert!(!chunks.is_empty());
    for chunk in &chunks {
        assert!(chunk.chars().count() > 0);
    }
}

#[test]
fn empty_text_makes_no_chunk() {
    assert!(chunk_text("", 5, 1).is_empty());
    assert!(chunk_text("", 0, 0).is_empty());
}

#[test]
fn chunks_are_exact() {
    assert_eq!(chunk_text("abcdefghij", 4, 1), vec!["abcd", "defg", "ghij"]);
    assert_eq!(chunk_text("abcdefghijk", 4, 1), vec!["abcd", "defg", "ghij", "jk"]);
    assert_eq!(chunk_text("abcdefgh", 4, 0), vec!["abcd", "efgh"]);
    assert_eq!(chunk_text("abcd", 4, 3), vec!["abcd"]);
    assert_eq!(chunk_text("abcde", 4, 3), vec!["abcd", "bcde"]);
    assert_eq!(chunk_text("ab", 4, 9), vec!["ab"]);
}

#[test]
fn chunks_count_characters_and_not_bytes() {
    assert_eq!(chunk_text("ñandú€", 4, 1), vec!["ñand", "dú€"]);
}

#[test]
fn chunks_put_together_are_the_text() {
    let text: String = (0..97u32).map(|i| char::from_u32(0x61 + i % 26).unwrap()).collect();
    for size in 1..40usize {
        for overlap in 0..size {
            let chunks = chunk_text(&text, size, overlap);
            let mut whole = chunks[0].clone();
            for c in &chunks[1..] {
                whole.push_str(&c[overlap..]);
            }
            assert_eq!(whole, text);
            for (i, c) in chunks.iter().enumerate() {
                assert!(!c.is_empty() && c.len() <= size);
                assert!(i + 1 == chunks.len() || c.len() == size);
            }
        }
    }
}
