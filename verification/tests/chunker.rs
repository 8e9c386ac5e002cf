use ragstore::chunker::chunk;
use ragstore::error::Error;

#[test]
fn chunk_600_chars_at_250_gives_250_250_100() {
    let text: String = std::iter::repeat('a').take(600).collect();
    let chunks = chunk(&text, 250).unwrap();
    assert_eq!(chunks.len(), 3);
    assert_eq!(chunks[0].chars().count(), 250);
    assert_eq!(chunks[1].chars().count(), 250);
    assert_eq!(chunks[2].chars().count(), 100);
}

#[test]
fn chunk_empty_text_gives_no_chunks() {
    let chunks = chunk("", 7).unwrap();
    assert!(chunks.is_empty());
    let chunks = chunk("", 1).unwrap();
    assert!(chunks.is_empty());
}

#[test]
fn chunk_size_zero_is_rejected() {
    assert!(matches!(chunk("hello", 0), Err(Error::InvalidConfiguration)));
    assert!(matches!(chunk("", 0), Err(Error::InvalidConfiguration)));
}

#[test]
fn chunk_concatenation_reproduces_text() {
    let text = "The quick brown fox jumps over the lazy dog";
    for size in 1..=(text.len() + 2) {
        let chunks = chunk(text, size).unwrap();
        let glued: String = chunks.concat();
        assert_eq!(glued, text);
    }
}

#[test]
fn chunk_counts_characters_not_bytes() {
    let text = "héllo wörld ünïcode";
    let n = text.chars().count();
    let chunks = chunk(text, 4).unwrap();
    assert_eq!(chunks.len(), (n + 3) / 4);
    for c in &chunks[..chunks.len() - 1] {
        assert_eq!(c.chars().count(), 4);
    }
    let glued: String = chunks.concat();
    assert_eq!(glued, text);
}

#[test]
fn chunk_exact_multiple_has_full_last_chunk() {
    let text: String = std::iter::repeat('x').take(500).collect();
    let chunks = chunk(&text, 250).unwrap();
    assert_eq!(chunks.len(), 2);
    assert_eq!(chunks[1].chars().count(), 250);
}

#[test]
fn chunk_larger_than_text_gives_one_chunk() {
    let chunks = chunk("tiny", 100).unwrap();
    assert_eq!(chunks.len(), 1);
    assert_eq!(chunks[0], "tiny");
}
