use smaz2::{Compressor, SmazError};

fn bigram_table(first: &str) -> String {
    // A 128-entry (256-byte) table: the given leading pairs, padded with "zz".
    assert!(first.len() % 2 == 0 && first.len() <= 256);
    let mut t = String::from(first);
    while t.len() < 256 {
        t.push_str("zz");
    }
    t
}

fn make_words(n: usize) -> Vec<String> {
    (0..n).map(|i| format!("w{}", i)).collect()
}

#[test]
fn accepts_up_to_256_words() {
    let words = make_words(256);
    let bg = bigram_table("");
    assert!(Compressor::new(&words, &bg).is_ok());
}

#[test]
fn rejects_257_words() {
    let words = make_words(257);
    let bg = bigram_table("");
    assert_eq!(Compressor::new(&words, &bg).err(), Some(SmazError::TooManyWords));
}

#[test]
fn accepts_empty_word_table() {
    let words: Vec<String> = Vec::new();
    let bg = bigram_table("");
    assert!(Compressor::new(&words, &bg).is_ok());
}

#[test]
fn rejects_short_bigram_table() {
    let words = make_words(3);
    let bg = "thhean";
    assert_eq!(Compressor::new(&words, bg).err(), Some(SmazError::InvalidBigramTable));
}

#[test]
fn rejects_odd_length_bigram_table() {
    let words = make_words(3);
    let mut bg = bigram_table("");
    bg.push('q');
    assert_eq!(Compressor::new(&words, &bg).err(), Some(SmazError::InvalidBigramTable));
}

#[test]
fn rejects_empty_bigram_table() {
    let words = make_words(1);
    assert_eq!(Compressor::new(&words, "").err(), Some(SmazError::InvalidBigramTable));
}

#[test]
fn error_messages_name_the_failure() {
    assert!(SmazError::TooManyWords.message().contains("256"));
    assert!(SmazError::InvalidBigramTable.message().contains("128"));
    assert!(SmazError::WordIndexOutOfRange.message().contains("index"));
    assert!(SmazError::TruncatedStream.message().contains("stream"));
    assert!(SmazError::InvalidEncoding.message().contains("text"));
}
