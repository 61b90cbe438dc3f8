use smaz2::{Compressor, SmazError};

fn bigram_table(first: &str) -> String {
    assert!(first.len() % 2 == 0 && first.len() <= 256);
    let mut t = String::from(first);
    while t.len() < 256 {
        t.push_str("zz");
    }
    t
}

fn words(list: &[&str]) -> Vec<String> {
    list.iter().map(|s| s.to_string()).collect()
}

#[test]
fn decodes_word_tokens_with_spacing() {
    let w = words(&["w0", "w1", "w2", "w3", "w4", "cat"]);
    let bg = bigram_table("");
    let c = Compressor::new(&w, &bg).unwrap();
    assert_eq!(c.decompress(vec![8, 5]).unwrap(), " cat");
    assert_eq!(c.decompress(vec![7, 5]).unwrap(), "cat ");
    assert_eq!(c.decompress(vec![6, 5]).unwrap(), "cat");
}

#[test]
fn decodes_bigram_tokens_from_the_table() {
    let w: Vec<String> = Vec::new();
    let bg = bigram_table("thhe");
    let c = Compressor::new(&w, &bg).unwrap();
    assert_eq!(c.decompress(vec![128, 129]).unwrap(), "thhe");
}

#[test]
fn decodes_verbatim_and_literal_tokens() {
    let w: Vec<String> = Vec::new();
    let bg = bigram_table("");
    let c = Compressor::new(&w, &bg).unwrap();
    assert_eq!(c.decompress(vec![2, 104, 105, 33]).unwrap(), "hi!");
}

#[test]
fn truncated_verbatim_token_is_an_error() {
    // A trailing length prefix of 3 with a single byte after it ends the
    // stream mid-token.
    let w: Vec<String> = Vec::new();
    let bg = bigram_table("");
    let c = Compressor::new(&w, &bg).unwrap();
    assert_eq!(c.decompress(vec![3, 65]).err(), Some(SmazError::TruncatedStream));
}

#[test]
fn word_token_without_index_is_an_error() {
    let w = words(&["the"]);
    let bg = bigram_table("");
    let c = Compressor::new(&w, &bg).unwrap();
    assert_eq!(c.decompress(vec![6]).err(), Some(SmazError::TruncatedStream));
}

#[test]
fn word_index_past_the_table_is_an_error() {
    let w = words(&["the"]);
    let bg = bigram_table("");
    let c = Compressor::new(&w, &bg).unwrap();
    assert_eq!(c.decompress(vec![6, 9]).err(), Some(SmazError::WordIndexOutOfRange));
}

#[test]
fn non_text_decode_result_is_an_error() {
    // The verbatim run carries byte 255, which alone is not valid UTF-8.
    let w: Vec<String> = Vec::new();
    let bg = bigram_table("");
    let c = Compressor::new(&w, &bg).unwrap();
    assert_eq!(c.decompress(vec![1, 255]).err(), Some(SmazError::InvalidEncoding));
}

#[test]
fn decompress_bytes_keeps_raw_non_text_output() {
    let w: Vec<String> = Vec::new();
    let bg = bigram_table("");
    let c = Compressor::new(&w, &bg).unwrap();
    assert_eq!(c.decompress_bytes(&[1, 255, 65]).unwrap(), vec![255, 65]);
}

#[test]
fn empty_input_round_trips_to_empty() {
    let w: Vec<String> = Vec::new();
    let bg = bigram_table("");
    let c = Compressor::new(&w, &bg).unwrap();
    let encoded = c.compress("");
    assert_eq!(encoded, Vec::<u8>::new());
    assert_eq!(c.decompress(encoded).unwrap(), "");
}

#[test]
fn round_trip_plain_text() {
    let w = words(&["the", "and", "cat", "hat"]);
    let bg = bigram_table("theranesonat");
    let c = Compressor::new(&w, &bg).unwrap();
    let input = "the cat and the hat sat on a mat!";
    let encoded = c.compress(input);
    assert!(encoded.len() < input.len());
    assert_eq!(c.decompress(encoded).unwrap(), input);
}

#[test]
fn round_trip_with_escapes_over_bytes() {
    let w = words(&["the"]);
    let bg = bigram_table("th");
    let c = Compressor::new(&w, &bg).unwrap();
    let input: Vec<u8> = vec![200, 1, 2, 3, 4, 5, 6, 7, 8, 250, 116, 104, 101, 32, 65, 0];
    let encoded = c.compress_bytes(&input);
    assert_eq!(c.decompress_bytes(&encoded).unwrap(), input);
}

#[test]
fn round_trip_every_single_byte() {
    // Bytes whose whitespace class is only the space byte round-trip; a
    // one-byte input never touches a spacing variant, so every value works.
    let w = words(&["q"]);
    let bg = bigram_table("qq");
    let c = Compressor::new(&w, &bg).unwrap();
    for b in 0..=255u8 {
        let input = vec![b];
        let encoded = c.compress_bytes(&input);
        assert_eq!(c.decompress_bytes(&encoded).unwrap(), input, "byte {}", b);
    }
}

#[test]
fn round_trip_mixed_words_bigrams_literals() {
    let w = words(&["compression", "stream", "token"]);
    let bg = bigram_table("oken");
    let c = Compressor::new(&w, &bg).unwrap();
    let input = "a token stream for compression; token after token.";
    let encoded = c.compress(input);
    assert_eq!(c.decompress(encoded).unwrap(), input);
}

#[test]
fn tab_elided_by_a_spacing_variant_comes_back_as_space() {
    // The spacing variants elide any ASCII whitespace but always restore a
    // plain space: a tab before a dictionary word does not round-trip.
    let w = words(&["cat"]);
    let bg = bigram_table("");
    let c = Compressor::new(&w, &bg).unwrap();
    let encoded = c.compress("\tcat");
    assert_eq!(encoded, vec![8, 0]);
    assert_eq!(c.decompress(encoded).unwrap(), " cat");
}
