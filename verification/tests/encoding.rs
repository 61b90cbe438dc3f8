use smaz2::Compressor;

fn bigram_table(first: &str) -> String {
    assert!(first.len() % 2 == 0 && first.len() <= 256);
    let mut t = String::from(first);
    while t.len() < 256 {
        t.push_str("zz");
    }
    t
}

fn words(list: &[&str]) -> Vec<String> {
    list.iter().map(|s| s.to_string()).collect()
}

#[test]
fn literal_bytes_pass_through() {
    let w: Vec<String> = Vec::new();
    let bg = bigram_table("");
    let c = Compressor::new(&w, &bg).unwrap();
    assert_eq!(c.compress("hi!"), vec![104, 105, 33]);
    assert_eq!(c.compress_bytes(&[0, 9, 127]), vec![0, 9, 127]);
}

#[test]
fn two_bytes_left_is_too_few_for_a_bigram() {
    // Bigram entry 0 is "th", but with exactly two bytes of input the
    // bigram path is skipped and both bytes go out as literals.
    let w: Vec<String> = Vec::new();
    let bg = bigram_table("th");
    let c = Compressor::new(&w, &bg).unwrap();
    assert_eq!(c.compress("th"), vec![116, 104]);
}

#[test]
fn three_bytes_left_allows_a_bigram() {
    let w: Vec<String> = Vec::new();
    let bg = bigram_table("th");
    let c = Compressor::new(&w, &bg).unwrap();
    assert_eq!(c.compress("thx"), vec![128, 120]);
}

#[test]
fn bigram_index_sets_low_seven_bits() {
    let w: Vec<String> = Vec::new();
    let bg = bigram_table("aabbcc");
    let c = Compressor::new(&w, &bg).unwrap();
    assert_eq!(c.compress("cc!"), vec![128 | 2, 33]);
}

#[test]
fn word_with_leading_space() {
    let w = words(&["w0", "w1", "w2", "w3", "w4", "cat"]);
    let bg = bigram_table("");
    let c = Compressor::new(&w, &bg).unwrap();
    assert_eq!(c.compress(" cat"), vec![8, 5]);
}

#[test]
fn word_with_trailing_space() {
    let w = words(&["w0", "w1", "w2", "w3", "w4", "cat"]);
    let bg = bigram_table("");
    let c = Compressor::new(&w, &bg).unwrap();
    assert_eq!(c.compress("cat !"), vec![7, 5, 33]);
}

#[test]
fn bare_word_before_other_text() {
    let w = words(&["w0", "w1", "w2", "w3", "w4", "cat"]);
    let bg = bigram_table("");
    let c = Compressor::new(&w, &bg).unwrap();
    assert_eq!(c.compress("cats"), vec![6, 5, 115]);
}

#[test]
fn bare_word_at_end_of_input() {
    let w = words(&["w0", "w1", "w2", "w3", "w4", "cat"]);
    let bg = bigram_table("");
    let c = Compressor::new(&w, &bg).unwrap();
    assert_eq!(c.compress("cat"), vec![6, 5]);
}

#[test]
fn first_table_index_wins_over_longer_match() {
    // "a" stands before "apple" in the table, so "apple" encodes with
    // index 0 and the rest is handled separately — never with index 1.
    let w = words(&["a", "apple"]);
    let bg = bigram_table("");
    let c = Compressor::new(&w, &bg).unwrap();
    assert_eq!(c.compress("apple"), vec![6, 0, 112, 112, 108, 101]);
}

#[test]
fn word_wins_over_bigram_and_literal() {
    // "to" is both word 0 and bigram entry 0; the word token wins.
    let w = words(&["to"]);
    let bg = bigram_table("to");
    let c = Compressor::new(&w, &bg).unwrap();
    assert_eq!(c.compress("to!!"), vec![6, 0, 33, 33]);
}

#[test]
fn seven_unmatchable_bytes_make_two_runs() {
    // A verbatim run is capped at five bytes: seven bytes of value 200
    // become one run of five and one of two, never one of seven and never
    // seven of one.
    let w: Vec<String> = Vec::new();
    let bg = bigram_table("");
    let c = Compressor::new(&w, &bg).unwrap();
    let encoded = c.compress_bytes(&[200u8; 7]);
    assert_eq!(encoded, vec![5, 200, 200, 200, 200, 200, 2, 200, 200]);
}

#[test]
fn control_range_bytes_are_escaped() {
    // Bytes 1..=8 collide with control bytes and must travel in a
    // verbatim run with a length prefix, never standing for themselves.
    let w: Vec<String> = Vec::new();
    let bg = bigram_table("");
    let c = Compressor::new(&w, &bg).unwrap();
    assert_eq!(c.compress_bytes(&[7]), vec![1, 7]);
    assert_eq!(c.compress_bytes(&[1, 2, 3]), vec![3, 1, 2, 3]);
}

#[test]
fn word_index_above_127_fits_in_one_byte() {
    let mut w: Vec<String> = (0..130).map(|i| format!("w{}", i)).collect();
    w.push("cat".to_string());
    let bg = bigram_table("");
    let c = Compressor::new(&w, &bg).unwrap();
    assert_eq!(c.compress("cat"), vec![6, 130]);
}

#[test]
fn matchable_byte_ends_a_verbatim_run() {
    let w: Vec<String> = Vec::new();
    let bg = bigram_table("");
    let c = Compressor::new(&w, &bg).unwrap();
    assert_eq!(c.compress_bytes(&[200, 65, 200]), vec![1, 200, 65, 1, 200]);
}
