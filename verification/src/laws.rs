//! The laws the codec obeys: every encoded stream parses back without
//! error, and decoding undoes encoding whenever the whitespace the encoder
//! elides is exactly a space — in particular for every input whose
//! whitespace bytes are all the space byte 32.

use vstd::prelude::*;
use vstd::utf8::*;

use crate::error::SmazError;
use crate::model::{
    bare_match, decode_from, encode_from, encode_step, find_bigram, find_word, is_literal, is_ws,
    leading_match, lemma_find_bigram_props, lemma_find_word_props, lemma_run_len_bounds,
    lemma_step_bounds, matchable, prepend_decoded, run_len, space_exact, step_piece,
    step_space_ok, trailing_match, variant_of, word_consumed, Dict,
};

verus! {

/// The token emitted at a nonempty cursor decodes to its piece, whatever
/// follows it in the stream.
proof fn lemma_step_decodes(d: Dict, s: Seq<u8>, rest: Seq<u8>)
    requires
        d.wf(),
        s.len() > 0,
    ensures
        decode_from(d, encode_step(d, s).0 + rest) == prepend_decoded(
            step_piece(d, s),
            decode_from(d, rest),
        ),
{
    let tok = encode_step(d, s).0;
    let stream = tok + rest;
    lemma_find_word_props(d.words, s);
    match find_word(d.words, s) {
        Some(i) => {
            let w = d.words[i];
            match variant_of(w, s) {
                Some(v) => {
                    assert(v == 6 || v == 7 || v == 8);
                    assert(stream[0] == v);
                    assert(stream[1] == i as u8);
                    assert(stream.len() == 2 + rest.len());
                    assert(i < 256);
                    assert((i as u8) as int == i);
                    assert(stream.skip(2) =~= rest);
                },
                None => {
                    assert(false);
                },
            }
        },
        None => {
            if s.len() > 2 && find_bigram(d.bigrams, s) is Some {
                lemma_find_bigram_props(d.bigrams, s);
                match find_bigram(d.bigrams, s) {
                    Some(j) => {
                        assert(0 <= j < 128);
                        let c = (128 + j) as u8;
                        assert(stream[0] == c);
                        assert(c >= 128);
                        assert(c - 128 == j);
                        assert(stream.skip(1) =~= rest);
                    },
                    None => {
                        assert(false);
                    },
                }
            } else if is_literal(s[0]) {
                let c = s[0];
                assert(stream[0] == c);
                assert(!(c >= 128) && !(1 <= c && c <= 5) && !(6 <= c && c <= 8));
                assert(stream.skip(1) =~= rest);
            } else {
                let n = run_len(d, s, 5);
                assert(!matchable(d, s));
                assert(n == 1 + run_len(d, s.skip(1), 4));
                lemma_run_len_bounds(d, s.skip(1), 4);
                lemma_run_len_bounds(d, s, 5);
                assert(1 <= n <= 5);
                assert(n <= s.len());
                assert(stream[0] == n as u8);
                assert((n as u8) as int == n);
                assert(1 <= stream[0] && stream[0] <= 5);
                assert(stream.len() == 1 + n + rest.len());
                assert(stream.subrange(1, 1 + n) =~= s.subrange(0, n));
                assert(stream.skip(1 + n) =~= rest);
            }
        },
    }
}

/// Under `step_space_ok`, the decoded piece of the token at the cursor is
/// exactly the input bytes the token consumed.
proof fn lemma_piece_is_prefix(d: Dict, s: Seq<u8>)
    requires
        d.wf(),
        s.len() > 0,
        step_space_ok(d, s),
    ensures
        step_piece(d, s) == s.subrange(0, encode_step(d, s).1),
{
    lemma_find_word_props(d.words, s);
    match find_word(d.words, s) {
        Some(i) => {
            let w = d.words[i];
            match variant_of(w, s) {
                Some(v) => {
                    if v == 8 {
                        assert(leading_match(w, s));
                        assert(s.subrange(0, w.len() + 1 as int) =~= seq![s[0]] + s.subrange(
                            1,
                            w.len() + 1 as int,
                        ));
                        assert(seq![32u8] + w =~= s.subrange(0, w.len() + 1 as int));
                    } else if v == 7 {
                        assert(trailing_match(w, s));
                        assert(s.subrange(0, w.len() + 1 as int) =~= s.subrange(
                            0,
                            w.len() as int,
                        ) + seq![s[w.len() as int]]);
                        assert(w + seq![32u8] =~= s.subrange(0, w.len() + 1 as int));
                    } else {
                        assert(bare_match(w, s));
                    }
                },
                None => {
                    assert(false);
                },
            }
        },
        None => {
            if s.len() > 2 && find_bigram(d.bigrams, s) is Some {
                lemma_find_bigram_props(d.bigrams, s);
                match find_bigram(d.bigrams, s) {
                    Some(j) => {
                        assert(d.bigram_at(j) =~= s.subrange(0, 2));
                    },
                    None => {
                        assert(false);
                    },
                }
            } else if is_literal(s[0]) {
                assert(seq![s[0]] =~= s.subrange(0, 1));
            }
        },
    }
}

/// Escape safety: whatever the input, the encoder's output is a
/// well-formed token stream — the decoder reads it through without error.
/// In particular a byte the encoder could not match (value `1..=8` or
/// `128..=255`) is never emitted standing for itself: it always travels
/// inside a verbatim token whose length prefix is `1..=5`.
pub proof fn lemma_compressed_stream_well_formed(d: Dict, s: Seq<u8>)
    requires
        d.wf(),
    ensures
        decode_from(d, encode_from(d, s)) is Ok,
    decreases s.len(),
{
    if s.len() == 0 {
    } else {
        lemma_step_bounds(d, s);
        let n = encode_step(d, s).1;
        let rest = encode_from(d, s.skip(n));
        lemma_compressed_stream_well_formed(d, s.skip(n));
        lemma_step_decodes(d, s, rest);
    }
}

/// Round trip: when every whitespace byte the encoder elides is exactly a
/// space, decoding the encoded stream gives back the input, byte for byte.
pub proof fn lemma_round_trip_bytes(d: Dict, s: Seq<u8>)
    requires
        d.wf(),
        space_exact(d, s),
    ensures
        decode_from(d, encode_from(d, s)) == Ok::<Seq<u8>, SmazError>(s),
    decreases s.len(),
{
    if s.len() == 0 {
        assert(decode_from(d, encode_from(d, s)) == Ok::<Seq<u8>, SmazError>(Seq::empty()));
        assert(s =~= Seq::<u8>::empty());
    } else {
        lemma_step_bounds(d, s);
        let n = encode_step(d, s).1;
        let rest = encode_from(d, s.skip(n));
        lemma_round_trip_bytes(d, s.skip(n));
        lemma_step_decodes(d, s, rest);
        lemma_piece_is_prefix(d, s);
        assert(s.subrange(0, n) + s.skip(n) =~= s);
    }
}

/// An input with no whitespace byte other than the space byte 32 elides
/// only spaces, so the round trip holds of it unconditionally.
pub proof fn lemma_plain_spaces_space_exact(d: Dict, s: Seq<u8>)
    requires
        d.wf(),
        forall|t: int| 0 <= t < s.len() ==> (is_ws(#[trigger] s[t]) ==> s[t] == 32),
    ensures
        space_exact(d, s),
    decreases s.len(),
{
    if s.len() == 0 {
    } else {
        lemma_find_word_props(d.words, s);
        assert(step_space_ok(d, s)) by {
            match find_word(d.words, s) {
                Some(i) => {
                    let w = d.words[i];
                    match variant_of(w, s) {
                        Some(v) => {
                            if v == 8 {
                                assert(leading_match(w, s));
                                assert(is_ws(s[0]));
                            } else if v == 7 {
                                assert(trailing_match(w, s));
                                assert(is_ws(s[w.len() as int]));
                            }
                        },
                        None => {},
                    }
                },
                None => {},
            }
        }
        lemma_step_bounds(d, s);
        let n = encode_step(d, s).1;
        assert forall|t: int| 0 <= t < s.skip(n).len() implies (is_ws(
            #[trigger] s.skip(n)[t],
        ) ==> s.skip(n)[t] == 32) by {
            assert(s.skip(n)[t] == s[n + t]);
        }
        lemma_plain_spaces_space_exact(d, s.skip(n));
    }
}

/// Round trip for inputs whose whitespace is only ever the space byte 32
/// (all other bytes are unrestricted): decoding the encoded stream gives
/// back the input, byte for byte.
pub proof fn lemma_round_trip_plain_whitespace(d: Dict, s: Seq<u8>)
    requires
        d.wf(),
        forall|t: int| 0 <= t < s.len() ==> (is_ws(#[trigger] s[t]) ==> s[t] == 32),
    ensures
        decode_from(d, encode_from(d, s)) == Ok::<Seq<u8>, SmazError>(s),
{
    lemma_plain_spaces_space_exact(d, s);
    lemma_round_trip_bytes(d, s);
}

/// The shape of an escape: at a cursor the encoder cannot match, it emits
/// one verbatim token — a length prefix between 1 and 5 followed by
/// exactly that many raw input bytes — and consumes those bytes.
pub proof fn lemma_escape_token_shape(d: Dict, s: Seq<u8>)
    requires
        d.wf(),
        s.len() > 0,
        !matchable(d, s),
    ensures
        ({
            let tok = encode_step(d, s).0;
            let n = encode_step(d, s).1;
            &&& 1 <= n <= 5
            &&& n <= s.len()
            &&& tok == seq![n as u8] + s.subrange(0, n)
        }),
{
    assert(run_len(d, s, 5) == 1 + run_len(d, s.skip(1), 4));
    lemma_run_len_bounds(d, s.skip(1), 4);
    lemma_run_len_bounds(d, s, 5);
}

/// Round trip for text: a string's UTF-8 bytes, encoded and decoded over
/// one dictionary, come back unchanged and are valid UTF-8 that reads back
/// as the original characters.
pub proof fn lemma_round_trip_text(d: Dict, text: Seq<char>)
    requires
        d.wf(),
        space_exact(d, encode_utf8(text)),
    ensures
        decode_from(d, encode_from(d, encode_utf8(text))) == Ok::<Seq<u8>, SmazError>(
            encode_utf8(text),
        ),
        valid_utf8(encode_utf8(text)),
        decode_utf8(encode_utf8(text)) == text,
{
    lemma_round_trip_bytes(d, encode_utf8(text));
    encode_utf8_valid_utf8(text);
    encode_utf8_decode_utf8(text);
}

/// Greedy priority: when any word of the table matches at the cursor, the
/// encoder emits a word token for the lowest matching index — a bigram or
/// literal never wins over a word, and an earlier table entry always wins
/// over a later one, even a longer match.
pub proof fn lemma_word_priority(d: Dict, s: Seq<u8>)
    requires
        s.len() > 0,
    ensures
        find_word(d.words, s) matches Some(i) ==> {
            &&& 0 <= i < d.words.len()
            &&& forall|j: int| 0 <= j < i ==> #[trigger] variant_of(d.words[j], s) is None
            &&& exists|v: u8|
                variant_of(d.words[i], s) == Some(v) && encode_step(d, s) == (
                seq![v, i as u8],
                word_consumed(d.words[i], v),
                )
        },
        find_word(d.words, s) is None ==> forall|j: int|
            0 <= j < d.words.len() ==> #[trigger] variant_of(d.words[j], s) is None,
{
    lemma_find_word_props(d.words, s);
    match find_word(d.words, s) {
        Some(i) => {
            match variant_of(d.words[i], s) {
                Some(v) => {
                    assert(variant_of(d.words[i], s) == Some(v) && encode_step(d, s) == (
                        seq![v, i as u8],
                        word_consumed(d.words[i], v),
                    ));
                },
                None => {
                    assert(false);
                },
            }
        },
        None => {},
    }
}

} // verus!
