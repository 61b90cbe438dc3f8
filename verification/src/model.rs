//! Mathematical model of the wire format: what the encoder emits for a
//! given input and dictionary, and what the decoder reads back.
//!
//! The format interleaves five token kinds in one byte stream, each
//! self-delimiting by its leading control byte:
//! - `128..=255`: a bigram token; the low 7 bits index the bigram table.
//! - `1..=5`: a verbatim token; the byte is the count of raw bytes that follow.
//! - `6`, `7`, `8`: a word token; the next byte indexes the word table.
//!   `8` restores a space before the word, `7` a space after it, `6` none.
//! - anything else (`0`, `9..=127`): a literal byte standing for itself.

use vstd::prelude::*;

use crate::error::SmazError;

verus! {

/// The dictionary a stream is encoded and decoded against: the byte
/// sequences of the words, in table order, and the flat bigram table.
pub ghost struct Dict {
    pub words: Seq<Seq<u8>>,
    pub bigrams: Seq<u8>,
}

impl Dict {
    /// A dictionary the engine can run on: word indices fit in one byte,
    /// no word is empty (an empty word would let the encoder consume
    /// nothing and loop forever), and the bigram table holds exactly
    /// 128 two-byte entries.
    pub open spec fn wf(self) -> bool {
        &&& self.words.len() <= 256
        &&& forall|i: int| 0 <= i < self.words.len() ==> (#[trigger] self.words[i]).len() >= 1
        &&& self.bigrams.len() == 256
    }

    /// The two bytes of bigram table entry `j`.
    pub open spec fn bigram_at(self, j: int) -> Seq<u8> {
        seq![self.bigrams[2 * j], self.bigrams[2 * j + 1]]
    }
}

/// ASCII whitespace, as the word-spacing variants recognise it.
pub open spec fn is_ws(b: u8) -> bool {
    b == 32 || b == 9 || b == 10 || b == 12 || b == 13
}

/// Bytes that may stand for themselves in the stream: they do not collide
/// with the control-byte ranges `1..=8` and `128..=255`.
pub open spec fn is_literal(b: u8) -> bool {
    b == 0 || (9 <= b && b <= 127)
}

/// The word `w` matches at the cursor with a leading space: the byte under
/// the cursor is whitespace and the word follows immediately after it.
pub open spec fn leading_match(w: Seq<u8>, s: Seq<u8>) -> bool {
    &&& s.len() >= w.len() + 1
    &&& is_ws(s[0])
    &&& s.subrange(1, w.len() + 1 as int) == w
}

/// The word `w` matches at the cursor and the byte just after it is whitespace.
pub open spec fn trailing_match(w: Seq<u8>, s: Seq<u8>) -> bool {
    &&& s.len() >= w.len() + 1
    &&& s.subrange(0, w.len() as int) == w
    &&& is_ws(s[w.len() as int])
}

/// The word `w` matches at the cursor, with no requirement on what follows.
pub open spec fn bare_match(w: Seq<u8>, s: Seq<u8>) -> bool {
    &&& s.len() >= w.len()
    &&& s.subrange(0, w.len() as int) == w
}

/// The control byte of the first spacing variant of `w` that matches at the
/// cursor: `8` (leading space), then `7` (trailing space), then `6` (bare).
pub open spec fn variant_of(w: Seq<u8>, s: Seq<u8>) -> Option<u8> {
    if leading_match(w, s) {
        Some(8u8)
    } else if trailing_match(w, s) {
        Some(7u8)
    } else if bare_match(w, s) {
        Some(6u8)
    } else {
        None
    }
}

/// How many input bytes a word token for `w` with control byte `v` consumes:
/// the word itself, plus the elided space for the two spacing variants.
pub open spec fn word_consumed(w: Seq<u8>, v: u8) -> int {
    if v == 6 {
        w.len() as int
    } else {
        w.len() + 1 as int
    }
}

/// The lowest word index `>= i` whose first matching variant exists at the
/// cursor. Ascending table order is the matching priority: the first word
/// in the table wins, never the longest match.
pub open spec fn find_word_from(words: Seq<Seq<u8>>, s: Seq<u8>, i: int) -> Option<int>
    decreases words.len() - i,
{
    if i < 0 || i >= words.len() {
        None
    } else if variant_of(words[i], s) is Some {
        Some(i)
    } else {
        find_word_from(words, s, i + 1)
    }
}

/// The word the encoder picks at the cursor, if any.
pub open spec fn find_word(words: Seq<Seq<u8>>, s: Seq<u8>) -> Option<int> {
    find_word_from(words, s, 0)
}

/// The lowest bigram index `>= i` whose two table bytes equal the two bytes
/// under the cursor.
pub open spec fn find_bigram_from(bg: Seq<u8>, s: Seq<u8>, i: int) -> Option<int>
    decreases bg.len() / 2 - i,
{
    if i < 0 || i >= bg.len() / 2 {
        None
    } else if s.len() >= 2 && bg[2 * i] == s[0] && bg[2 * i + 1] == s[1] {
        Some(i)
    } else {
        find_bigram_from(bg, s, i + 1)
    }
}

/// The bigram the encoder picks at the cursor, if any.
pub open spec fn find_bigram(bg: Seq<u8>, s: Seq<u8>) -> Option<int> {
    find_bigram_from(bg, s, 0)
}

/// A byte at the cursor the encoder can emit without escaping: a word
/// match, a bigram match (only attempted with strictly more than two bytes
/// left), or a safe literal. Everything else must travel in a verbatim run.
pub open spec fn matchable(d: Dict, s: Seq<u8>) -> bool {
    &&& s.len() > 0
    &&& {
        ||| find_word(d.words, s) is Some
        ||| (s.len() > 2 && find_bigram(d.bigrams, s) is Some)
        ||| is_literal(s[0])
    }
}

/// Length of the verbatim run starting at the cursor: consecutive bytes
/// that cannot be matched, capped at `k`. A run never exceeds 5 bytes; a
/// longer stretch of unmatchable bytes becomes several consecutive tokens.
pub open spec fn run_len(d: Dict, s: Seq<u8>, k: int) -> int
    decreases k,
{
    if k <= 0 || s.len() == 0 || matchable(d, s) {
        0
    } else {
        1 + run_len(d, s.skip(1), k - 1)
    }
}

/// The token the encoder emits at the cursor, and how many input bytes it
/// consumes. Priority at every cursor position: word, then bigram, then
/// literal, then verbatim escape.
pub open spec fn encode_step(d: Dict, s: Seq<u8>) -> (Seq<u8>, int) {
    match find_word(d.words, s) {
        Some(i) => {
            let w = d.words[i];
            match variant_of(w, s) {
                Some(v) => (seq![v, i as u8], word_consumed(w, v)),
                // find_word only returns indices whose variant exists
                None => (Seq::empty(), 0),
            }
        },
        None => {
            if s.len() > 2 && find_bigram(d.bigrams, s) is Some {
                match find_bigram(d.bigrams, s) {
                    Some(j) => (seq![(128 + j) as u8], 2),
                    None => (Seq::empty(), 0),
                }
            } else if is_literal(s[0]) {
                (seq![s[0]], 1)
            } else {
                let n = run_len(d, s, 5);
                (seq![n as u8] + s.subrange(0, n), n)
            }
        },
    }
}

/// What the decoder will print for the token emitted at the cursor.
pub open spec fn step_piece(d: Dict, s: Seq<u8>) -> Seq<u8> {
    match find_word(d.words, s) {
        Some(i) => {
            let w = d.words[i];
            match variant_of(w, s) {
                Some(v) => if v == 8 {
                    seq![32u8] + w
                } else if v == 7 {
                    w + seq![32u8]
                } else {
                    w
                },
                None => Seq::empty(),
            }
        },
        None => {
            if s.len() > 2 && find_bigram(d.bigrams, s) is Some {
                match find_bigram(d.bigrams, s) {
                    Some(j) => d.bigram_at(j),
                    None => Seq::empty(),
                }
            } else if is_literal(s[0]) {
                seq![s[0]]
            } else {
                s.subrange(0, run_len(d, s, 5))
            }
        },
    }
}

/// The full token stream the encoder produces for `s`.
pub open spec fn encode_from(d: Dict, s: Seq<u8>) -> Seq<u8>
    decreases s.len(),
{
    if s.len() == 0 {
        Seq::empty()
    } else {
        let tok = encode_step(d, s).0;
        let n = encode_step(d, s).1;
        if 0 < n <= s.len() {
            tok + encode_from(d, s.skip(n))
        } else {
            tok
        }
    }
}

/// What the decoder returns for the stream `s`: the decoded bytes, or the
/// first error met reading left to right. Each control byte fixes its
/// token's length; a token running past the end of the stream is
/// `TruncatedStream`, a word index with no table entry is
/// `WordIndexOutOfRange`.
pub open spec fn decode_from(d: Dict, s: Seq<u8>) -> Result<Seq<u8>, SmazError>
    decreases s.len(),
{
    if s.len() == 0 {
        Ok(Seq::empty())
    } else {
        let c = s[0];
        if c >= 128 {
            let j = c - 128;
            match decode_from(d, s.skip(1)) {
                Ok(rest) => Ok(d.bigram_at(j as int) + rest),
                Err(e) => Err(e),
            }
        } else if 1 <= c && c <= 5 {
            let n = c as int;
            if s.len() >= 1 + n {
                match decode_from(d, s.skip(1 + n)) {
                    Ok(rest) => Ok(s.subrange(1, 1 + n) + rest),
                    Err(e) => Err(e),
                }
            } else {
                Err(SmazError::TruncatedStream)
            }
        } else if 6 <= c && c <= 8 {
            if s.len() >= 2 {
                let idx = s[1] as int;
                if idx < d.words.len() {
                    let piece = if c == 8 {
                        seq![32u8] + d.words[idx]
                    } else if c == 7 {
                        d.words[idx] + seq![32u8]
                    } else {
                        d.words[idx]
                    };
                    match decode_from(d, s.skip(2)) {
                        Ok(rest) => Ok(piece + rest),
                        Err(e) => Err(e),
                    }
                } else {
                    Err(SmazError::WordIndexOutOfRange)
                }
            } else {
                Err(SmazError::TruncatedStream)
            }
        } else {
            match decode_from(d, s.skip(1)) {
                Ok(rest) => Ok(seq![c] + rest),
                Err(e) => Err(e),
            }
        }
    }
}

/// The elided whitespace of the token at the cursor, if any, is exactly a
/// space (byte 32). The decoder always restores a space, so this is what
/// the round trip needs of each step.
pub open spec fn step_space_ok(d: Dict, s: Seq<u8>) -> bool {
    match find_word(d.words, s) {
        Some(i) => match variant_of(d.words[i], s) {
            Some(v) => {
                &&& (v == 8 ==> s[0] == 32)
                &&& (v == 7 ==> s[d.words[i].len() as int] == 32)
            },
            None => true,
        },
        None => true,
    }
}

/// Every whitespace byte the encoder elides over the whole run of `s` is a
/// space. Inputs whose whitespace is only ever byte 32 satisfy this.
pub open spec fn space_exact(d: Dict, s: Seq<u8>) -> bool
    decreases s.len(),
{
    s.len() == 0 || {
        &&& step_space_ok(d, s)
        &&& {
            let n = encode_step(d, s).1;
            0 < n <= s.len() ==> space_exact(d, s.skip(n))
        }
    }
}

/// Prefix the decoded bytes of earlier tokens onto a decode result,
/// passing an error through unchanged.
pub open spec fn prepend_decoded(prefix: Seq<u8>, r: Result<Seq<u8>, SmazError>) -> Result<
    Seq<u8>,
    SmazError,
> {
    match r {
        Ok(rest) => Ok(prefix + rest),
        Err(e) => Err(e),
    }
}

/// Prefixing decoded bytes twice is prefixing their concatenation once.
pub proof fn lemma_prepend_assoc(a: Seq<u8>, b: Seq<u8>, r: Result<Seq<u8>, SmazError>)
    ensures
        prepend_decoded(a, prepend_decoded(b, r)) == prepend_decoded(a + b, r),
{
    match r {
        Ok(rest) => {
            assert((a + b) + rest =~= a + (b + rest));
        },
        Err(_) => {
        },
    }
}

proof fn lemma_find_word_from_props(words: Seq<Seq<u8>>, s: Seq<u8>, k: int)
    requires
        0 <= k,
    ensures
        match find_word_from(words, s, k) {
            Some(i) => {
                &&& k <= i < words.len()
                &&& variant_of(words[i], s) is Some
                &&& forall|j: int| k <= j < i ==> #[trigger] variant_of(words[j], s) is None
            },
            None => forall|j: int|
                k <= j < words.len() ==> #[trigger] variant_of(words[j], s) is None,
        },
    decreases words.len() - k,
{
    if k < words.len() && variant_of(words[k], s) is None {
        lemma_find_word_from_props(words, s, k + 1);
    }
}

/// What `find_word` returns: the lowest index whose word matches at the
/// cursor in some variant, every earlier word matching in none; `None`
/// exactly when no word matches at all.
pub proof fn lemma_find_word_props(words: Seq<Seq<u8>>, s: Seq<u8>)
    ensures
        match find_word(words, s) {
            Some(i) => {
                &&& 0 <= i < words.len()
                &&& variant_of(words[i], s) is Some
                &&& forall|j: int| 0 <= j < i ==> #[trigger] variant_of(words[j], s) is None
            },
            None => forall|j: int|
                0 <= j < words.len() ==> #[trigger] variant_of(words[j], s) is None,
        },
{
    lemma_find_word_from_props(words, s, 0);
}

proof fn lemma_find_word_from_some(words: Seq<Seq<u8>>, s: Seq<u8>, k: int, i: int)
    requires
        0 <= k <= i < words.len(),
        variant_of(words[i], s) is Some,
        forall|j: int| k <= j < i ==> #[trigger] variant_of(words[j], s) is None,
    ensures
        find_word_from(words, s, k) == Some(i),
    decreases i - k,
{
    if k < i {
        lemma_find_word_from_some(words, s, k + 1, i);
    }
}

/// `find_word` returns `Some(i)` as soon as word `i` matches and no earlier
/// word does.
pub proof fn lemma_find_word_some(words: Seq<Seq<u8>>, s: Seq<u8>, i: int)
    requires
        0 <= i < words.len(),
        variant_of(words[i], s) is Some,
        forall|j: int| 0 <= j < i ==> #[trigger] variant_of(words[j], s) is None,
    ensures
        find_word(words, s) == Some(i),
{
    lemma_find_word_from_some(words, s, 0, i);
}

/// `find_word` returns `None` when no word matches in any variant.
pub proof fn lemma_find_word_none(words: Seq<Seq<u8>>, s: Seq<u8>)
    requires
        forall|j: int| 0 <= j < words.len() ==> #[trigger] variant_of(words[j], s) is None,
    ensures
        find_word(words, s) is None,
{
    lemma_find_word_from_props(words, s, 0);
}

/// The two table bytes of bigram `i` equal the two bytes under the cursor.
pub open spec fn bigram_hit(bg: Seq<u8>, s: Seq<u8>, i: int) -> bool {
    s.len() >= 2 && bg[2 * i] == s[0] && bg[2 * i + 1] == s[1]
}

proof fn lemma_find_bigram_from_props(bg: Seq<u8>, s: Seq<u8>, k: int)
    requires
        0 <= k,
    ensures
        match find_bigram_from(bg, s, k) {
            Some(i) => {
                &&& k <= i < bg.len() / 2
                &&& bigram_hit(bg, s, i)
                &&& forall|j: int| k <= j < i ==> !#[trigger] bigram_hit(bg, s, j)
            },
            None => forall|j: int| k <= j < bg.len() / 2 ==> !#[trigger] bigram_hit(bg, s, j),
        },
    decreases bg.len() / 2 - k,
{
    if k < bg.len() / 2 && !bigram_hit(bg, s, k) {
        lemma_find_bigram_from_props(bg, s, k + 1);
    }
}

/// What `find_bigram` returns: the lowest table entry equal to the two
/// bytes under the cursor, or `None` when no entry is.
pub proof fn lemma_find_bigram_props(bg: Seq<u8>, s: Seq<u8>)
    ensures
        match find_bigram(bg, s) {
            Some(i) => {
                &&& 0 <= i < bg.len() / 2
                &&& bigram_hit(bg, s, i)
                &&& forall|j: int| 0 <= j < i ==> !#[trigger] bigram_hit(bg, s, j)
            },
            None => forall|j: int| 0 <= j < bg.len() / 2 ==> !#[trigger] bigram_hit(bg, s, j),
        },
{
    lemma_find_bigram_from_props(bg, s, 0);
}

proof fn lemma_find_bigram_from_some(bg: Seq<u8>, s: Seq<u8>, k: int, i: int)
    requires
        0 <= k <= i < bg.len() / 2,
        bigram_hit(bg, s, i),
        forall|j: int| k <= j < i ==> !#[trigger] bigram_hit(bg, s, j),
    ensures
        find_bigram_from(bg, s, k) == Some(i),
    decreases i - k,
{
    if k < i {
        assert(!bigram_hit(bg, s, k));
        lemma_find_bigram_from_some(bg, s, k + 1, i);
    } else {
        assert(bigram_hit(bg, s, i));
    }
}

/// `find_bigram` returns `Some(i)` as soon as entry `i` matches and no
/// earlier entry does.
pub proof fn lemma_find_bigram_some(bg: Seq<u8>, s: Seq<u8>, i: int)
    requires
        0 <= i < bg.len() / 2,
        bigram_hit(bg, s, i),
        forall|j: int| 0 <= j < i ==> !#[trigger] bigram_hit(bg, s, j),
    ensures
        find_bigram(bg, s) == Some(i),
{
    lemma_find_bigram_from_some(bg, s, 0, i);
}

/// `find_bigram` returns `None` when no entry matches.
pub proof fn lemma_find_bigram_none(bg: Seq<u8>, s: Seq<u8>)
    requires
        forall|j: int| 0 <= j < bg.len() / 2 ==> !#[trigger] bigram_hit(bg, s, j),
    ensures
        find_bigram(bg, s) is None,
{
    lemma_find_bigram_from_props(bg, s, 0);
}

/// A verbatim run is never longer than its cap nor than the input left.
pub proof fn lemma_run_len_bounds(d: Dict, s: Seq<u8>, k: int)
    ensures
        0 <= run_len(d, s, k),
        run_len(d, s, k) <= k || run_len(d, s, k) == 0,
        run_len(d, s, k) <= s.len(),
    decreases k,
{
    if !(k <= 0 || s.len() == 0 || matchable(d, s)) {
        lemma_run_len_bounds(d, s.skip(1), k - 1);
    }
}

/// Every step of a well-formed dictionary's encoder consumes at least one
/// and at most all remaining input bytes.
pub proof fn lemma_step_bounds(d: Dict, s: Seq<u8>)
    requires
        d.wf(),
        s.len() > 0,
    ensures
        1 <= encode_step(d, s).1 <= s.len(),
{
    lemma_find_word_props(d.words, s);
    match find_word(d.words, s) {
        Some(i) => {
            let w = d.words[i];
            assert(w.len() >= 1);
        },
        None => {
            if s.len() > 2 && find_bigram(d.bigrams, s) is Some {
            } else if is_literal(s[0]) {
            } else {
                assert(!matchable(d, s));
                assert(run_len(d, s, 5) == 1 + run_len(d, s.skip(1), 4));
                lemma_run_len_bounds(d, s.skip(1), 4);
            }
        },
    }
}

} // verus!
