//! The executable encoder and decoder, verified against the model in
//! [`crate::model`].

use vstd::prelude::*;
use vstd::slice::slice_subrange;
use vstd::string::StringSliceAdditionalSpecFns;
use vstd::utf8::*;

use crate::error::SmazError;
use crate::model::{
    bigram_hit, decode_from, encode_from, encode_step, find_bigram, find_word, is_ws,
    lemma_find_bigram_none, lemma_find_bigram_some, lemma_find_word_none, lemma_find_word_some,
    lemma_prepend_assoc, lemma_step_bounds, matchable, prepend_decoded, run_len, variant_of, Dict,
};

verus! {

/// A compression engine over a caller-supplied dictionary: an ordered word
/// table of at most 256 entries and a table of exactly 128 two-byte
/// bigrams. Both tables are read-only; encoding and decoding a stream must
/// use the identical dictionary.
#[derive(Debug, Copy, Clone)]
pub struct Compressor<'a> {
    words: &'a Vec<String>,
    bi_grams: &'a str,
}

/// The byte sequences of a word table, in table order.
pub open spec fn words_view(words: Seq<String>) -> Seq<Seq<u8>> {
    words.map_values(|w: String| encode_utf8(w@))
}

impl<'a> View for Compressor<'a> {
    type V = Dict;

    closed spec fn view(&self) -> Dict {
        Dict { words: words_view(self.words@), bigrams: self.bi_grams.spec_bytes() }
    }
}

/// Whitespace as the word-spacing variants recognise it, on a byte.
fn is_space_byte(b: u8) -> (r: bool)
    ensures
        r == is_ws(b),
{
    b == 32 || b == 9 || b == 10 || b == 12 || b == 13
}

/// Whether the bytes of `w` stand at `pos` in `s`.
fn bytes_eq_at(s: &[u8], pos: usize, w: &[u8]) -> (r: bool)
    requires
        pos + w@.len() <= s@.len(),
    ensures
        r == (s@.subrange(pos as int, pos + w@.len()) == w@),
{
    let ghost sub = s@.subrange(pos as int, pos + w@.len());
    let slen = s.len();
    let mut k: usize = 0;
    while k < w.len()
        invariant
            slen == s@.len(),
            pos + w@.len() <= s@.len(),
            0 <= k <= w@.len(),
            sub == s@.subrange(pos as int, pos + w@.len()),
            forall|t: int| 0 <= t < k ==> s@[pos + t] == w@[t],
        decreases w@.len() - k,
    {
        if s[pos + k] != w[k] {
            proof {
                assert(sub[k as int] == s@[pos + k]);
            }
            return false;
        }
        k += 1;
    }
    proof {
        assert(sub =~= w@);
    }
    true
}

/// Append all bytes of `s` to `out`.
fn push_bytes(out: &mut Vec<u8>, s: &[u8])
    ensures
        final(out)@ == old(out)@ + s@,
{
    let slen = s.len();
    let mut t: usize = 0;
    while t < slen
        invariant
            slen == s@.len(),
            t <= slen,
            out@ == old(out)@ + s@.subrange(0, t as int),
        decreases slen - t,
    {
        out.push(s[t]);
        proof {
            assert(s@.subrange(0, t + 1 as int) =~= s@.subrange(0, t as int).push(s@[t as int]));
            assert((old(out)@ + s@.subrange(0, t as int)).push(s@[t as int]) =~= old(out)@
                + s@.subrange(0, t as int).push(s@[t as int]));
        }
        t += 1;
    }
    proof {
        assert(s@.subrange(0, slen as int) =~= s@);
    }
}

/// Relies on std's `String::from_utf8`: it succeeds exactly when the bytes
/// are valid UTF-8, and the returned string holds exactly those bytes.
#[verifier::external_body]
fn string_from_utf8(bytes: Vec<u8>) -> (r: Option<String>)
    ensures
        r is Some <==> valid_utf8(bytes@),
        r matches Some(s) ==> s@ == decode_utf8(bytes@),
{
    String::from_utf8(bytes).ok()
}

/// A nonempty sequence of characters encodes to at least one byte.
proof fn lemma_encode_utf8_nonempty(chars: Seq<char>)
    requires
        chars.len() >= 1,
    ensures
        encode_utf8(chars).len() >= 1,
{
    assert(encode_scalar(chars[0] as u32).len() >= 1);
}

impl<'a> Compressor<'a> {
    #[verifier::type_invariant]
    spec fn inv(self) -> bool {
        self@.wf()
    }

    /// Build an engine over the given word table and bigram table.
    ///
    /// Fails with `TooManyWords` when more than 256 words are supplied
    /// (word indices must fit in one byte), and with `InvalidBigramTable`
    /// when the bigram table is not exactly 128 two-byte entries.
    pub fn new(words: &'a Vec<String>, bi_grams: &'a str) -> (r: Result<
        Compressor<'a>,
        SmazError,
    >)
        requires
            forall|i: int| 0 <= i < words@.len() ==> (#[trigger] words@[i])@.len() >= 1,
        ensures
            r is Ok <==> (words@.len() <= 256 && bi_grams.spec_bytes().len() == 256),
            match r {
                Ok(c) => {
                    &&& c@.words == words_view(words@)
                    &&& c@.bigrams == bi_grams.spec_bytes()
                    &&& c@.wf()
                },
                Err(e) => {
                    &&& (e == SmazError::TooManyWords <==> words@.len() > 256)
                    &&& (e == SmazError::InvalidBigramTable <==> (words@.len() <= 256
                        && bi_grams.spec_bytes().len() != 256))
                },
            },
    {
        if words.len() > 256 {
            return Err(SmazError::TooManyWords);
        }
        if bi_grams.as_bytes().len() != 256 {
            return Err(SmazError::InvalidBigramTable);
        }
        proof {
            let mapped = words_view(words@);
            assert forall|i: int| 0 <= i < mapped.len() implies (#[trigger] mapped[i]).len()
                >= 1 by {
                lemma_encode_utf8_nonempty(words@[i]@);
            }
        }
        Ok(Compressor { words, bi_grams })
    }

    /// The word the encoder picks at cursor `pos`, with the control byte of
    /// its matching spacing variant: the lowest table index wins, and for
    /// that word a leading space beats a trailing space beats a bare match.
    fn word_lookup(&self, s: &[u8], pos: usize) -> (r: Option<(usize, u8)>)
        requires
            pos <= s@.len(),
        ensures
            match r {
                Some(iv) => {
                    &&& find_word(self@.words, s@.skip(pos as int)) == Some(iv.0 as int)
                    &&& iv.0 < self@.words.len()
                    &&& variant_of(self@.words[iv.0 as int], s@.skip(pos as int)) == Some(iv.1)
                },
                None => find_word(self@.words, s@.skip(pos as int)) is None,
            },
    {
        let ghost tail = s@.skip(pos as int);
        let ghost dwords = self@.words;
        let mut i: usize = 0;
        while i < self.words.len()
            invariant
                pos <= s@.len(),
                tail == s@.skip(pos as int),
                dwords == self@.words,
                dwords.len() == self.words@.len(),
                i <= dwords.len(),
                forall|j: int| 0 <= j < i ==> #[trigger] variant_of(dwords[j], tail) is None,
            decreases dwords.len() - i,
        {
            let wb = self.words[i].as_str().as_bytes();
            let wlen = wb.len();
            let remaining = s.len() - pos;
            let ghost w = dwords[i as int];
            proof {
                assert(w == wb@);
                assert(tail.len() == s@.len() - pos);
                if pos + 1 + w.len() <= s@.len() {
                    assert(tail.subrange(1, w.len() + 1 as int) =~= s@.subrange(
                        pos + 1 as int,
                        pos + 1 + w.len(),
                    ));
                }
                if pos + w.len() <= s@.len() {
                    assert(tail.subrange(0, w.len() as int) =~= s@.subrange(
                        pos as int,
                        pos + w.len(),
                    ));
                }
                if pos < s@.len() {
                    assert(tail[0] == s@[pos as int]);
                }
                if pos + w.len() < s@.len() {
                    assert(tail[w.len() as int] == s@[pos + w.len()]);
                }
            }
            if remaining > wlen && is_space_byte(s[pos]) && bytes_eq_at(s, pos + 1, wb) {
                proof {
                    lemma_find_word_some(dwords, tail, i as int);
                }
                return Some((i, 8));
            }
            let bare = remaining >= wlen && bytes_eq_at(s, pos, wb);
            if bare {
                if remaining > wlen && is_space_byte(s[pos + wlen]) {
                    proof {
                        lemma_find_word_some(dwords, tail, i as int);
                    }
                    return Some((i, 7));
                }
                proof {
                    lemma_find_word_some(dwords, tail, i as int);
                }
                return Some((i, 6));
            }
            proof {
                assert(variant_of(w, tail) is None);
            }
            i += 1;
        }
        proof {
            lemma_find_word_none(dwords, tail);
        }
        None
    }

    /// The bigram table entry the encoder picks at cursor `pos`, if any:
    /// the lowest index whose two bytes equal the two under the cursor.
    fn bigram_lookup(&self, s: &[u8], pos: usize) -> (r: Option<u8>)
        requires
            pos <= s@.len(),
        ensures
            match r {
                Some(j) => {
                    &&& find_bigram(self@.bigrams, s@.skip(pos as int)) == Some(j as int)
                    &&& j < 128
                },
                None => find_bigram(self@.bigrams, s@.skip(pos as int)) is None,
            },
    {
        proof {
            use_type_invariant(&*self);
        }
        let ghost tail = s@.skip(pos as int);
        let ghost dbg = self@.bigrams;
        let bg = self.bi_grams.as_bytes();
        let remaining = s.len() - pos;
        if remaining < 2 {
            proof {
                assert(forall|j: int| 0 <= j < dbg.len() / 2 ==> !#[trigger] bigram_hit(
                    dbg,
                    tail,
                    j,
                ));
                lemma_find_bigram_none(dbg, tail);
            }
            return None;
        }
        proof {
            assert(tail[0] == s@[pos as int]);
            assert(tail[1] == s@[pos + 1]);
        }
        let mut j: usize = 0;
        while j < 128
            invariant
                pos + 2 <= s@.len(),
                tail == s@.skip(pos as int),
                tail.len() >= 2,
                tail[0] == s@[pos as int],
                tail[1] == s@[pos + 1],
                dbg == self@.bigrams,
                dbg.len() == 256,
                bg@ == dbg,
                j <= 128,
                forall|t: int| 0 <= t < j ==> !#[trigger] bigram_hit(dbg, tail, t),
            decreases 128 - j,
        {
            if bg[2 * j] == s[pos] && bg[2 * j + 1] == s[pos + 1] {
                proof {
                    assert(bigram_hit(dbg, tail, j as int));
                    lemma_find_bigram_some(dbg, tail, j as int);
                }
                return Some(j as u8);
            }
            proof {
                assert(!bigram_hit(dbg, tail, j as int));
            }
            j += 1;
        }
        proof {
            lemma_find_bigram_none(dbg, tail);
        }
        None
    }

    /// Encode `input` as a token stream over this dictionary.
    ///
    /// At every cursor position the most specific applicable encoding wins:
    /// a word match (lowest table index first), then a bigram match (only
    /// attempted with strictly more than two bytes left), then a literal
    /// byte, then a verbatim escape run of at most five raw bytes.
    pub fn compress_bytes(&self, input: &[u8]) -> (r: Vec<u8>)
        ensures
            r@ == encode_from(self@, input@),
            self@.wf(),
    {
        proof {
            use_type_invariant(&*self);
        }
        let ghost d = self@;
        let mut out: Vec<u8> = Vec::new();
        let mut pos: usize = 0;
        let len = input.len();
        proof {
            assert(input@.skip(0) =~= input@);
            assert(Seq::<u8>::empty() + encode_from(d, input@) =~= encode_from(d, input@));
        }
        while pos < len
            invariant
                len == input@.len(),
                pos <= len,
                d == self@,
                d.wf(),
                out@ + encode_from(d, input@.skip(pos as int)) == encode_from(d, input@),
            decreases len - pos,
        {
            let ghost tail = input@.skip(pos as int);
            proof {
                assert(tail.len() == len - pos);
                lemma_step_bounds(d, tail);
            }
            let ghost tok = encode_step(d, tail).0;
            let ghost n = encode_step(d, tail).1;
            let ghost out0 = out@;
            let mut consumed: usize = 0;
            if let Some((i, v)) = self.word_lookup(input, pos) {
                let wb = self.words[i].as_str().as_bytes();
                let ghost w = d.words[i as int];
                proof {
                    assert(w == wb@);
                    if v != 6 {
                        assert(tail.len() >= w.len() + 1);
                    } else {
                        assert(tail.len() >= w.len());
                    }
                }
                out.push(v);
                out.push(i as u8);
                consumed = if v == 6 {
                    wb.len()
                } else {
                    wb.len() + 1
                };
                proof {
                    assert(tok =~= seq![v, i as u8]);
                    assert(consumed == n);
                    assert(out@ =~= out0 + tok);
                }
            } else {
                let remaining = len - pos;
                let bg_hit = if remaining > 2 {
                    self.bigram_lookup(input, pos)
                } else {
                    None
                };
                if let Some(j) = bg_hit {
                    out.push(128 + j);
                    consumed = 2;
                    proof {
                        assert(tok =~= seq![(128 + j as int) as u8]);
                        assert(out@ =~= out0 + tok);
                        assert(consumed == n);
                    }
                } else {
                    let b = input[pos];
                    proof {
                        assert(tail[0] == input@[pos as int]);
                    }
                    if b == 0 || (9 <= b && b <= 127) {
                        out.push(b);
                        consumed = 1;
                        proof {
                            assert(tok =~= seq![b]);
                            assert(out@ =~= out0 + tok);
                            assert(consumed == n);
                        }
                    } else {
                        proof {
                            assert(!matchable(d, tail));
                            assert(run_len(d, tail, 5) == 1 + run_len(d, tail.skip(1), 4));
                            assert(tail.skip(1) =~= input@.skip(pos + 1));
                        }
                        let ghost rn = run_len(d, tail, 5);
                        let mut k: usize = 1;
                        while k < 5 && len - pos > k && !self.is_matchable_at(input, pos + k)
                            invariant
                                d == self@,
                                d.wf(),
                                len == input@.len(),
                                pos < len,
                                1 <= k <= 5,
                                k <= len - pos,
                                tail == input@.skip(pos as int),
                                rn == run_len(d, tail, 5),
                                rn == k + run_len(d, input@.skip(pos + k), 5 - k),
                            decreases 5 - k,
                        {
                            proof {
                                let rest = input@.skip(pos + k);
                                assert(rest.len() == len - pos - k);
                                assert(rest.skip(1) =~= input@.skip(pos + k + 1));
                                assert(run_len(d, rest, 5 - k) == 1 + run_len(
                                    d,
                                    rest.skip(1),
                                    5 - k - 1,
                                ));
                            }
                            k += 1;
                        }
                        proof {
                            assert(run_len(d, input@.skip(pos + k), 5 - k) == 0);
                            assert(rn == k);
                        }
                        out.push(k as u8);
                        push_bytes(&mut out, slice_subrange(input, pos, pos + k));
                        consumed = k;
                        proof {
                            assert(tail.subrange(0, k as int) =~= input@.subrange(
                                pos as int,
                                pos + k,
                            ));
                            assert(tok =~= seq![rn as u8] + tail.subrange(0, rn));
                            assert(out@ =~= (out0.push(k as u8)) + input@.subrange(
                                pos as int,
                                pos + k,
                            ));
                            assert(out@ =~= out0 + tok);
                            assert(consumed == n);
                        }
                    }
                }
            }
            proof {
                assert(encode_from(d, tail) == tok + encode_from(d, tail.skip(n)));
                assert(tail.skip(n) =~= input@.skip(pos + consumed));
                assert((out0 + tok) + encode_from(d, tail.skip(n)) =~= out0 + (tok + encode_from(
                    d,
                    tail.skip(n),
                )));
            }
            pos = pos + consumed;
        }
        proof {
            assert(input@.skip(pos as int) =~= Seq::<u8>::empty());
            assert(out@ =~= encode_from(d, input@));
        }
        out
    }

    /// Encode a string: its UTF-8 bytes run through `compress_bytes`.
    pub fn compress(&self, original: &str) -> (r: Vec<u8>)
        ensures
            r@ == encode_from(self@, original.spec_bytes()),
            self@.wf(),
    {
        self.compress_bytes(original.as_bytes())
    }

    /// Decode a token stream back to the bytes it was encoded from.
    ///
    /// Parses strictly left to right; each control byte fixes its token's
    /// length. Fails with `WordIndexOutOfRange` when a word token names an
    /// index with no dictionary entry, and with `TruncatedStream` when a
    /// token's declared length runs past the end of the stream.
    pub fn decompress_bytes(&self, encoded: &[u8]) -> (r: Result<Vec<u8>, SmazError>)
        ensures
            match r {
                Ok(out) => decode_from(self@, encoded@) == Ok::<Seq<u8>, SmazError>(out@),
                Err(e) => decode_from(self@, encoded@) == Err::<Seq<u8>, SmazError>(e),
            },
            self@.wf(),
    {
        proof {
            use_type_invariant(&*self);
        }
        let ghost d = self@;
        let mut out: Vec<u8> = Vec::new();
        let mut i: usize = 0;
        let len = encoded.len();
        let bg = self.bi_grams.as_bytes();
        proof {
            assert(encoded@.skip(0) =~= encoded@);
            assert(prepend_decoded(Seq::<u8>::empty(), decode_from(d, encoded@)) == decode_from(
                d,
                encoded@,
            )) by {
                match decode_from(d, encoded@) {
                    Ok(rest) => {
                        assert(Seq::<u8>::empty() + rest =~= rest);
                    },
                    Err(_) => {},
                }
            }
        }
        while i < len
            invariant
                len == encoded@.len(),
                i <= len,
                d == self@,
                d.wf(),
                bg@ == d.bigrams,
                decode_from(d, encoded@) == prepend_decoded(
                    out@,
                    decode_from(d, encoded@.skip(i as int)),
                ),
            decreases len - i,
        {
            let ghost tail = encoded@.skip(i as int);
            let ghost out0 = out@;
            proof {
                assert(tail[0] == encoded@[i as int]);
                assert(tail.len() == len - i);
            }
            let c = encoded[i];
            if c >= 128 {
                let j = (c - 128) as usize;
                let ghost piece = d.bigram_at(j as int);
                out.push(bg[2 * j]);
                out.push(bg[2 * j + 1]);
                proof {
                    assert(tail.skip(1) =~= encoded@.skip(i + 1));
                    assert(out@ =~= out0 + piece);
                    lemma_prepend_assoc(out0, piece, decode_from(d, encoded@.skip(i + 1)));
                }
                i += 1;
            } else if 1 <= c && c <= 5 {
                let n = c as usize;
                if len - i - 1 < n {
                    proof {
                        assert(decode_from(d, tail) == Err::<Seq<u8>, SmazError>(
                            SmazError::TruncatedStream,
                        ));
                    }
                    return Err(SmazError::TruncatedStream);
                }
                let ghost piece = tail.subrange(1, 1 + n as int);
                push_bytes(&mut out, slice_subrange(encoded, i + 1, i + 1 + n));
                proof {
                    assert(piece =~= encoded@.subrange(i + 1 as int, i + 1 + n as int));
                    assert(tail.skip(1 + n as int) =~= encoded@.skip(i + 1 + n));
                    assert(out@ =~= out0 + piece);
                    lemma_prepend_assoc(out0, piece, decode_from(d, encoded@.skip(i + 1 + n)));
                }
                i += 1 + n;
            } else if 6 <= c && c <= 8 {
                if len - i < 2 {
                    proof {
                        assert(decode_from(d, tail) == Err::<Seq<u8>, SmazError>(
                            SmazError::TruncatedStream,
                        ));
                    }
                    return Err(SmazError::TruncatedStream);
                }
                let idx = encoded[i + 1] as usize;
                proof {
                    assert(tail[1] == encoded@[i + 1]);
                }
                if idx >= self.words.len() {
                    proof {
                        assert(decode_from(d, tail) == Err::<Seq<u8>, SmazError>(
                            SmazError::WordIndexOutOfRange,
                        ));
                    }
                    return Err(SmazError::WordIndexOutOfRange);
                }
                let wb = self.words[idx].as_str().as_bytes();
                let ghost w = d.words[idx as int];
                let ghost piece = if c == 8 {
                    seq![32u8] + w
                } else if c == 7 {
                    w + seq![32u8]
                } else {
                    w
                };
                if c == 8 {
                    out.push(32);
                }
                push_bytes(&mut out, wb);
                if c == 7 {
                    out.push(32);
                }
                proof {
                    assert(w == wb@);
                    assert(tail.skip(2) =~= encoded@.skip(i + 2));
                    assert(out@ =~= out0 + piece);
                    lemma_prepend_assoc(out0, piece, decode_from(d, encoded@.skip(i + 2)));
                }
                i += 2;
            } else {
                out.push(c);
                proof {
                    assert(tail.skip(1) =~= encoded@.skip(i + 1));
                    assert(out@ =~= out0 + seq![c]);
                    lemma_prepend_assoc(out0, seq![c], decode_from(d, encoded@.skip(i + 1)));
                }
                i += 1;
            }
        }
        proof {
            assert(encoded@.skip(len as int) =~= Seq::<u8>::empty());
            assert(out@ + Seq::<u8>::empty() =~= out@);
        }
        Ok(out)
    }

    /// Decode a token stream and validate the result as UTF-8 text.
    ///
    /// On top of the decoder's own failures, fails with `InvalidEncoding`
    /// when the decoded byte buffer is not valid UTF-8 — the sign of a
    /// dictionary mismatch or a corrupted stream.
    pub fn decompress(&self, encoded: Vec<u8>) -> (r: Result<String, SmazError>)
        ensures
            match decode_from(self@, encoded@) {
                Ok(b) => if valid_utf8(b) {
                    r matches Ok(s) && s@ == decode_utf8(b)
                } else {
                    r == Err::<String, SmazError>(SmazError::InvalidEncoding)
                },
                Err(e) => r == Err::<String, SmazError>(e),
            },
            self@.wf(),
    {
        let bytes = match self.decompress_bytes(encoded.as_slice()) {
            Ok(b) => b,
            Err(e) => {
                return Err(e);
            },
        };
        match string_from_utf8(bytes) {
            Some(s) => Ok(s),
            None => Err(SmazError::InvalidEncoding),
        }
    }

    /// Whether the encoder can emit something other than an escape at
    /// cursor `pos`: a word, a bigram (with more than two bytes left), or a
    /// safe literal byte.
    fn is_matchable_at(&self, s: &[u8], pos: usize) -> (r: bool)
        requires
            pos < s@.len(),
        ensures
            r == matchable(self@, s@.skip(pos as int)),
    {
        let ghost tail = s@.skip(pos as int);
        if self.word_lookup(s, pos).is_some() {
            return true;
        }
        let remaining = s.len() - pos;
        if remaining > 2 {
            if self.bigram_lookup(s, pos).is_some() {
                return true;
            }
        }
        let b = s[pos];
        proof {
            assert(tail[0] == s@[pos as int]);
            assert(tail.len() == s@.len() - pos);
        }
        b == 0 || (9 <= b && b <= 127)
    }
}

} // verus!
