use vstd::prelude::*;

verus! {

/// Failures reported by dictionary construction and by the decoder.
#[derive(Debug, Clone, Copy, PartialEq, Eq, Structural)]
pub enum SmazError {
    /// More than 256 words were supplied: word indices must fit in one byte.
    TooManyWords,
    /// The bigram table is not exactly 128 two-byte entries (256 bytes).
    InvalidBigramTable,
    /// A word token names an index with no entry in the dictionary.
    WordIndexOutOfRange,
    /// A token's declared length runs past the end of the stream.
    TruncatedStream,
    /// The decoded byte buffer is not valid UTF-8 text.
    InvalidEncoding,
}

impl SmazError {
    /// A short human-readable description of the failure.
    pub fn message(&self) -> &'static str {
        match self {
            SmazError::TooManyWords => "too many words: a dictionary holds at most 256",
            SmazError::InvalidBigramTable => "bigram table must be exactly 128 two-byte entries",
            SmazError::WordIndexOutOfRange => "word index has no entry in the dictionary",
            SmazError::TruncatedStream => "token length runs past the end of the stream",
            SmazError::InvalidEncoding => "decoded bytes are not valid text",
        }
    }
}

} // verus!
