//! The form in which fields are handed to the accumulator.

use vstd::prelude::*;
use vstd::utf8::{encode_utf8, valid_utf8};

verus! {

/// Why a stretch of bytes is not text.
pub struct TextError {
    /// The length of the longest prefix that is text.
    pub valid_up_to: usize,
    /// The length of the offending sequence; `None` if the bytes end inside one.
    pub error_len: Option<usize>,
}

/// `n` is the length of the longest prefix of `bytes` that is text.
pub open spec fn longest_text(bytes: Seq<u8>, n: int) -> bool {
    &&& 0 <= n <= bytes.len()
    &&& valid_utf8(bytes.take(n))
    &&& forall|m: int| n < m <= bytes.len() ==> !valid_utf8(#[trigger] bytes.take(m))
}

/// `bytes` can go on to become text.
pub open spec fn completable(bytes: Seq<u8>) -> bool {
    exists|more: Seq<u8>| valid_utf8(#[trigger] (bytes + more))
}

/// Calls `simdutf8::compat::from_utf8`, the analogue of `std::str::from_utf8`:
/// the bytes as text where they are valid UTF-8. Where they are not, the error
/// gives the longest valid prefix, and tells a sequence that is cut off by the
/// end of the bytes, one to three bytes before it, from bytes that no
/// continuation makes valid.
#[verifier::external_body]
fn check_text<'a>(bytes: &'a [u8]) -> (r: Result<&'a str, TextError>)
    ensures
        match r {
            Ok(text) => valid_utf8(bytes@) && encode_utf8(text@) == bytes@,
            Err(e) => {
                &&& !valid_utf8(bytes@)
                &&& longest_text(bytes@, e.valid_up_to as int)
                &&& e.error_len is None ==> bytes@.len() - e.valid_up_to <= 3 && completable(
                    bytes@.skip(e.valid_up_to as int),
                )
                &&& e.error_len is Some ==> !completable(bytes@.skip(e.valid_up_to as int))
            },
        },
{
    match simdutf8::compat::from_utf8(bytes) {
        Ok(text) => Ok(text),
        Err(e) => Err(TextError { valid_up_to: e.valid_up_to(), error_len: e.error_len() }),
    }
}

/// Trait abstracting over field output types — the form in which a
/// parsed field is handed to the user's callback.
///
/// Implemented for `str` (UTF-8 validated) and `[u8]` (raw bytes).
pub trait Output {
    /// The bytes of the field.
    spec fn bytes(&self) -> Seq<u8>;

    /// Whether a field has to be valid UTF-8.
    spec fn textual() -> bool;

    /// Whether the parser must reject non-ASCII control bytes.
    ///
    /// `true` for `str`: a delimiter set to a UTF-8 continuation byte
    /// would cut a multi-byte sequence in half. `false` for `[u8]`.
    fn requires_ascii_control_bytes() -> (r: bool)
        ensures
            r == Self::textual(),
    ;

    /// Validate a raw chunk of bytes: how much of it can be handed out, with
    /// what is left to be completed by later bytes; or where it goes wrong.
    fn validate_chunk(bytes: &[u8]) -> (r: Result<usize, usize>)
        ensures
            match r {
                Ok(n) => {
                    &&& n <= bytes@.len()
                    &&& Self::textual() ==> longest_text(bytes@, n as int) && bytes@.len() - n <= 3
                        && completable(bytes@.skip(n as int))
                    &&& !Self::textual() ==> n == bytes@.len()
                },
                Err(n) => {
                    &&& Self::textual()
                    &&& longest_text(bytes@, n as int)
                    &&& !completable(bytes@.skip(n as int))
                },
            },
    ;

    /// The field that these bytes are.
    fn of_bytes<'a>(bytes: &'a [u8]) -> (r: &'a Self)
        requires
            Self::textual() ==> valid_utf8(bytes@),
        ensures
            r.bytes() == bytes@,
    ;
}

impl Output for str {
    open spec fn bytes(&self) -> Seq<u8> {
        encode_utf8(self@)
    }

    open spec fn textual() -> bool {
        true
    }

    fn requires_ascii_control_bytes() -> (r: bool) {
        true
    }

    fn validate_chunk(bytes: &[u8]) -> (r: Result<usize, usize>) {
        match check_text(bytes) {
            Ok(_) => {
                proof {
                    assert(bytes@.take(bytes@.len() as int) =~= bytes@);
                    let tail = bytes@.skip(bytes@.len() as int);
                    assert(tail + seq![] =~= seq![]);
                    assert(valid_utf8(tail + seq![]));
                }
                Ok(bytes.len())
            },
            Err(e) => match e.error_len {
                // ended mid-sequence: fine during incremental parsing
                None => Ok(e.valid_up_to),
                Some(_) => Err(e.valid_up_to),
            },
        }
    }

    fn of_bytes<'a>(bytes: &'a [u8]) -> (r: &'a Self) {
        match check_text(bytes) {
            Ok(text) => text,
            Err(_) => "",
        }
    }
}

impl Output for [u8] {
    open spec fn bytes(&self) -> Seq<u8> {
        self@
    }

    open spec fn textual() -> bool {
        false
    }

    fn requires_ascii_control_bytes() -> (r: bool) {
        false
    }

    /// Raw bytes need no validation; every byte sequence is valid.
    fn validate_chunk(bytes: &[u8]) -> (r: Result<usize, usize>) {
        Ok(bytes.len())
    }

    fn of_bytes<'a>(bytes: &'a [u8]) -> (r: &'a Self) {
        bytes
    }
}

/// A field handed out as text is the text that its bytes encode, one handed out as bytes is
/// the bytes; and only text has to be valid.
pub proof fn fields_are_their_bytes(text: &str, bytes: &[u8])
    ensures
        Output::bytes(text) == encode_utf8(text@),
        Output::bytes(bytes) == bytes@,
        <str as Output>::textual(),
        !<[u8] as Output>::textual(),
{
}

/// The longest text is the longest: up to there the bytes are valid text, and up to no later
/// byte.
pub proof fn the_longest_text_is_the_longest(bytes: Seq<u8>, n: int)
    requires
        longest_text(bytes, n),
    ensures
        0 <= n <= bytes.len(),
        valid_utf8(bytes.take(n)),
        forall|m: int| n < m <= bytes.len() ==> !valid_utf8(#[trigger] bytes.take(m)),
{
}

} // verus!
