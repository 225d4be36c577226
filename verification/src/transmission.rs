//! Framing of the binary payloads exchanged with the editor: the payload's
//! bytes travel as standard, padded base64 text inside a JSON string.

use vstd::prelude::*;

verus! {

/// Standard base64's decoding error.
#[verifier::external_type_specification]
#[verifier::external_body]
pub struct ExDecodeError(base64::DecodeError);

/// The text that standard, padded base64 encodes `bytes` as.
pub uninterp spec fn base64_standard_encoding(bytes: Seq<u8>) -> Seq<char>;

/// The bytes that standard, padded base64 decodes `text` to, or `None` when
/// `text` is not valid base64.
pub uninterp spec fn base64_standard_decoding(text: Seq<char>) -> Option<Seq<u8>>;

/// Length of the padded base64 text of `n` bytes: four characters for each
/// started group of three bytes.
pub open spec fn encoded_len(n: int) -> int {
    4 * ((n + 2) / 3)
}

/// Calls `base64::Engine::encode` with the `STANDARD` engine (padded
/// standard alphabet); its result is named [`base64_standard_encoding`].
/// The engine panics when the text's length overflows `usize`, which the
/// precondition rules out.
#[verifier::external_body]
fn encode_base64(bytes: &[u8]) -> (r: String)
    requires
        encoded_len(bytes@.len() as int) <= usize::MAX,
    ensures
        r@ == base64_standard_encoding(bytes@),
{
    base64::Engine::encode(&base64::engine::general_purpose::STANDARD, bytes)
}

/// Calls `base64::Engine::decode` with the `STANDARD` engine; its success is
/// named [`base64_standard_decoding`]. The engine requires canonical padding
/// and rejects non-zero trailing bits, so the text of an encoding decodes
/// to the bytes it encodes (the crate's own round-trip example); nothing is
/// said of which error a malformed text gives.
#[verifier::external_body]
fn decode_base64(text: &str) -> (r: Result<Vec<u8>, base64::DecodeError>)
    ensures
        (r is Ok) == (base64_standard_decoding(text@) is Some),
        r is Ok ==> base64_standard_decoding(text@) == Some(r->Ok_0@),
        forall|b: Seq<u8>|
            text@ == #[trigger] base64_standard_encoding(b) ==> (r is Ok && r->Ok_0@ == b),
{
    base64::Engine::decode(&base64::engine::general_purpose::STANDARD, text)
}

/// Why a payload could not be read.
#[derive(Clone, Copy, Debug, PartialEq, Eq, Structural)]
pub enum TransmissionError {
    /// The JSON value holding the payload is not a string.
    NotAString,
    /// The string is not valid standard base64.
    InvalidBase64,
}

/// The text that carries a payload: its bytes in standard, padded base64.
pub fn encode_payload(bytes: &[u8]) -> (r: String)
    requires
        encoded_len(bytes@.len() as int) <= usize::MAX,
    ensures
        r@ == base64_standard_encoding(bytes@),
{
    encode_base64(bytes)
}

/// The bytes of a payload, from the text of the JSON value that carries it
/// (`None` when the value is not a string). The text of an encoded payload
/// gives back the payload's bytes.
pub fn decode_payload(text: Option<&str>) -> (r: Result<Vec<u8>, TransmissionError>)
    ensures
        text is None ==> r == Err::<Vec<u8>, TransmissionError>(TransmissionError::NotAString),
        text is Some ==> match base64_standard_decoding(text->0@) {
            Some(b) => r is Ok && r->Ok_0@ == b,
            None => r == Err::<Vec<u8>, TransmissionError>(TransmissionError::InvalidBase64),
        },
        text is Some ==> forall|b: Seq<u8>|
            text->0@ == #[trigger] base64_standard_encoding(b) ==> (r is Ok && r->Ok_0@ == b),
{
    let t = match text {
        Some(t) => t,
        None => {
            return Err(TransmissionError::NotAString);
        },
    };
    match decode_base64(t) {
        Ok(v) => Ok(v),
        Err(_) => Err(TransmissionError::InvalidBase64),
    }
}

} // verus!
