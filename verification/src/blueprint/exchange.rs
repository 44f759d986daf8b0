//! The exchange string of a blueprint: its JSON, compressed and in base64.

use base64::Engine;
use std::io::Write;
use vstd::prelude::*;
use crate::text;

verus! {

/// The error of an in-memory write.
#[verifier::external_type_specification]
#[verifier::external_body]
pub struct ExIoError(std::io::Error);

/// What the ZLIB encoder of flate2 makes of a text at its default compression level:
/// the compressed bytes, or nothing where it reports an error.
pub uninterp spec fn zlib_bytes(text: Seq<char>) -> Option<Seq<u8>>;

/// What the standard base64 engine, with padding, makes of some bytes.
pub uninterp spec fn base64_text(bytes: Seq<u8>) -> Seq<char>;

/// Why a blueprint has no exchange string.
#[derive(Clone, Copy, Debug, PartialEq, Eq, Structural)]
pub enum ExchangeError {
    /// The encoder reported an error.
    Compression,
    /// The compressed blueprint has no base64 form that fits in memory.
    TooLong,
}

/// How long the base64 form of so many bytes is: four characters for every three bytes
/// or part of three.
pub open spec fn base64_length(len: nat) -> nat {
    (len + 2) / 3 * 4
}

/// Whether the base64 form of so many bytes fits in memory.
pub open spec fn encodable(len: nat) -> bool {
    base64_length(len) <= isize::MAX
}

/// The exchange string around a base64 payload: the format's version digit and the
/// payload.
pub open spec fn exchange_text(payload: Seq<char>) -> Seq<char> {
    "0"@ + payload
}

/// The exchange string of a blueprint whose compressed JSON is known: none if the
/// encoder reported an error or if the base64 form does not fit in memory.
pub open spec fn exchanged(compressed: Option<Seq<u8>>) -> Result<Seq<char>, ExchangeError> {
    match compressed {
        None => Err(ExchangeError::Compression),
        Some(bytes) => if encodable(bytes.len()) {
            Ok(exchange_text(base64_text(bytes)))
        } else {
            Err(ExchangeError::TooLong)
        },
    }
}

/// `flate2::write::ZlibEncoder` over a vector, at the default compression: the bytes
/// that it hands out once the text is written and the stream finished. It writes to
/// memory only, so the text alone decides whether it succeeds, and on which bytes; that
/// it succeeds on every text is not claimed.
#[verifier::external_body]
fn compress(json: &str) -> (r: Result<Vec<u8>, std::io::Error>)
    ensures
        r is Ok <==> zlib_bytes(json@) is Some,
        r matches Ok(bytes) ==> zlib_bytes(json@) == Some(bytes@),
{
    let mut encoder = flate2::write::ZlibEncoder::new(Vec::new(), flate2::Compression::default());
    encoder.write_all(json.as_bytes())?;
    encoder.finish()
}

/// `base64::engine::general_purpose::STANDARD.encode`: the text of some bytes, padded to
/// four characters for every three bytes or part of three. It panics where that text
/// would be too long.
#[verifier::external_body]
fn encode(bytes: &Vec<u8>) -> (r: String)
    requires
        encodable(bytes@.len()),
    ensures
        r@ == base64_text(bytes@),
        r@.len() == base64_length(bytes@.len()),
{
    base64::engine::general_purpose::STANDARD.encode(bytes)
}

/// The exchange string of a compressed blueprint.
pub fn encode_payload(compressed: &Vec<u8>) -> (r: String)
    requires
        encodable(compressed@.len()),
    ensures
        r@ == exchange_text(base64_text(compressed@)),
        r@.len() == 1 + base64_length(compressed@.len()),
{
    let payload = encode(compressed);
    let mut s = text::begin("0");
    proof {
        reveal_strlit("0");
    }
    text::push(&mut s, payload.as_str());
    s
}

/// The exchange string of a blueprint given as JSON: a zero, then the compressed JSON in
/// base64.
pub fn blueprint_string(json: &str) -> (r: Result<String, ExchangeError>)
    ensures
        exchanged(zlib_bytes(json@)) == match r {
            Ok(s) => Ok::<Seq<char>, ExchangeError>(s@),
            Err(e) => Err(e),
        },
        r matches Ok(s) ==> s@.len() == 1 + base64_length((zlib_bytes(json@)->0).len()),
{
    match compress(json) {
        Err(_) => Err(ExchangeError::Compression),
        Ok(bytes) => {
            let limit: usize = isize::MAX as usize / 4 * 3;
            if bytes.len() > limit {
                assert(!encodable(bytes@.len()));
                return Err(ExchangeError::TooLong);
            }
            Ok(encode_payload(&bytes))
        },
    }
}

/// An exchange string is a zero and the base64 form of the compressed blueprint. There is
/// none where the encoder reports an error, or where the string would be too long.
pub proof fn law_what_an_exchange_string_holds(compressed: Option<Seq<u8>>)
    ensures
        compressed is None <==> exchanged(compressed) == Err::<Seq<char>, ExchangeError>(
            ExchangeError::Compression,
        ),
        compressed matches Some(bytes) ==> (exchanged(compressed) is Ok <==> base64_length(
            bytes.len(),
        ) <= isize::MAX),
        exchanged(compressed) matches Ok(s) ==> {
            &&& compressed is Some
            &&& s.len() > 0
            &&& s[0] == '0'
            &&& s.subrange(1, s.len() as int) == base64_text(compressed->0)
        },
{
    reveal_strlit("0");
    if let Ok(s) = exchanged(compressed) {
        let t = base64_text(compressed->0);
        assert(s.subrange(1, s.len() as int) =~= t);
    }
}

/// The base64 form is made of groups of four characters, as few as hold three bytes each.
pub proof fn law_base64_groups_hold_three_bytes(len: nat)
    ensures
        base64_length(len) % 4 == 0,
        3 * (base64_length(len) / 4) >= len,
        len > 0 ==> 3 * (base64_length(len) / 4 - 1) < len,
{
}

} // verus!
