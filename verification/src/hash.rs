//! Digests and their text form: keys made from text, and keys read from
//! hexadecimal digits.

use crate::types::NodeId;
use vstd::prelude::*;
use vstd::string::StringSliceAdditionalSpecFns;

verus! {

/// The SHA-1 digest of a byte string.
pub uninterp spec fn sha1_digest(data: Seq<u8>) -> Seq<u8>;

/// The error with which the crate `hex` refuses a text.
#[verifier::external_type_specification]
#[verifier::external_body]
pub struct ExFromHexError(hex::FromHexError);

/// The lower-case hexadecimal digit for a number below sixteen.
pub open spec fn hex_digit(n: u8) -> char {
    if n < 10 {
        (n + 48) as char
    } else {
        (n + 87) as char
    }
}

/// A byte string as text: two lower-case hexadecimal digits for each byte,
/// the high half first.
pub open spec fn hex_lower(bytes: Seq<u8>) -> Seq<char> {
    Seq::new(
        2 * bytes.len(),
        |i: int|
            hex_digit(
                if i % 2 == 0 {
                    bytes[i / 2] / 16
                } else {
                    bytes[i / 2] % 16
                },
            ),
    )
}

/// The number that a hexadecimal digit stands for, in either case; none for
/// a byte that is no such digit.
pub open spec fn hex_value(c: u8) -> Option<u8> {
    if 48 <= c <= 57 {
        Some((c - 48) as u8)
    } else if 97 <= c <= 102 {
        Some((c - 87) as u8)
    } else if 65 <= c <= 70 {
        Some((c - 55) as u8)
    } else {
        None
    }
}

/// Whether a text is made of hexadecimal digits, an even number of them.
pub open spec fn is_hex(text: Seq<u8>) -> bool {
    text.len() % 2 == 0 && forall|i: int| 0 <= i < text.len() ==> hex_value(#[trigger] text[i])
        is Some
}

/// The bytes that a text of hexadecimal digits stands for: one for each
/// two digits, the high half first.
pub open spec fn unhex(text: Seq<u8>) -> Seq<u8> {
    Seq::new(
        text.len() / 2,
        |i: int| (hex_value(text[2 * i]).unwrap() * 16 + hex_value(text[2 * i + 1]).unwrap()) as u8,
    )
}

/// Why a text is no key.
#[derive(Clone, Copy, Debug, PartialEq, Eq, Structural)]
pub enum KeyError {
    /// The text is not made of hexadecimal digits, or of an odd number of
    /// them.
    InvalidHex,
    /// The text does not stand for twenty bytes.
    InvalidLength,
}

/// The SHA-1 digest of `data`, computed by the crate `sha1` (`Sha1::new`,
/// `Digest::update`, `Digest::finalize`). The contract gives the digest its
/// name and claims nothing more of it.
#[verifier::external_body]
fn sha1_of(data: &[u8]) -> (digest: [u8; 20])
    ensures
        digest@ == sha1_digest(data@),
{
    let mut hasher = <::sha1::Sha1 as ::sha1::Digest>::new();
    ::sha1::Digest::update(&mut hasher, data);
    ::sha1::Digest::finalize(hasher).into()
}

/// The text form of `bytes`, made by `hex::encode`: by its documentation
/// and its source, two lower-case hexadecimal digits for each byte, the
/// high half first.
#[verifier::external_body]
fn hex_encode(bytes: &[u8]) -> (text: String)
    ensures
        text@ == hex_lower(bytes@),
{
    hex::encode(bytes)
}

/// The bytes that `text` stands for, read by `hex::decode`: by its source,
/// it succeeds exactly on an even number of hexadecimal digits, of either
/// case, and each two digits give one byte, the high half first.
#[verifier::external_body]
fn hex_decode(text: &[u8]) -> (r: Result<Vec<u8>, hex::FromHexError>)
    ensures
        r is Ok <==> is_hex(text@),
        r matches Ok(bytes) ==> bytes@ == unhex(text@),
{
    hex::decode(text)
}

/// The SHA-1 digest of `data`.
pub fn sha1(data: &[u8]) -> (digest: [u8; 20])
    ensures
        digest@ == sha1_digest(data@),
{
    sha1_of(data)
}

/// The text form of `bytes`: two lower-case hexadecimal digits for each.
pub fn to_hex(bytes: &[u8]) -> (text: String)
    ensures
        text@ == hex_lower(bytes@),
{
    hex_encode(bytes)
}

/// The bytes that a text of hexadecimal digits stands for; none where the
/// text is not an even number of such digits.
pub fn from_hex(text: &[u8]) -> (r: Option<Vec<u8>>)
    ensures
        match r {
            Some(bytes) => is_hex(text@) && bytes@ == unhex(text@),
            None => !is_hex(text@),
        },
{
    match hex_decode(text) {
        Ok(bytes) => Some(bytes),
        Err(_) => None,
    }
}

/// The SHA-1 digest of `data` as forty hexadecimal digits.
pub fn calculate_sha1(data: &[u8]) -> (text: String)
    ensures
        text@ == hex_lower(sha1_digest(data@)),
{
    let digest = sha1_of(data);
    hex_encode(digest.as_slice())
}

/// The SHA-1 digest of the text `data` as forty hexadecimal digits.
pub fn gen_sha1(data: &str) -> (text: String)
    ensures
        text@ == hex_lower(sha1_digest(data.spec_bytes())),
{
    calculate_sha1(data.as_bytes())
}

/// The key that stands for `input`: its SHA-1 digest.
pub fn generate_key_from_string(input: &str) -> (key: NodeId)
    ensures
        key@ == sha1_digest(input.spec_bytes()),
{
    NodeId::new(sha1_of(input.as_bytes()))
}

/// The key that the forty hexadecimal digits `hex_key` stand for.
pub fn parse_key(hex_key: &str) -> (r: Result<NodeId, KeyError>)
    ensures
        match r {
            Ok(key) => is_hex(hex_key.spec_bytes()) && hex_key.spec_bytes().len() == 40 && key@
                == unhex(hex_key.spec_bytes()),
            Err(KeyError::InvalidHex) => !is_hex(hex_key.spec_bytes()),
            Err(KeyError::InvalidLength) => is_hex(hex_key.spec_bytes())
                && hex_key.spec_bytes().len() != 40,
        },
{
    match hex_decode(hex_key.as_bytes()) {
        Err(_) => Err(KeyError::InvalidHex),
        Ok(bytes) => {
            if bytes.len() != 20 {
                return Err(KeyError::InvalidLength);
            }
            let mut raw = [0u8; 20];
            let mut i: usize = 0;
            while i < 20
                invariant
                    i <= 20,
                    bytes@.len() == 20,
                    forall|j: int| 0 <= j < i ==> raw@[j] == bytes@[j],
                decreases 20 - i,
            {
                raw[i] = bytes[i];
                i += 1;
            }
            let key = NodeId::new(raw);
            assert(key@ =~= bytes@);
            Ok(key)
        },
    }
}

} // verus!
