//! Document identifiers: `ctx-` and six hex digits of a SHA-256 digest of
//! the document's file name and creation time.
use vstd::prelude::*;
use vstd::string::StrSliceExecFns;
use vstd::utf8::encode_utf8;
use sha2::Digest;
use crate::text::{from_chars, push_str, to_chars};

verus! {

/// The SHA-256 digest of `data` (`sha2::Sha256`).
pub uninterp spec fn sha256(data: Seq<u8>) -> Seq<u8>;

/// `<Sha256 as Digest>::digest`. The contract claims the result is the digest
/// that `sha256` names, 32 bytes long (`Sha256`'s output size).
#[verifier::external_body]
fn sha256_digest(data: &[u8]) -> (r: Vec<u8>)
    ensures
        r@ == sha256(data@),
        r@.len() == 32,
{
    sha2::Sha256::digest(data).to_vec()
}

/// The lowercase hexadecimal digit for `n < 16`.
pub open spec fn hex_digit(n: nat) -> char {
    if n < 10 {
        crate::text::digit_char(n)
    } else if n == 10 {
        'a'
    } else if n == 11 {
        'b'
    } else if n == 12 {
        'c'
    } else if n == 13 {
        'd'
    } else if n == 14 {
        'e'
    } else {
        'f'
    }
}

/// Two lowercase hex digits per byte, high nibble first.
pub open spec fn hex_lower(data: Seq<u8>) -> Seq<char>
    decreases data.len(),
{
    if data.len() == 0 {
        Seq::empty()
    } else {
        seq![hex_digit((data[0] / 16) as nat), hex_digit((data[0] % 16) as nat)] + hex_lower(
            data.drop_first(),
        )
    }
}

pub proof fn lemma_hex_lower_len(data: Seq<u8>)
    ensures
        hex_lower(data).len() == 2 * data.len(),
    decreases data.len(),
{
    if data.len() > 0 {
        lemma_hex_lower_len(data.drop_first());
    }
}

/// `hex::encode`: the contract states its whole behaviour, lowercase hex of
/// each byte in order.
#[verifier::external_body]
fn hex_encode(data: &[u8]) -> (r: String)
    ensures
        r@ == hex_lower(data@),
{
    hex::encode(data)
}

/// The identifier of a document named `filename` created at `created`
/// (RFC 3339 text).
pub open spec fn spec_generate_id(filename: Seq<char>, created: Seq<char>) -> Seq<char> {
    "ctx-"@ + hex_lower(sha256(encode_utf8(filename) + encode_utf8(created)).take(3))
}

/// `ctx-` followed by the hex of the first three digest bytes of the name's
/// and the creation time's UTF-8 bytes.
pub fn generate_id(filename: &str, created: &str) -> (r: String)
    ensures
        r@ == spec_generate_id(filename@, created@),
        r@.len() == 10,
{
    let mut bytes = filename.as_bytes_vec();
    let mut more = created.as_bytes_vec();
    bytes.append(&mut more);
    let digest = sha256_digest(bytes.as_slice());
    let mut short: Vec<u8> = Vec::new();
    short.push(digest[0]);
    short.push(digest[1]);
    short.push(digest[2]);
    assert(short@ =~= digest@.take(3));
    let hex = hex_encode(short.as_slice());
    let mut out = to_chars("ctx-");
    push_str(&mut out, hex.as_str());
    proof {
        reveal_strlit("ctx-");
        lemma_hex_lower_len(short@);
    }
    from_chars(&out)
}

} // verus!
