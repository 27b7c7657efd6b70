use vstd::prelude::*;
use sha2::Digest;
use crate::text::push_all;
use vstd::utf8::encode_utf8;

verus! {

/// SHA-256 digest of `data`, as computed by the `sha2` crate.
pub uninterp spec fn sha256_of(data: Seq<u8>) -> Seq<u8>;

/// The digit for a nibble `n < 16`, lowercase.
pub open spec fn hex_digit(n: int) -> char {
    if n < 10 {
        ((n + 48) as u8) as char
    } else {
        ((n - 10 + 97) as u8) as char
    }
}

/// Lowercase hexadecimal rendering: two digits per byte, high nibble first.
pub open spec fn hex_of(b: Seq<u8>) -> Seq<char>
    decreases b.len(),
{
    if b.len() == 0 {
        Seq::empty()
    } else {
        hex_of(b.drop_last()) + seq![hex_digit(b.last() as int / 16), hex_digit(b.last() as int % 16)]
    }
}

/// `sha2::Sha256::digest`: the 32-byte SHA-256 digest of `data`. Its value is
/// named by `sha256_of`; only its length is stated.
#[verifier::external_body]
fn sha256(data: &[u8]) -> (out: Vec<u8>)
    ensures
        out@ == sha256_of(data@),
        out@.len() == 32,
{
    sha2::Sha256::digest(data).to_vec()
}

/// `hex::encode`: lowercase hexadecimal, two digits per byte, high nibble
/// first (as the crate documents).
#[verifier::external_body]
fn hex_encode(data: &[u8]) -> (out: String)
    ensures
        out@ == hex_of(data@),
{
    hex::encode(data)
}

/// Lowercase hexadecimal SHA-256 of `data`.
pub fn sha256_hex(data: &[u8]) -> (out: String)
    ensures
        out@ == hex_of(sha256_of(data@)),
        out@.len() == 64,
{
    let digest = sha256(data);
    proof {
        lemma_hex_len(sha256_of(data@));
    }
    hex_encode(&digest)
}

/// Hex rendering doubles the length.
pub proof fn lemma_hex_len(b: Seq<u8>)
    ensures
        hex_of(b).len() == 2 * b.len(),
    decreases b.len(),
{
    if b.len() > 0 {
        lemma_hex_len(b.drop_last());
    }
}

/// `sha256:` followed by the lowercase hexadecimal of `digest`.
pub fn prefixed_hex(digest: &[u8]) -> (out: String)
    ensures
        out@ == "sha256:"@ + hex_of(digest@),
{
    let mut out = String::new();
    push_all(&mut out, "sha256:");
    let h = hex_encode(digest);
    push_all(&mut out, h.as_str());
    out
}

/// Canonical `sha256:<hex>` hash of a prompt's UTF-8 bytes.
pub fn hash_prompt(prompt: &str) -> (out: String)
    ensures
        out@ == "sha256:"@ + hex_of(sha256_of(encode_utf8(prompt@))),
        out@.len() == 71,
{
    let digest = sha256(prompt.as_bytes());
    proof {
        lemma_hex_len(digest@);
        reveal_strlit("sha256:");
    }
    prefixed_hex(&digest)
}


/// `sha256:` followed by the given hexadecimal text.
pub fn prefixed_hex_of_text(hex: &str) -> (out: String)
    ensures
        out@ == "sha256:"@ + hex@,
{
    let mut out = String::new();
    push_all(&mut out, "sha256:");
    push_all(&mut out, hex);
    out
}

} // verus!
