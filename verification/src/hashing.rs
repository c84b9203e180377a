//! SHA-256 digests and their lowercase hexadecimal rendering.
use sha2::Digest;
use vstd::prelude::*;

use crate::text::{append_chars, char_from_ascii_code, string_of};

verus! {

/// The SHA-256 digest of `data`, as computed by the `sha2` crate.
pub uninterp spec fn sha256_of(data: Seq<u8>) -> Seq<u8>;

/// `sha2::Sha256::digest`. Trusted: the digest is the (named) SHA-256 of
/// the input bytes, and it is 32 bytes long, as the crate's `Output` type
/// (`GenericArray<u8, U32>`) fixes.
#[verifier::external_body]
pub(crate) fn sha256(data: &[u8]) -> (digest: Vec<u8>)
    ensures
        digest@ == sha256_of(data@),
        digest@.len() == 32,
{
    sha2::Sha256::digest(data).to_vec()
}

/// The lowercase hexadecimal digit for `n < 16`.
pub open spec fn hex_digit(n: nat) -> char {
    if n < 10 {
        ((n + 48) as u32) as char
    } else {
        ((n + 87) as u32) as char
    }
}

/// `format!("{byte:02x}")` for every byte, concatenated.
pub open spec fn hex(bytes: Seq<u8>) -> Seq<char>
    decreases bytes.len(),
{
    if bytes.len() == 0 {
        Seq::empty()
    } else {
        hex(bytes.drop_last()).push(hex_digit((bytes.last() / 16) as nat)).push(
            hex_digit((bytes.last() % 16) as nat),
        )
    }
}

/// A hex rendering has two characters per byte.
pub proof fn lemma_hex_len(bytes: Seq<u8>)
    ensures
        hex(bytes).len() == 2 * bytes.len(),
    decreases bytes.len(),
{
    if bytes.len() > 0 {
        lemma_hex_len(bytes.drop_last());
    }
}

/// Every character of a hex rendering is an ASCII digit or a lowercase letter `a`-`f`.
pub proof fn lemma_hex_chars(bytes: Seq<u8>)
    ensures
        forall|i: int|
            0 <= i < hex(bytes).len() ==> ('0' <= #[trigger] hex(bytes)[i] <= '9' || 'a' <= hex(
                bytes,
            )[i] <= 'f'),
    decreases bytes.len(),
{
    lemma_hex_len(bytes);
    if bytes.len() > 0 {
        lemma_hex_chars(bytes.drop_last());
        lemma_hex_len(bytes.drop_last());
    }
}

fn hex_digit_char(n: u8) -> (c: char)
    requires
        n < 16,
    ensures
        c == hex_digit(n as nat),
{
    if n < 10 {
        char_from_ascii_code((n + 48) as u32)
    } else {
        char_from_ascii_code((n + 87) as u32)
    }
}

/// Lowercase hexadecimal rendering of `bytes`, two digits per byte.
pub fn hex_chars(bytes: &[u8]) -> (out: Vec<char>)
    ensures
        out@ == hex(bytes@),
{
    let mut out: Vec<char> = Vec::new();
    let mut i: usize = 0;
    while i < bytes.len()
        invariant
            i <= bytes.len(),
            out@ == hex(bytes@.take(i as int)),
        decreases bytes.len() - i,
    {
        let b = bytes[i];
        out.push(hex_digit_char(b / 16));
        out.push(hex_digit_char(b % 16));
        i += 1;
        assert(bytes@.take(i as int).drop_last() =~= bytes@.take(i - 1));
    }
    assert(bytes@.take(bytes.len() as int) =~= bytes@);
    out
}

/// The UTF-8 bytes of a character sequence.
pub open spec fn utf8(s: Seq<char>) -> Seq<u8> {
    vstd::utf8::encode_utf8(s)
}

/// The hex rendering of the SHA-256 digest of the UTF-8 bytes of `s`.
pub open spec fn sha256_hex(s: Seq<char>) -> Seq<char> {
    hex(sha256_of(utf8(s)))
}

/// `"sha256:"` followed by the hex SHA-256 of the content's UTF-8 bytes.
pub open spec fn content_hash_of(content: Seq<char>) -> Seq<char> {
    seq!['s', 'h', 'a', '2', '5', '6', ':'] + sha256_hex(content)
}

/// The hex rendering of the first four bytes of the SHA-256 of `s` (8 characters).
pub open spec fn short_hash_of(s: Seq<char>) -> Seq<char> {
    hex(sha256_of(utf8(s)).take(4))
}

/// The SHA-256 digest of the UTF-8 bytes of `s`.
pub fn sha256_str(s: &str) -> (digest: Vec<u8>)
    ensures
        digest@ == sha256_of(utf8(s@)),
        digest@.len() == 32,
{
    sha256(s.as_bytes())
}

/// Hex SHA-256 of a string, prefixed with `sha256:`.
pub fn content_hash_chars(content: &str) -> (out: Vec<char>)
    ensures
        out@ == content_hash_of(content@),
{
    let digest = sha256_str(content);
    let mut out: Vec<char> = Vec::new();
    out.push('s');
    out.push('h');
    out.push('a');
    out.push('2');
    out.push('5');
    out.push('6');
    out.push(':');
    let h = hex_chars(digest.as_slice());
    append_chars(&mut out, h.as_slice());
    assert(out@ =~= content_hash_of(content@));
    out
}

/// The first eight hex digits of the SHA-256 of `value`.
pub fn short_hash(value: &[char]) -> (out: Vec<char>)
    ensures
        out@ == short_hash_of(value@),
        out@.len() == 8,
{
    let s = string_of(value);
    let digest = sha256_str(s.as_str());
    let head = slice_bytes(&digest, 4);
    let out = hex_chars(head.as_slice());
    proof {
        lemma_hex_len(head@);
    }
    out
}

fn slice_bytes(bytes: &Vec<u8>, n: usize) -> (out: Vec<u8>)
    requires
        n <= bytes.len(),
    ensures
        out@ == bytes@.take(n as int),
{
    let mut out: Vec<u8> = Vec::new();
    let mut i: usize = 0;
    while i < n
        invariant
            i <= n <= bytes.len(),
            out@ == bytes@.take(i as int),
        decreases n - i,
    {
        out.push(bytes[i]);
        i += 1;
        assert(out@ =~= bytes@.take(i as int));
    }
    out
}

} // verus!
