//! Content hashes: the SHA-1 digest of a byte sequence, written as forty
//! lowercase hexadecimal characters.

use vstd::prelude::*;
use crypto::digest::Digest;
use crypto::sha1::Sha1;

verus! {

/// Number of characters in a content hash.
pub const HASH_LEN: usize = 40;

/// Inputs of this many bytes or more cannot be digested.
pub const DIGEST_INPUT_LIMIT: u64 = 0x2000_0000_0000_0000;

/// The hexadecimal SHA-1 digest of `data`, as `crypto::digest::Digest::result_str`
/// gives it for a fresh `crypto::sha1::Sha1` that was fed `data`.
pub uninterp spec fn sha1_hex(data: Seq<u8>) -> Seq<char>;

/// A lowercase hexadecimal digit.
pub open spec fn is_hex_digit(c: char) -> bool {
    ('0' <= c && c <= '9') || ('a' <= c && c <= 'f')
}

/// Forty lowercase hexadecimal digits: the shape of every content hash.
pub open spec fn is_hash(s: Seq<char>) -> bool {
    &&& s.len() == HASH_LEN
    &&& forall|i: int| 0 <= i < s.len() ==> is_hex_digit(#[trigger] s[i])
}

/// Whether `c` is a lowercase hexadecimal digit.
pub fn hex_digit(c: char) -> (yes: bool)
    ensures
        yes == is_hex_digit(c),
{
    (c >= '0' && c <= '9') || (c >= 'a' && c <= 'f')
}

/// Whether a hash stands in `chars` at `start`: forty lowercase hexadecimal
/// digits, with or without more text after them.
pub fn hash_at(chars: &Vec<char>, start: usize) -> (yes: bool)
    ensures
        yes == (start + HASH_LEN <= chars.len() && is_hash(
            chars@.subrange(start as int, start + HASH_LEN),
        )),
{
    if start > chars.len() || chars.len() - start < HASH_LEN {
        return false;
    }
    let ghost part = chars@.subrange(start as int, start + HASH_LEN);
    let mut i: usize = 0;
    while i < HASH_LEN
        invariant
            i <= HASH_LEN,
            start + HASH_LEN <= chars.len(),
            part == chars@.subrange(start as int, start + HASH_LEN),
            forall|j: int| 0 <= j < i ==> is_hex_digit(#[trigger] part[j]),
        decreases HASH_LEN - i,
    {
        assert(part[i as int] == chars@[start + i]);
        if !hex_digit(chars[start + i]) {
            return false;
        }
        i += 1;
    }
    true
}

/// Feeds `data` to a fresh `crypto::sha1::Sha1` and reads `result_str`.
///
/// Trusted: the result depends on `data` alone, and is the 20-byte digest
/// written as two lowercase hexadecimal digits per byte. The crate refuses
/// inputs of 2^61 bytes or more, which `requires` leaves out.
#[verifier::external_body]
fn sha1_result_str(data: &[u8]) -> (hex: String)
    requires
        data@.len() < DIGEST_INPUT_LIMIT,
    ensures
        hex@ == sha1_hex(data@),
        is_hash(hex@),
{
    let mut hasher = Sha1::new();
    hasher.input(data);
    hasher.result_str()
}

/// The content hash of `data`.
pub fn hash_bytes(data: &[u8]) -> (hex: String)
    requires
        data@.len() < DIGEST_INPUT_LIMIT,
    ensures
        hex@ == sha1_hex(data@),
        is_hash(hex@),
{
    sha1_result_str(data)
}

} // verus!
