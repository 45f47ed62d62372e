//! SHA-256 and hex encoding, as used by the commitments of this crate.

use vstd::prelude::*;
use sha2::Digest;
use vstd::utf8::{encode_utf8, is_ascii_chars, is_ascii_chars_encode_utf8};

verus! {

/// The 32-byte SHA-256 digest of a byte string (FIPS 180-4), as computed
/// by the `sha2` crate.
pub uninterp spec fn sha256_digest(data: Seq<u8>) -> [u8; 32];

/// The SHA-256 digest of `data` as a byte sequence.
pub closed spec fn sha256_spec(data: Seq<u8>) -> Seq<u8> {
    sha256_digest(data)@
}

/// Every SHA-256 digest is 32 bytes long.
pub proof fn lemma_sha256_len(data: Seq<u8>)
    ensures
        sha256_spec(data).len() == 32,
{
    let d = sha256_digest(data);
    assert(d@.len() == 32);
}

/// Calls `sha2::Sha256::digest` on `data`.
/// Trusted: the result is the SHA-256 digest of `data`, a function of `data` alone.
#[verifier::external_body]
pub(crate) fn sha256(data: &[u8]) -> (out: [u8; 32])
    ensures
        out == sha256_digest(data@),
        out@ == sha256_spec(data@),
{
    sha2::Sha256::digest(data).into()
}


/// Appends `src` to `dst`.
pub(crate) fn push_all(dst: &mut Vec<u8>, src: &[u8])
    ensures
        final(dst)@ == old(dst)@ + src@,
{
    let ghost start = dst@;
    let mut i: usize = 0;
    while i < src.len()
        invariant
            i <= src.len(),
            dst@ == start + src@.take(i as int),
        decreases src.len() - i,
    {
        dst.push(src[i]);
        i = i + 1;
        assert(src@.take(i as int) =~= src@.take(i - 1).push(src@[i - 1]));
    }
    assert(src@.take(i as int) =~= src@);
}

/// Byte-wise equality of two digests.
pub(crate) fn digest_eq(a: &[u8; 32], b: &[u8; 32]) -> (r: bool)
    ensures
        r == (a@ == b@),
{
    let mut i: usize = 0;
    while i < 32
        invariant
            i <= 32,
            a@.len() == 32,
            b@.len() == 32,
            forall|j: int| 0 <= j < i ==> a@[j] == b@[j],
        decreases 32 - i,
    {
        if a[i] != b[i] {
            return false;
        }
        i = i + 1;
    }
    assert(a@ =~= b@);
    true
}

/// The lower-case hexadecimal digit of a nibble.
pub open spec fn hex_digit(n: int) -> char {
    if n < 10 {
        (48 + n) as char
    } else {
        (87 + n) as char
    }
}

/// Lower-case hexadecimal encoding: two digits per byte, high nibble first.
pub open spec fn hex_lower(bytes: Seq<u8>) -> Seq<char>
    decreases bytes.len(),
{
    if bytes.len() == 0 {
        seq![]
    } else {
        seq![hex_digit(bytes[0] as int / 16), hex_digit(bytes[0] as int % 16)] + hex_lower(bytes.skip(1))
    }
}

/// The hex encoding of `n` bytes has `2 * n` digits.
pub proof fn lemma_hex_lower_len(bytes: Seq<u8>)
    ensures
        hex_lower(bytes).len() == 2 * bytes.len(),
    decreases bytes.len(),
{
    if bytes.len() > 0 {
        lemma_hex_lower_len(bytes.skip(1));
    }
}

/// Calls `hex::encode` on `bytes`.
/// Trusted: `hex::encode` writes each byte as two lower-case hex digits,
/// high nibble first (its table is `0123456789abcdef`).
#[verifier::external_body]
pub(crate) fn hex_encode(bytes: &[u8]) -> (s: String)
    ensures
        s@ == hex_lower(bytes@),
{
    hex::encode(bytes)
}


#[verifier::external_type_specification]
#[verifier::external_body]
pub struct ExFromHexError(hex::FromHexError);

/// The value of an ASCII hex digit of either case.
pub open spec fn hex_value(c: u8) -> Option<u8> {
    if 48 <= c <= 57 {
        Some((c - 48) as u8)
    } else if 97 <= c <= 102 {
        Some((c - 87) as u8)
    } else if 65 <= c <= 70 {
        Some((c - 55) as u8)
    } else {
        None
    }
}

/// Hex text: an even number of hex digits.
pub open spec fn is_hex_text(b: Seq<u8>) -> bool {
    &&& b.len() % 2 == 0
    &&& forall|i: int| 0 <= i < b.len() ==> hex_value(#[trigger] b[i]) is Some
}

/// The bytes hex text stands for: one per pair of digits, high nibble first.
pub open spec fn hex_bytes(b: Seq<u8>) -> Seq<u8> {
    Seq::new(b.len() / 2, |i: int| (hex_value(b[2 * i])->0 * 16 + hex_value(b[2 * i + 1])->0) as u8)
}

/// Calls `hex::decode` on the bytes of `text`.
/// Trusted: it accepts exactly an even number of hex digits of either case
/// and returns one byte per pair of digits, high nibble first; on other
/// text it returns a `FromHexError` (which one is left unsaid here).
#[verifier::external_body]
pub(crate) fn hex_decode(text: &str) -> (r: Result<Vec<u8>, hex::FromHexError>)
    ensures
        r is Ok <==> is_hex_text(encode_utf8(text@)),
        r matches Ok(v) ==> v@ == hex_bytes(encode_utf8(text@)),
{
    hex::decode(text)
}

/// Formats a `hex::FromHexError` with its `Display` implementation.
/// Trusted: nothing is stated of the message.
#[verifier::external_body]
pub(crate) fn hex_error_message(e: &hex::FromHexError) -> String {
    format!("{}", e)
}

/// The digit at position `2 * i` of the encoding is the high nibble of byte
/// `i`, and the one after it the low nibble.
proof fn lemma_hex_lower_index(bytes: Seq<u8>, i: int)
    requires
        0 <= i < bytes.len(),
    ensures
        hex_lower(bytes)[2 * i] == hex_digit(bytes[i] as int / 16),
        hex_lower(bytes)[2 * i + 1] == hex_digit(bytes[i] as int % 16),
    decreases i,
{
    lemma_hex_lower_len(bytes);
    lemma_hex_lower_len(bytes.skip(1));
    if i > 0 {
        lemma_hex_lower_index(bytes.skip(1), i - 1);
        assert(bytes.skip(1)[i - 1] == bytes[i]);
    }
}

/// Decoding the hex encoding of bytes gives the bytes back.
pub proof fn lemma_hex_roundtrip(bytes: Seq<u8>)
    ensures
        is_hex_text(encode_utf8(hex_lower(bytes))),
        encode_utf8(hex_lower(bytes)).len() == 2 * bytes.len(),
        hex_bytes(encode_utf8(hex_lower(bytes))) == bytes,
{
    let chars = hex_lower(bytes);
    lemma_hex_lower_len(bytes);
    assert forall|k: int| 0 <= k < chars.len() implies '\0' <= #[trigger] chars[k] <= '\u{7f}' && (
        (48 <= chars[k] as u8 <= 57) || (97 <= chars[k] as u8 <= 102)) by {
        let i = k / 2;
        lemma_hex_lower_index(bytes, i);
        if k % 2 == 0 {
            assert(k == 2 * i);
        } else {
            assert(k == 2 * i + 1);
        }
    }
    assert(is_ascii_chars(chars));
    is_ascii_chars_encode_utf8(chars);
    let b = encode_utf8(chars);
    assert forall|k: int| 0 <= k < b.len() implies hex_value(#[trigger] b[k]) is Some by {
        assert(chars[k] as u8 == b[k]);
    }
    assert forall|i: int| 0 <= i < bytes.len() implies #[trigger] hex_bytes(b)[i] == bytes[i] by {
        lemma_hex_lower_index(bytes, i);
        assert(chars[2 * i] as u8 == b[2 * i]);
        assert(chars[2 * i + 1] as u8 == b[2 * i + 1]);
        let hi = bytes[i] as int / 16;
        let lo = bytes[i] as int % 16;
        assert(hex_value(b[2 * i])->0 == hi);
        assert(hex_value(b[2 * i + 1])->0 == lo);
    }
    assert(hex_bytes(b) =~= bytes);
}

} // verus!
