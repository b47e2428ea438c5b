//! The calls this library makes into other crates and into the parts of std
//! that carry no specification of their own, each with the contract relied on.
use vstd::prelude::*;
use vstd::utf8::{decode_utf8, encode_utf8, valid_utf8};

verus! {

/// The numeric value of a hexadecimal digit of either case.
pub open spec fn hex_value(c: char) -> int {
    if '0' <= c && c <= '9' {
        (c as int) - ('0' as int)
    } else if 'a' <= c && c <= 'f' {
        (c as int) - ('a' as int) + 10
    } else {
        (c as int) - ('A' as int) + 10
    }
}

/// Whether `c` is a hexadecimal digit of either case.
pub open spec fn is_hex_char(c: char) -> bool {
    ('0' <= c && c <= '9') || ('a' <= c && c <= 'f') || ('A' <= c && c <= 'F')
}

/// Whether `c` is a lowercase hexadecimal digit.
pub open spec fn is_lower_hex_char(c: char) -> bool {
    ('0' <= c && c <= '9') || ('a' <= c && c <= 'f')
}

/// The lowercase digit for a value below sixteen.
pub open spec fn hex_char(n: int) -> char {
    if n < 10 {
        if n == 0 { '0' } else if n == 1 { '1' } else if n == 2 { '2' } else if n == 3 { '3' }
        else if n == 4 { '4' } else if n == 5 { '5' } else if n == 6 { '6' } else if n == 7 { '7' }
        else if n == 8 { '8' } else { '9' }
    } else {
        if n == 10 { 'a' } else if n == 11 { 'b' } else if n == 12 { 'c' } else if n == 13 { 'd' }
        else if n == 14 { 'e' } else { 'f' }
    }
}

/// Lowercase hexadecimal text of `b`: two digits per byte, high nibble first.
pub open spec fn hex_lower(b: Seq<u8>) -> Seq<char> {
    Seq::new(
        2 * b.len(),
        |i: int| if i % 2 == 0 { hex_char(b[i / 2] as int / 16) } else { hex_char(b[i / 2] as int % 16) },
    )
}

/// Whether `s` is hexadecimal text that decodes: an even number of digits.
pub open spec fn is_hex_text(s: Seq<char>) -> bool {
    s.len() % 2 == 0 && forall|i: int| 0 <= i < s.len() ==> is_hex_char(#[trigger] s[i])
}

/// Whether `s` is lowercase hexadecimal text of exactly `n` bytes.
pub open spec fn is_lower_hex_of_len(s: Seq<char>, n: nat) -> bool {
    s.len() == 2 * n && forall|i: int| 0 <= i < s.len() ==> is_lower_hex_char(#[trigger] s[i])
}

/// The bytes that hexadecimal text stands for.
pub open spec fn hex_bytes(s: Seq<char>) -> Seq<u8> {
    Seq::new(s.len() / 2, |i: int| (hex_value(s[2 * i]) * 16 + hex_value(s[2 * i + 1])) as u8)
}

/// Relies on hex::encode: lowercase digits, two per byte, high nibble first.
#[verifier::external_body]
pub(crate) fn hex_encode(b: &[u8]) -> (r: String)
    ensures
        r@ == hex_lower(b@),
{
    hex::encode(b)
}

/// Relies on hex::decode: an even number of digits of either case decodes
/// pairwise; anything else is an error.
#[verifier::external_body]
pub(crate) fn hex_decode(s: &str) -> (r: Option<Vec<u8>>)
    ensures
        r is Some <==> is_hex_text(s@),
        r matches Some(v) ==> v@ == hex_bytes(s@),
{
    hex::decode(s).ok()
}

/// The 32-byte BLAKE3 digest of a byte sequence.
pub uninterp spec fn blake3_of(input: Seq<u8>) -> Seq<u8>;

/// Relies on blake3::hash: the 32-byte BLAKE3 digest of the input.
#[verifier::external_body]
pub(crate) fn blake3_digest(input: &[u8]) -> (r: Vec<u8>)
    ensures
        r@ == blake3_of(input@),
        r@.len() == 32,
{
    blake3::hash(input).as_bytes().to_vec()
}

/// The single Zstandard frame that the codec's default level makes of `data`.
pub uninterp spec fn zstd_frame(data: Seq<u8>) -> Seq<u8>;

/// Relies on zstd::stream::encode_all with level 0, the codec's default
/// level: on an in-memory source and sink it does not fail.
#[verifier::external_body]
pub(crate) fn zstd_compress(data: &[u8]) -> (r: core::result::Result<Vec<u8>, std::io::Error>)
    ensures
        r is Ok,
        r matches Ok(v) ==> v@ == zstd_frame(data@),
{
    zstd::stream::encode_all(data, 0)
}

/// Relies on zstd::stream::decode_all: a frame that the encoder produced
/// decodes, and gives back the encoder's input (the codec is lossless).
#[verifier::external_body]
pub(crate) fn zstd_decompress(data: &[u8]) -> (r: core::result::Result<Vec<u8>, std::io::Error>)
    ensures
        forall|x: Seq<u8>| #[trigger] zstd_frame(x) == data@ ==> r is Ok,
        forall|x: Seq<u8>| #[trigger] zstd_frame(x) == data@ ==> (r matches Ok(v) ==> v@ == x),
{
    zstd::stream::decode_all(data)
}

/// Relies on String::from_utf8: it succeeds exactly on valid UTF-8 and
/// keeps the bytes as they are.
#[verifier::external_body]
pub(crate) fn utf8_string(bytes: Vec<u8>) -> (r: Option<String>)
    ensures
        r is Some <==> valid_utf8(bytes@),
        r matches Some(s) ==> encode_utf8(s@) == bytes@,
{
    String::from_utf8(bytes).ok()
}

/// The text that lossy UTF-8 decoding makes of a byte sequence.
pub uninterp spec fn utf8_lossy(b: Seq<u8>) -> Seq<char>;

/// Relies on String::from_utf8_lossy: valid UTF-8 decodes as it is; each
/// invalid sequence becomes U+FFFD.
#[verifier::external_body]
pub(crate) fn lossy_string(b: &[u8]) -> (r: String)
    ensures
        r@ == utf8_lossy(b@),
        valid_utf8(b@) ==> r@ == decode_utf8(b@),
{
    String::from_utf8_lossy(b).into_owned()
}

} // verus!

verus! {

pub proof fn lemma_hex_char_is_lower(n: int)
    requires
        0 <= n < 16,
    ensures
        is_lower_hex_char(hex_char(n)),
        hex_value(hex_char(n)) == n,
{
}

pub proof fn lemma_hex_lower_is_lower(b: Seq<u8>)
    ensures
        is_lower_hex_of_len(hex_lower(b), b.len()),
{
    assert forall|i: int| 0 <= i < hex_lower(b).len() implies is_lower_hex_char(#[trigger] hex_lower(b)[i]) by {
        lemma_hex_char_is_lower(b[i / 2] as int / 16);
        lemma_hex_char_is_lower(b[i / 2] as int % 16);
    }
}

} // verus!

verus! {

/// Decoding lowercase hexadecimal text and encoding the bytes again gives
/// the same text.
pub proof fn lemma_hex_lower_of_bytes(s: Seq<char>, n: nat)
    requires
        is_lower_hex_of_len(s, n),
    ensures
        hex_bytes(s).len() == n,
        hex_lower(hex_bytes(s)) == s,
{
    let b = hex_bytes(s);
    assert forall|i: int| 0 <= i < s.len() implies #[trigger] hex_lower(b)[i] == s[i] by {
        let k = i / 2;
        let hi = hex_value(s[2 * k]);
        let lo = hex_value(s[2 * k + 1]);
        assert(is_lower_hex_char(s[2 * k]));
        assert(is_lower_hex_char(s[2 * k + 1]));
        assert(0 <= hi < 16 && 0 <= lo < 16);
        assert(b[k] as int == hi * 16 + lo);
        assert((hi * 16 + lo) / 16 == hi) by (nonlinear_arith)
            requires
                0 <= hi < 16,
                0 <= lo < 16,
        ;
        assert((hi * 16 + lo) % 16 == lo) by (nonlinear_arith)
            requires
                0 <= hi < 16,
                0 <= lo < 16,
        ;
        if i % 2 == 0 {
            assert(i == 2 * k);
        } else {
            assert(i == 2 * k + 1);
        }
    }
    assert(hex_lower(b) =~= s);
}

} // verus!

verus! {

/// Relies on std::io::Error::new: an I/O error of kind `AlreadyExists`
/// carrying the given message.
#[verifier::external_body]
pub(crate) fn already_exists_error(message: &str) -> (r: std::io::Error) {
    std::io::Error::new(std::io::ErrorKind::AlreadyExists, message.to_owned())
}

} // verus!
