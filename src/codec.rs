use vstd::prelude::*;
use std::io::Read;
use std::io::Write;

verus! {

/// The SHA-1 digest of `data` (20 bytes).
pub uninterp spec fn sha1_of(data: Seq<u8>) -> Seq<u8>;

/// The zlib stream that the encoder produces for `data`.
pub uninterp spec fn zlib_deflate(data: Seq<u8>) -> Seq<u8>;

/// What a zlib stream decodes to, or `None` when it is not a valid stream.
pub uninterp spec fn zlib_inflate(c: Seq<u8>) -> Option<Seq<u8>>;

/// The text that lossy UTF-8 decoding gives for `b`.
pub uninterp spec fn utf8_lossy(b: Seq<u8>) -> Seq<char>;

/// The lowercase hex digit for a value below 16.
pub open spec fn hex_digit(n: u8) -> char {
    if n < 10 {
        (('0' as u8) + n) as char
    } else {
        (('a' as u8) + (n - 10)) as char
    }
}

/// Lowercase hex text of `b`, two digits per byte.
pub open spec fn hex_text(b: Seq<u8>) -> Seq<char>
    decreases b.len(),
{
    if b.len() == 0 {
        seq![]
    } else {
        hex_text(b.drop_last()) + seq![hex_digit(b.last() / 16), hex_digit(b.last() % 16)]
    }
}

/// The value of a hex digit in either case.
pub open spec fn hex_value(c: char) -> Option<u8> {
    if '0' <= c && c <= '9' {
        Some((c as u8 - '0' as u8) as u8)
    } else if 'a' <= c && c <= 'f' {
        Some((c as u8 - 'a' as u8 + 10) as u8)
    } else if 'A' <= c && c <= 'F' {
        Some((c as u8 - 'A' as u8 + 10) as u8)
    } else {
        None
    }
}

/// The bytes that hex text `s` stands for, or `None` when it has odd length
/// or a character that is not a hex digit.
pub open spec fn hex_bytes(s: Seq<char>) -> Option<Seq<u8>>
    decreases s.len(),
{
    if s.len() == 0 {
        Some(seq![])
    } else if s.len() == 1 {
        None
    } else {
        match (hex_bytes(s.drop_last().drop_last()), hex_value(s[s.len() - 2]), hex_value(s.last())) {
            (Some(v), Some(h), Some(l)) => Some(v.push((h * 16 + l) as u8)),
            _ => None,
        }
    }
}

/// Relies on sha1::Sha1::digest: the 20-byte SHA-1 digest of the input.
#[verifier::external_body]
pub(crate) fn sha1_digest(data: &[u8]) -> (r: Vec<u8>)
    ensures
        r@ == sha1_of(data@),
        r@.len() == 20,
{
    <sha1::Sha1 as sha1::Digest>::digest(data).to_vec()
}

/// Relies on hex::encode: two lowercase digits per byte.
#[verifier::external_body]
pub(crate) fn hex_encode(b: &[u8]) -> (r: String)
    ensures
        r@ == hex_text(b@),
{
    hex::encode(b)
}

/// Relies on hex::decode: even length and hex digits of either case only.
#[verifier::external_body]
pub(crate) fn hex_decode(s: &str) -> (r: Option<Vec<u8>>)
    ensures
        r.is_some() == hex_bytes(s@).is_some(),
        r.is_some() ==> r.unwrap()@ == hex_bytes(s@).unwrap(),
{
    hex::decode(s).ok()
}

/// Relies on flate2's ZlibEncoder at the default level: the stream decodes
/// back to the input.
#[verifier::external_body]
pub(crate) fn zlib_compress(data: &[u8]) -> (r: Vec<u8>)
    ensures
        r@ == zlib_deflate(data@),
        zlib_inflate(r@) == Some(data@),
{
    let mut e = flate2::write::ZlibEncoder::new(Vec::new(), flate2::Compression::default());
    e.write_all(data).unwrap();
    e.finish().unwrap()
}

/// Relies on flate2's ZlibDecoder: the decoded bytes, or `None` for a corrupt stream.
#[verifier::external_body]
pub(crate) fn zlib_decompress(c: &[u8]) -> (r: Option<Vec<u8>>)
    ensures
        r.is_some() == zlib_inflate(c@).is_some(),
        r.is_some() ==> r.unwrap()@ == zlib_inflate(c@).unwrap(),
{
    let mut out = Vec::new();
    match flate2::read::ZlibDecoder::new(c).read_to_end(&mut out) {
        Ok(_) => Some(out),
        Err(_) => None,
    }
}

/// Relies on String::from_utf8_lossy: valid UTF-8 decodes unchanged.
#[verifier::external_body]
pub(crate) fn lossy_string(b: &[u8]) -> (r: String)
    ensures
        r@ == utf8_lossy(b@),
        vstd::utf8::valid_utf8(b@) ==> vstd::utf8::encode_utf8(r@) == b@,
{
    String::from_utf8_lossy(b).into_owned()
}

/// Relies on String::from_utf8: it succeeds exactly on valid UTF-8.
#[verifier::external_body]
pub(crate) fn utf8_string(b: &[u8]) -> (r: Option<String>)
    ensures
        r.is_some() == vstd::utf8::valid_utf8(b@),
        r.is_some() ==> r.unwrap()@ == vstd::utf8::decode_utf8(b@),
{
    String::from_utf8(b.to_vec()).ok()
}

/// The hex SHA-1 of `data`, the identity of an object.
pub open spec fn hash_text(data: Seq<u8>) -> Seq<char> {
    hex_text(sha1_of(data))
}

/// The lowercase hex SHA-1 digest of `data`.
pub fn compute_hash(data: &[u8]) -> (r: String)
    ensures
        r@ == hash_text(data@),
{
    let d = sha1_digest(data);
    hex_encode(d.as_slice())
}

/// Compresses `data` as a zlib stream.
pub fn compress_data(data: &[u8]) -> (r: Vec<u8>)
    ensures
        r@ == zlib_deflate(data@),
        zlib_inflate(r@) == Some(data@),
{
    zlib_compress(data)
}

/// Decompresses a zlib stream; `None` when it is corrupt.
pub fn decompress(data: &[u8]) -> (r: Option<Vec<u8>>)
    ensures
        r.is_some() == zlib_inflate(data@).is_some(),
        r.is_some() ==> r.unwrap()@ == zlib_inflate(data@).unwrap(),
{
    zlib_decompress(data)
}

/// Lowercase hex text of `bytes`.
pub fn bytes_to_hex(bytes: &[u8]) -> (r: String)
    ensures
        r@ == hex_text(bytes@),
{
    hex_encode(bytes)
}

/// The bytes of hex text, or `None` for odd length or a non-hex character.
pub fn hex_to_bytes(hex: &str) -> (r: Option<Vec<u8>>)
    ensures
        r.is_some() == hex_bytes(hex@).is_some(),
        r.is_some() ==> r.unwrap()@ == hex_bytes(hex@).unwrap(),
{
    hex_decode(hex)
}

} // verus!
