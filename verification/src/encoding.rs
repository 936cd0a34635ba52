//! Turning raw file bytes into text: UTF-8 first, then legacy Chinese and
//! Western encodings, as `encoding_rs` decodes them.
use vstd::prelude::*;
use vstd::utf8::{decode_utf8, valid_utf8};

verus! {

/// The legacy encodings that the parser falls back on.
pub enum LegacyEncoding {
    Gbk,
    Gb18030,
    Big5,
    Windows1252,
}

/// What `encoding_rs::Encoding::decode` gives for these bytes in this encoding:
/// the text, and whether malformed sequences were replaced.
pub uninterp spec fn legacy_decode(encoding: LegacyEncoding, bytes: Seq<u8>) -> (Seq<char>, bool);

/// Decodes `bytes` with `encoding_rs::Encoding::decode` (which also honours a
/// byte-order mark); the result is named `legacy_decode`. The decoder panics
/// only when its output buffer size overflows `usize`, which the bound on the
/// input's length rules out.
#[verifier::external_body]
pub(crate) fn decode_legacy(encoding: LegacyEncoding, bytes: &[u8]) -> (r: (String, bool))
    requires
        bytes@.len() <= usize::MAX / 16,
    ensures
        (r.0@, r.1) == legacy_decode(encoding, bytes@),
{
    let enc = match encoding {
        LegacyEncoding::Gbk => encoding_rs::GBK,
        LegacyEncoding::Gb18030 => encoding_rs::GB18030,
        LegacyEncoding::Big5 => encoding_rs::BIG5,
        LegacyEncoding::Windows1252 => encoding_rs::WINDOWS_1252,
    };
    let (text, _, had_errors) = enc.decode(bytes);
    (text.into_owned(), had_errors)
}

/// `std::str::from_utf8`: the text when the bytes are valid UTF-8.
#[verifier::external_body]
pub(crate) fn utf8_text(bytes: &[u8]) -> (r: Option<String>)
    ensures
        r is Some <==> valid_utf8(bytes@),
        r matches Some(s) ==> s@ == decode_utf8(bytes@),
{
    match std::str::from_utf8(bytes) {
        Ok(s) => Some(s.to_owned()),
        Err(_) => None,
    }
}

/// The text `decode_bytes` reads from raw bytes: UTF-8 when valid, else the
/// first of GBK, GB18030 and Big5 that decodes without errors, else Windows-1252.
pub open spec fn decoded_text(bytes: Seq<u8>) -> Seq<char> {
    if valid_utf8(bytes) {
        decode_utf8(bytes)
    } else if !legacy_decode(LegacyEncoding::Gbk, bytes).1 {
        legacy_decode(LegacyEncoding::Gbk, bytes).0
    } else if !legacy_decode(LegacyEncoding::Gb18030, bytes).1 {
        legacy_decode(LegacyEncoding::Gb18030, bytes).0
    } else if !legacy_decode(LegacyEncoding::Big5, bytes).1 {
        legacy_decode(LegacyEncoding::Big5, bytes).0
    } else {
        legacy_decode(LegacyEncoding::Windows1252, bytes).0
    }
}

/// Decodes bytes of unknown encoding (see `decoded_text`).
pub fn decode_bytes(bytes: &[u8]) -> (r: String)
    requires
        bytes@.len() <= usize::MAX / 16,
    ensures
        r@ == decoded_text(bytes@),
{
    if let Some(s) = utf8_text(bytes) {
        return s;
    }
    let (s, had_errors) = decode_legacy(LegacyEncoding::Gbk, bytes);
    if !had_errors {
        return s;
    }
    let (s, had_errors) = decode_legacy(LegacyEncoding::Gb18030, bytes);
    if !had_errors {
        return s;
    }
    let (s, had_errors) = decode_legacy(LegacyEncoding::Big5, bytes);
    if !had_errors {
        return s;
    }
    let (s, _) = decode_legacy(LegacyEncoding::Windows1252, bytes);
    s
}

/// The text that reading a plain-text file gives: UTF-8 when valid, else the
/// first non-empty error-free decoding as GBK or GB18030, else a non-empty
/// Windows-1252 decoding; `None` when even that is empty.
pub open spec fn fallback_text(bytes: Seq<u8>) -> Option<Seq<char>> {
    let gbk = legacy_decode(LegacyEncoding::Gbk, bytes);
    let gb18030 = legacy_decode(LegacyEncoding::Gb18030, bytes);
    let latin = legacy_decode(LegacyEncoding::Windows1252, bytes);
    if valid_utf8(bytes) {
        Some(decode_utf8(bytes))
    } else if !gbk.1 && gbk.0.len() > 0 {
        Some(gbk.0)
    } else if !gb18030.1 && gb18030.0.len() > 0 {
        Some(gb18030.0)
    } else if latin.0.len() > 0 {
        Some(latin.0)
    } else {
        None
    }
}

/// Reads the text of a plain-text file's bytes (see `fallback_text`).
pub fn text_with_fallback(bytes: &[u8]) -> (r: Option<String>)
    requires
        bytes@.len() <= usize::MAX / 16,
    ensures
        r is Some <==> fallback_text(bytes@) is Some,
        r matches Some(s) ==> s@ == fallback_text(bytes@).unwrap(),
{
    if let Some(s) = utf8_text(bytes) {
        return Some(s);
    }
    let (s, had_errors) = decode_legacy(LegacyEncoding::Gbk, bytes);
    if !had_errors && !s.as_str().is_empty() {
        return Some(s);
    }
    let (s, had_errors) = decode_legacy(LegacyEncoding::Gb18030, bytes);
    if !had_errors && !s.as_str().is_empty() {
        return Some(s);
    }
    let (s, _) = decode_legacy(LegacyEncoding::Windows1252, bytes);
    if !s.as_str().is_empty() {
        return Some(s);
    }
    None
}

} // verus!
