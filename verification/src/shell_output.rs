//! Decoding for bytes captured from shell stdout and stderr.
//!
//! Shells and programs launched by them are not required to use UTF-8. The
//! captured bytes are kept intact until this boundary, so that every shell
//! execution path applies the same decoding policy.

use vstd::prelude::*;

use crate::text;

verus! {

// ---------------------------------------------------------------------------
// Calls into the decoders
// ---------------------------------------------------------------------------

/// A number of bytes that the detector can take: it counts the non-ASCII bytes
/// of a run in 32 bits.
pub open spec fn detector_takes(len: nat) -> bool {
    len <= u32::MAX
}

/// A number of bytes that the decoder can take: its output buffer grows to at
/// most a little over six times that many bytes, which must not exceed half of
/// the address space.
pub open spec fn decoder_takes(len: nat) -> bool {
    len <= usize::MAX / 16
}

/// The name of the encoding that `chardetng` guesses for these bytes, taken as
/// the whole input, without a hint and with UTF-8 allowed.
pub uninterp spec fn guessed_encoding(bytes: Seq<u8>) -> Seq<char>;

/// The text that `encoding_rs` decodes these bytes to, starting from the
/// encoding with this name and minding a byte order mark, and whether
/// malformed sequences were replaced.
pub uninterp spec fn decoded_text(encoding: Seq<char>, bytes: Seq<u8>) -> (Seq<char>, bool);

/// The text that `String::from_utf8_lossy` gives for these bytes.
pub uninterp spec fn lossy_text(bytes: Seq<u8>) -> Seq<char>;

/// The name of an encoding that the detector can guess.
pub open spec fn is_detectable(name: Seq<char>) -> bool {
    ||| name == "UTF-8"@
    ||| name == "ISO-2022-JP"@
    ||| name == "GBK"@
    ||| name == "EUC-JP"@
    ||| name == "EUC-KR"@
    ||| name == "Shift_JIS"@
    ||| name == "Big5"@
    ||| name == "windows-874"@
    ||| name == "windows-1250"@
    ||| name == "windows-1251"@
    ||| name == "windows-1252"@
    ||| name == "windows-1253"@
    ||| name == "windows-1254"@
    ||| name == "windows-1255"@
    ||| name == "windows-1256"@
    ||| name == "windows-1257"@
    ||| name == "windows-1258"@
    ||| name == "ISO-8859-2"@
    ||| name == "ISO-8859-4"@
    ||| name == "ISO-8859-5"@
    ||| name == "ISO-8859-6"@
    ||| name == "ISO-8859-7"@
    ||| name == "ISO-8859-8"@
    ||| name == "ISO-8859-13"@
    ||| name == "KOI8-U"@
    ||| name == "IBM866"@
}

/// Calls `std::str::from_utf8`. It succeeds exactly on valid UTF-8, and the
/// text is the one whose encoding the bytes are.
#[verifier::external_body]
fn utf8_text(bytes: &[u8]) -> (text: Option<&str>)
    ensures
        text is Some <==> vstd::utf8::valid_utf8(bytes@),
        text matches Some(t) ==> vstd::utf8::encode_utf8(t@) == bytes@,
{
    std::str::from_utf8(bytes).ok()
}

/// Feeds the bytes to a new `chardetng::EncodingDetector` as the whole input
/// and calls `guess` without a top-level domain and with UTF-8 allowed. The
/// guess depends on the bytes alone, and it is one of the detector's
/// candidates.
#[verifier::external_body]
fn guess_encoding(bytes: &[u8]) -> (name: &'static str)
    requires
        detector_takes(bytes@.len()),
    ensures
        name@ == guessed_encoding(bytes@),
        is_detectable(name@),
{
    let mut detector = chardetng::EncodingDetector::new();
    detector.feed(bytes, true);
    detector.guess(None, true).name()
}

/// Calls `encoding_rs::Encoding::decode` on the encoding with this name. Text
/// and error flag depend on the name and the bytes alone. Every name that the
/// detector can guess is also a label, so that the encoding is found by it.
#[verifier::external_body]
fn decode_as(name: &str, bytes: &[u8]) -> (decoded: (String, bool))
    requires
        is_detectable(name@),
        decoder_takes(bytes@.len()),
    ensures
        (decoded.0@, decoded.1) == decoded_text(name@, bytes@),
{
    let encoding = encoding_rs::Encoding::for_label(name.as_bytes()).unwrap();
    let (text, _, had_errors) = encoding.decode(bytes);
    (text.into_owned(), had_errors)
}

/// Calls `String::from_utf8_lossy`. On valid UTF-8 it changes nothing;
/// otherwise each invalid sequence becomes a replacement character, which the
/// contract leaves to the name of the result.
#[verifier::external_body]
fn lossy_utf8(bytes: &[u8]) -> (text: String)
    ensures
        text@ == lossy_text(bytes@),
        vstd::utf8::valid_utf8(bytes@) ==> vstd::utf8::encode_utf8(text@) == bytes@,
{
    String::from_utf8_lossy(bytes).into_owned()
}

// ---------------------------------------------------------------------------
// The decoding policy
// ---------------------------------------------------------------------------

/// The text to answer with, once the bytes were decoded from `encoding`: a
/// lossy conversion when they were taken for UTF-8 and are malformed.
pub open spec fn settled_text(
    encoding: Seq<char>,
    decoded: (Seq<char>, bool),
    bytes: Seq<u8>,
) -> Seq<char> {
    if decoded.1 && encoding == "UTF-8"@ {
        lossy_text(bytes)
    } else {
        decoded.0
    }
}

/// The text of shell output that is not valid UTF-8.
pub open spec fn detected_text(bytes: Seq<u8>) -> Seq<char> {
    let encoding = guessed_encoding(bytes);
    settled_text(encoding, decoded_text(encoding, bytes), bytes)
}

/// Settle on a text, given the guessed encoding and what decoding from it
/// gave.
pub fn settle_text(encoding: &str, text: String, had_errors: bool, bytes: &[u8]) -> (settled: String)
    ensures
        settled@ == settled_text(encoding@, (text@, had_errors), bytes@),
        had_errors && encoding@ == "UTF-8"@ ==> settled@ == lossy_text(bytes@),
        !(had_errors && encoding@ == "UTF-8"@) ==> settled@ == text@,
{
    if had_errors && text::text_eq(encoding, "UTF-8") {
        lossy_utf8(bytes)
    } else {
        text
    }
}

/// Decode shell output as text without panicking on arbitrary bytes.
///
/// Valid UTF-8 is always preferred. For other byte sequences the encoding is
/// guessed. The final lossy conversion keeps the result representable even
/// when the guess is UTF-8 for malformed or binary input.
///
/// Only bytes that are not valid UTF-8 go to the detector and the decoder, so
/// only their number is bounded, by what those can take.
pub fn decode_shell_output(bytes: &[u8]) -> (text: String)
    requires
        vstd::utf8::valid_utf8(bytes@) || (detector_takes(bytes@.len()) && decoder_takes(
            bytes@.len(),
        )),
    ensures
        vstd::utf8::valid_utf8(bytes@) ==> vstd::utf8::encode_utf8(text@) == bytes@,
        !vstd::utf8::valid_utf8(bytes@) ==> text@ == detected_text(bytes@),
        !vstd::utf8::valid_utf8(bytes@) ==> text@ == if decoded_text(
            guessed_encoding(bytes@),
            bytes@,
        ).1 && guessed_encoding(bytes@) == "UTF-8"@ {
            lossy_text(bytes@)
        } else {
            decoded_text(guessed_encoding(bytes@), bytes@).0
        },
{
    if let Some(text) = utf8_text(bytes) {
        return text.to_owned();
    }
    let encoding: &str = guess_encoding(bytes);
    let (text, had_errors): (String, bool) = decode_as(encoding, bytes);
    settle_text(encoding, text, had_errors, bytes)
}

// ---------------------------------------------------------------------------
// Laws
// ---------------------------------------------------------------------------

/// Bytes that are not valid UTF-8 are decoded from the very encoding that is
/// guessed for them, whichever it is. Only where that is UTF-8 and the bytes are
/// malformed is the decoded text given up for a lossy conversion.
pub proof fn law_guess_decides_the_decoding(bytes: Seq<u8>)
    ensures
        guessed_encoding(bytes) != "UTF-8"@ || !decoded_text(guessed_encoding(bytes), bytes).1
            ==> detected_text(bytes) == decoded_text(guessed_encoding(bytes), bytes).0,
        guessed_encoding(bytes) == "UTF-8"@ && decoded_text(guessed_encoding(bytes), bytes).1
            ==> detected_text(bytes) == lossy_text(bytes),
{
}

/// What was decoded stands unless malformed bytes were taken for UTF-8.
pub proof fn law_settled_text(encoding: Seq<char>, decoded: (Seq<char>, bool), bytes: Seq<u8>)
    ensures
        !decoded.1 ==> settled_text(encoding, decoded, bytes) == decoded.0,
        encoding != "UTF-8"@ ==> settled_text(encoding, decoded, bytes) == decoded.0,
        decoded.1 && encoding == "UTF-8"@ ==> settled_text(encoding, decoded, bytes) == lossy_text(
            bytes,
        ),
{
}

}
