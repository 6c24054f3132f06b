//! Byte-encoding detection, decoding and re-encoding.
//!
//! Detection and transcoding are done by the `chardetng` and `encoding_rs`
//! crates behind trusted wrappers; the branching around them (byte-order-mark
//! handling, error classification) is verified.

use vstd::prelude::*;
use vstd::string::StringSliceAdditionalSpecFns;
use crate::TsvError;

verus! {

/// Whether `encoding_rs::Encoding::for_label` resolves this label.
pub uninterp spec fn known_encoding(label: Seq<char>) -> bool;

/// The canonical name of the encoding that `chardetng` guesses for a buffer
/// (fed whole, no top-level-domain hint, UTF-8 allowed).
pub uninterp spec fn detected_encoding(bytes: Seq<u8>) -> Seq<char>;

/// The text that `encoding_rs::Encoding::decode` produces for a buffer under
/// the encoding this label resolves to (malformed sequences replaced).
pub uninterp spec fn decoded_with(bytes: Seq<u8>, label: Seq<char>) -> Seq<char>;

/// What `encoding_rs::Encoding::encode` produces for a text under the encoding
/// this label resolves to: the encoded bytes, or `None` if some character is
/// unmappable.
pub uninterp spec fn encode_outcome(text: Seq<char>, label: Seq<char>) -> Option<Seq<u8>>;

/// The text that `String::from_utf8_lossy` produces for a buffer.
pub uninterp spec fn lossy_utf8(bytes: Seq<u8>) -> Seq<char>;

/// Relies on `encoding_rs::Encoding::for_label`: a static lookup that resolves
/// a label if and only if it names an encoding of the WHATWG Encoding Standard;
/// the canonical label `"UTF-8"` is always resolved.
#[verifier::external_body]
fn label_is_known(label: &str) -> (r: bool)
    ensures
        r == known_encoding(label@),
        !r ==> label@ != "UTF-8"@,
{
    encoding_rs::Encoding::for_label(label.as_bytes()).is_some()
}

/// Relies on `chardetng::EncodingDetector::guess` fed the whole buffer: the
/// guess depends on the byte content alone, and its canonical name (from
/// `encoding_rs::Encoding::name`) is itself a label that `for_label` resolves.
#[verifier::external_body]
fn detect_encoding(bytes: &[u8]) -> (r: String)
    ensures
        r@ == detected_encoding(bytes@),
        known_encoding(r@),
{
    let mut detector = chardetng::EncodingDetector::new(chardetng::Iso2022JpDetection::Allow);
    detector.feed(bytes, true);
    let encoding = detector.guess(None, chardetng::Utf8Detection::Allow);
    encoding.name().to_string()
}

/// Relies on `encoding_rs::Encoding::decode`: decoding never fails (malformed
/// sequences become replacement characters) and depends only on the buffer and
/// the encoding, which the label determines.
#[verifier::external_body]
fn decode_bytes(bytes: &[u8], label: &str) -> (r: String)
    requires
        known_encoding(label@),
    ensures
        r@ == decoded_with(bytes@, label@),
{
    let encoding = encoding_rs::Encoding::for_label(label.as_bytes()).unwrap();
    let (decoded, _, _) = encoding.decode(bytes);
    decoded.into_owned()
}

/// Relies on `encoding_rs::Encoding::encode`: the result depends only on the
/// text and the encoding, which the label determines, and the third item of
/// the returned tuple reports whether any character was unmappable. For the
/// UTF-8 encoding it returns the text's own bytes and never reports errors.
#[verifier::external_body]
fn encode_text(text: &str, label: &str) -> (r: Option<Vec<u8>>)
    requires
        known_encoding(label@),
    ensures
        r matches Some(bytes) ==> encode_outcome(text@, label@) == Some(bytes@) && (label@
            == "UTF-8"@ ==> bytes@ == text.spec_bytes()),
        r is None ==> encode_outcome(text@, label@) is None && label@ != "UTF-8"@,
{
    let encoding = encoding_rs::Encoding::for_label(label.as_bytes()).unwrap();
    let (encoded, _, had_errors) = encoding.encode(text);
    if had_errors {
        None
    } else {
        Some(encoded.into_owned())
    }
}

/// Relies on `String::from_utf8_lossy`: the result depends on the bytes alone
/// (invalid sequences become replacement characters).
#[verifier::external_body]
fn decode_utf8_lossy(bytes: &[u8]) -> (r: String)
    ensures
        r@ == lossy_utf8(bytes@),
{
    String::from_utf8_lossy(bytes).into_owned()
}

/// Whether the buffer begins with the UTF-8 byte-order-mark `EF BB BF`.
pub open spec fn has_utf8_bom(bytes: Seq<u8>) -> bool {
    bytes.len() >= 3 && bytes[0] == 0xefu8 && bytes[1] == 0xbbu8 && bytes[2] == 0xbfu8
}

/// The text a buffer decodes to: as UTF-8 with the byte-order-mark stripped
/// when one leads the buffer, else under the detected encoding.
pub open spec fn decoded_text_of(bytes: Seq<u8>) -> Seq<char> {
    if has_utf8_bom(bytes) {
        lossy_utf8(bytes.skip(3))
    } else {
        decoded_with(bytes, detected_encoding(bytes))
    }
}

/// The canonical encoding name reported for a buffer.
pub open spec fn encoding_name_of(bytes: Seq<u8>) -> Seq<char> {
    if has_utf8_bom(bytes) {
        "UTF-8"@
    } else {
        detected_encoding(bytes)
    }
}

/// Detects the byte encoding of a buffer and decodes it to text.
///
/// A buffer with a UTF-8 byte-order-mark is decoded as UTF-8 with the mark
/// stripped; otherwise the statistical detector picks the encoding from the
/// byte content alone. Decoding never fails: invalid sequences are replaced.
/// Returns the text and the canonical encoding name.
pub fn detect_and_decode(bytes: &[u8]) -> (r: (String, String))
    ensures
        r.0@ == decoded_text_of(bytes@),
        r.1@ == encoding_name_of(bytes@),
{
    if bytes.len() >= 3 && bytes[0] == 0xef && bytes[1] == 0xbb && bytes[2] == 0xbf {
        let rest = &bytes[3..bytes.len()];
        assert(rest@ =~= bytes@.skip(3));
        let text = decode_utf8_lossy(rest);
        (text, utf8_name())
    } else {
        let encoding_name = detect_encoding(bytes);
        let text = decode_bytes(bytes, encoding_name.as_str());
        (text, encoding_name)
    }
}

/// The canonical name of the UTF-8 encoding.
fn utf8_name() -> (r: String)
    ensures
        r@ == "UTF-8"@,
{
    String::from_str("UTF-8")
}

/// Whether the text contains a carriage-return/line-feed pair.
pub open spec fn contains_crlf(text: Seq<char>) -> bool {
    exists|i: int| 0 <= i && i + 1 < text.len() && #[trigger] text[i] == '\r' && text[i + 1] == '\n'
}

/// Classifies the dominant line-ending convention of a text: `"CRLF"` if any
/// carriage-return/line-feed pair occurs, else `"LF"`.
pub fn detect_line_ending(text: &str) -> (r: &'static str)
    ensures
        contains_crlf(text@) ==> r@ == "CRLF"@,
        !contains_crlf(text@) ==> r@ == "LF"@,
{
    let n = text.unicode_len();
    let mut i: usize = 0;
    while i < n
        invariant
            n == text@.len(),
            0 <= i <= n,
            forall|j: int| 0 <= j < i && j + 1 < n ==> !(#[trigger] text@[j] == '\r' && text@[j + 1] == '\n'),
        decreases n - i,
    {
        if text.get_char(i) == '\r' && i + 1 < n && text.get_char(i + 1) == '\n' {
            return "CRLF";
        }
        i += 1;
    }
    assert(!contains_crlf(text@));
    "LF"
}

/// Encodes text into the named byte encoding.
///
/// An unknown encoding name fails with `UnsupportedEncoding`; a text the
/// target encoding cannot represent fails with `UnencodableCharacters` and
/// yields no bytes at all, so a caller never persists a partial result. On a
/// known encoding and a representable text it succeeds, and under the UTF-8
/// name it is a byte-identical reinterpretation that cannot fail.
pub fn encode(text: &str, encoding_name: &str) -> (r: Result<Vec<u8>, TsvError>)
    ensures
        !known_encoding(encoding_name@) <==> r == Err::<Vec<u8>, TsvError>(TsvError::UnsupportedEncoding),
        known_encoding(encoding_name@) && encode_outcome(text@, encoding_name@) is None
            <==> r == Err::<Vec<u8>, TsvError>(TsvError::UnencodableCharacters),
        r is Ok <==> known_encoding(encoding_name@) && encode_outcome(
            text@,
            encoding_name@,
        ) is Some,
        r matches Ok(bytes) ==> encode_outcome(text@, encoding_name@) == Some(bytes@),
        encoding_name@ == "UTF-8"@ ==> (r matches Ok(bytes) && bytes@ == text.spec_bytes()),
{
    if !label_is_known(encoding_name) {
        return Err(TsvError::UnsupportedEncoding);
    }
    match encode_text(text, encoding_name) {
        Some(bytes) => Ok(bytes),
        None => Err(TsvError::UnencodableCharacters),
    }
}

} // verus!
