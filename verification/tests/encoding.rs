use tsv_viewer::encoding::{detect_and_decode, detect_line_ending, encode};
use tsv_viewer::TsvError;

#[test]
fn decode_utf8() {
    let bytes = "ヘッダ1\tヘッダ2\n値1\t値2".as_bytes();
    let (text, enc) = detect_and_decode(bytes);
    assert_eq!(enc, "UTF-8");
    assert!(text.contains("ヘッダ1"));
}

#[test]
fn decode_utf8_bom() {
    let mut bytes = vec![0xEF, 0xBB, 0xBF];
    bytes.extend_from_slice("hello\tworld".as_bytes());
    let (text, enc) = detect_and_decode(&bytes);
    assert_eq!(enc, "UTF-8");
    assert_eq!(text, "hello\tworld");
}

#[test]
fn encode_utf8() {
    let result = encode("hello\tworld", "UTF-8").unwrap();
    assert_eq!(result, b"hello\tworld".to_vec());
}

#[test]
fn encode_shift_jis() {
    let result = encode("あ", "Shift_JIS").unwrap();
    assert_eq!(result, vec![0x82, 0xA0]);
}

#[test]
fn encode_unknown_encoding() {
    let result = encode("test", "UNKNOWN-999");
    assert!(result.is_err());
    assert_eq!(result.unwrap_err(), TsvError::UnsupportedEncoding);
}

#[test]
fn detect_lf() {
    assert_eq!(detect_line_ending("a\nb\nc"), "LF");
}

#[test]
fn detect_crlf() {
    assert_eq!(detect_line_ending("a\r\nb\r\nc"), "CRLF");
}

#[test]
fn detect_empty() {
    assert_eq!(detect_line_ending("no newline"), "LF");
}

#[test]
fn decode_shift_jis_bytes() {
    // a Shift_JIS buffer long enough for the detector to recognize the
    // encoding and decode losslessly back to the original text
    let text = "こんにちは、世界。今日は良い天気ですね。日本語の文章です。";
    let bytes = encode(text, "Shift_JIS").unwrap();
    let (decoded, enc) = detect_and_decode(&bytes);
    assert_eq!(enc, "Shift_JIS");
    assert_eq!(decoded, text);
}
