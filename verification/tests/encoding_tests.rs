use signature_scrubber::encoding::{
    decode, fallback_charcode, is_decodable_len, legacy_outcome, resolve_text, DecodeError,
    StringDecodeError, StringDecodeErrorKind,
};

const NIHONGO_SJIS: [u8; 6] = [0x93, 0xfa, 0x96, 0x7b, 0x8c, 0xea];

#[test]
fn ascii_is_read_as_it_is() {
    assert_eq!(decode(b"plain text\r\n".to_vec()).unwrap(), "plain text\r\n");
}

#[test]
fn empty_buffer_is_empty_text() {
    assert_eq!(decode(Vec::new()).unwrap(), "");
}

#[test]
fn shift_jis_is_read_first() {
    assert_eq!(decode(NIHONGO_SJIS.to_vec()).unwrap(), "日本語");
    assert_eq!(fallback_charcode(&NIHONGO_SJIS.to_vec()).unwrap(), "日本語");
}

#[test]
fn utf8_is_read_where_shift_jis_fails() {
    let bytes = "あ".as_bytes().to_vec();
    assert_eq!(bytes, vec![0xe3, 0x81, 0x82]);
    let (_, _, malformed) = encoding_rs::SHIFT_JIS.decode(&bytes);
    assert!(malformed);
    assert!(fallback_charcode(&bytes).is_err());
    assert_eq!(decode(bytes).unwrap(), "あ");
}

#[test]
fn bytes_valid_under_both_are_read_as_shift_jis() {
    // Two half-width katakana in Shift-JIS, one accented letter in UTF-8.
    let bytes = "é".as_bytes().to_vec();
    let (legacy, _, malformed) = encoding_rs::SHIFT_JIS.decode(&bytes);
    let legacy = legacy.into_owned();
    assert!(!malformed);
    let text = decode(bytes.clone()).unwrap();
    assert_eq!(text, legacy);
    assert_eq!(text, "ﾃｩ");
}

#[test]
fn bytes_valid_under_neither_are_an_error() {
    assert!(decode(vec![0xff]).is_err());
    assert!(decode(vec![b'a', 0xff, b'b']).is_err());
    let e: DecodeError = decode(vec![0xff, 0xfe, 0xfd]).unwrap_err();
    assert!(!e.reason.is_empty());
}

#[test]
fn decode_error_carries_the_utf8_reason() {
    let bytes = vec![b'o', b'k', 0xff];
    let expected = String::from_utf8(bytes.clone()).unwrap_err().to_string();
    assert_eq!(decode(bytes).unwrap_err().reason, expected);
}

#[test]
fn fallback_charcode_reports_not_shift_jis() {
    let e = fallback_charcode(&vec![0xff]).unwrap_err();
    assert_eq!(e.kind, StringDecodeErrorKind::FromSjis);
    assert_eq!(e.msg, "SJISではありません。");
}

#[test]
fn fallback_charcode_agrees_with_the_decoder() {
    let samples: Vec<Vec<u8>> = vec![
        vec![],
        b"abc".to_vec(),
        NIHONGO_SJIS.to_vec(),
        vec![0x82],
        vec![0x82, 0xa0],
        vec![0x80],
        vec![0xa1, 0xdf],
        vec![0xef, 0xbb, 0xbf, b'a'],
        vec![0xfd],
    ];
    for bytes in samples {
        let (text, _, malformed) = encoding_rs::SHIFT_JIS.decode(&bytes);
        match fallback_charcode(&bytes) {
            Ok(s) => {
                assert!(!malformed);
                assert_eq!(s, text);
            }
            Err(e) => {
                assert!(malformed);
                assert_eq!(e.kind, StringDecodeErrorKind::FromSjis);
            }
        }
    }
}

#[test]
fn legacy_outcome_keeps_clean_text() {
    assert_eq!(legacy_outcome("text".to_string(), false).unwrap(), "text");
}

#[test]
fn legacy_outcome_drops_malformed_text() {
    let e = legacy_outcome("te\u{fffd}xt".to_string(), true).unwrap_err();
    assert_eq!(e.kind, StringDecodeErrorKind::FromSjis);
    assert_eq!(e.msg, "SJISではありません。");
}

#[test]
fn resolve_text_prefers_the_legacy_reading() {
    let legacy = Ok("legacy".to_string());
    assert_eq!(resolve_text(legacy, b"utf8".to_vec()).unwrap(), "legacy");
}

#[test]
fn resolve_text_falls_back_to_utf8() {
    let failed = || Err(StringDecodeError::new(StringDecodeErrorKind::FromSjis, "no"));
    assert_eq!(resolve_text(failed(), "héllo".as_bytes().to_vec()).unwrap(), "héllo");
    assert!(resolve_text(failed(), vec![0xc3]).is_err());
    assert!(resolve_text(failed(), vec![0xed, 0xa0, 0x80]).is_err());
}

#[test]
fn string_decode_error_new_keeps_its_arguments() {
    let e = StringDecodeError::new(StringDecodeErrorKind::FromSjis, "message");
    assert_eq!(e.kind, StringDecodeErrorKind::FromSjis);
    assert_eq!(e.msg, "message");
}

#[test]
fn decodable_len_bounds_the_buffer() {
    assert!(is_decodable_len(0));
    assert!(is_decodable_len(1 << 20));
    assert!(is_decodable_len(usize::MAX / 12 - 2));
    assert!(!is_decodable_len(usize::MAX / 12 - 1));
    assert!(!is_decodable_len(usize::MAX));
}

#[test]
fn string_decode_error_shows_its_message() {
    let e = StringDecodeError::new(StringDecodeErrorKind::FromSjis, "message");
    assert_eq!(e.message(), "message");
    let e = fallback_charcode(&vec![0xff]).unwrap_err();
    assert_eq!(e.message(), "SJISではありません。");
}

#[test]
fn byte_order_mark_decides_the_legacy_reading() {
    // Behind a UTF-8 mark the bytes are read as UTF-8, and the mark is dropped.
    let mut bytes = vec![0xef, 0xbb, 0xbf];
    bytes.extend_from_slice("あ".as_bytes());
    assert_eq!(fallback_charcode(&bytes).unwrap(), "あ");
    assert_eq!(decode(bytes).unwrap(), "あ");
    // Behind a UTF-16 mark two bytes make one character.
    assert_eq!(decode(vec![0xff, 0xfe, 0x41, 0x00]).unwrap(), "A");
    assert_eq!(decode(vec![0xfe, 0xff, 0x41, 0x0d]).unwrap(), "\u{410d}");
}
