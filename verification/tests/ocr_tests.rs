use base64::Engine;
use speaker_capture::ocr::{decode_image_base64, image_bytes_or_message, ocr_result, recognized_text, Base64Error};

fn crate_message(input: &str) -> String {
    let e = base64::engine::general_purpose::STANDARD.decode(input).unwrap_err();
    format!("Failed to decode base64: {}", e)
}

#[test]
fn decodes_valid_base64() {
    assert_eq!(decode_image_base64("aGVsbG8=").unwrap(), b"hello".to_vec());
    assert_eq!(decode_image_base64("").unwrap(), Vec::<u8>::new());
    assert_eq!(decode_image_base64("AAEC").unwrap(), vec![0, 1, 2]);
}

#[test]
fn invalid_symbol_message() {
    let msg = decode_image_base64("!!!!").unwrap_err();
    assert_eq!(msg, "Failed to decode base64: Invalid symbol 33, offset 0.");
    assert_eq!(msg, crate_message("!!!!"));
}

#[test]
fn other_error_messages_match_the_crate() {
    for input in ["a", "aGVsbG8", "aGVsbG9=", "aGVsbG8==", "QQ=="[..3].as_ref(), "Zm9v!"] {
        assert_eq!(decode_image_base64(input).unwrap_err(), crate_message(input), "input {:?}", input);
    }
}

#[test]
fn error_variant_messages() {
    assert_eq!(
        image_bytes_or_message(Err(Base64Error::InvalidByte(3, 64))).unwrap_err(),
        "Failed to decode base64: Invalid symbol 64, offset 3."
    );
    assert_eq!(
        image_bytes_or_message(Err(Base64Error::InvalidLength(5))).unwrap_err(),
        "Failed to decode base64: Invalid input length: 5"
    );
    assert_eq!(
        image_bytes_or_message(Err(Base64Error::InvalidLastSymbol(7, 57))).unwrap_err(),
        "Failed to decode base64: Invalid last symbol 57, offset 7."
    );
    assert_eq!(
        image_bytes_or_message(Err(Base64Error::InvalidPadding)).unwrap_err(),
        "Failed to decode base64: Invalid padding"
    );
    assert_eq!(image_bytes_or_message(Ok(vec![1, 2])).unwrap(), vec![1, 2]);
}

#[test]
fn successful_recognition_is_trimmed() {
    assert_eq!(ocr_result(true, b"  hello world \n", b"ignored").unwrap(), "hello world");
    assert_eq!(ocr_result(true, b"\n\n", b"").unwrap(), "");
    assert_eq!(ocr_result(true, b"line one\nline two\n", b"").unwrap(), "line one\nline two");
    assert_eq!(ocr_result(true, &[0xff, b'x'], b"").unwrap(), "\u{FFFD}x");
}

#[test]
fn failed_recognition_reports_stderr() {
    assert_eq!(ocr_result(false, b"out", b"boom").unwrap_err(), "OCR failed: boom");
    assert_eq!(ocr_result(false, b"", b" spaced \n").unwrap_err(), "OCR failed:  spaced \n");
    assert_eq!(ocr_result(false, b"", b"").unwrap_err(), "OCR failed: ");
}

#[test]
fn recognized_text_from_decoded_output() {
    assert_eq!(recognized_text(true, "\u{3000}text\t", "").unwrap(), "text");
    assert_eq!(recognized_text(false, "text", "err").unwrap_err(), "OCR failed: err");
}

#[test]
fn recognizer_output_is_decoded_lossily() {
    assert_eq!(ocr_result(false, b"", &[0xff]).unwrap_err(), "OCR failed: \u{FFFD}");
    assert_eq!(ocr_result(true, "  é\n".as_bytes(), b"").unwrap(), "é");
}
