use tipitaka_xml_parser::encoding::{crlf_to_lf, decode_xml_bytes, detect_encoding, TextEncoding};

#[test]
fn test_detect_utf16le_bom() {
    let bytes = vec![0xFF, 0xFE, 0x41, 0x00];
    let (encoding, has_bom) = detect_encoding(&bytes);
    assert_eq!(encoding, TextEncoding::Utf16Le);
    assert!(has_bom);
}

#[test]
fn test_detect_utf16be_bom() {
    let bytes = vec![0xFE, 0xFF, 0x00, 0x41];
    let (encoding, has_bom) = detect_encoding(&bytes);
    assert_eq!(encoding, TextEncoding::Utf16Be);
    assert!(has_bom);
}

#[test]
fn test_detect_utf8_bom() {
    let bytes = vec![0xEF, 0xBB, 0xBF, 0x41];
    let (encoding, has_bom) = detect_encoding(&bytes);
    assert_eq!(encoding, TextEncoding::Utf8);
    assert!(has_bom);
}

#[test]
fn test_detect_no_bom() {
    let bytes = vec![0x41, 0x42, 0x43];
    let (encoding, has_bom) = detect_encoding(&bytes);
    assert_eq!(encoding, TextEncoding::Utf8);
    assert!(!has_bom);
}

#[test]
fn test_crlf_to_lf_conversion() {
    let input = "Line 1\r\nLine 2\r\nLine 3";
    let output = crlf_to_lf(input);
    assert_eq!(output, "Line 1\nLine 2\nLine 3");
}

#[test]
fn crlf_keeps_lone_carriage_returns() {
    assert_eq!(crlf_to_lf("a\rb\r\r\nc\n"), "a\rb\r\nc\n");
    assert_eq!(crlf_to_lf(""), "");
}

#[test]
fn decode_utf16le_with_bom_and_crlf() {
    // BOM, then "A\r\nā" in UTF-16LE
    let bytes = vec![0xFF, 0xFE, 0x41, 0x00, 0x0D, 0x00, 0x0A, 0x00, 0x01, 0x01];
    assert_eq!(decode_xml_bytes(&bytes), "A\nā");
}

#[test]
fn decode_utf16be_with_bom() {
    let bytes = vec![0xFE, 0xFF, 0x00, 0x41, 0x00, 0x42];
    assert_eq!(decode_xml_bytes(&bytes), "AB");
}

#[test]
fn decode_utf8_with_and_without_bom() {
    let with_bom = vec![0xEF, 0xBB, 0xBF, b'x', b'\r', b'\n', b'y'];
    assert_eq!(decode_xml_bytes(&with_bom), "x\ny");
    let plain = "saṃyutta\r\n".as_bytes().to_vec();
    assert_eq!(decode_xml_bytes(&plain), "saṃyutta\n");
}
