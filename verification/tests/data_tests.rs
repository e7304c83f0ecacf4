use bardecoder::data::data;
use bardecoder::qr::QRError;

/// Packs a bit string written as '0'/'1' characters into bytes, most
/// significant bit first, padding the last byte with zero bits.
fn bits_to_bytes(bits: &str) -> Vec<u8> {
    let mut out = Vec::new();
    let mut cur = 0u8;
    let mut n = 0;
    for c in bits.chars().filter(|c| *c == '0' || *c == '1') {
        cur = (cur << 1) | if c == '1' { 1 } else { 0 };
        n += 1;
        if n == 8 {
            out.push(cur);
            cur = 0;
            n = 0;
        }
    }
    if n > 0 {
        out.push(cur << (8 - n));
    }
    out
}

#[test]
fn test_numeric_payload() {
    // the standard's numeric example: "01234567" in a version 1 symbol
    let bytes = bits_to_bytes("0001 0000001000 0000001100 0101011001 1000011 0000");
    let r = data(bytes, 1).unwrap();
    assert_eq!(r, "01234567");
}

#[test]
fn test_alphanumeric_payload() {
    // the standard's alphanumeric example: "AC-42"
    let bytes = bits_to_bytes("0010 000000101 00111001110 11100111001 000010 0000");
    let r = data(bytes, 1).unwrap();
    assert_eq!(r, "AC-42");
}

#[test]
fn test_byte_payload() {
    // two eight-bit characters, ISO-8859-1
    let bytes = bits_to_bytes("0100 00000010 01000001 01000010 0000");
    let r = data(bytes, 1).unwrap();
    assert_eq!(r, "AB");
}

#[test]
fn test_mixed_segments() {
    // a numeric segment followed by a byte segment
    let bytes = bits_to_bytes("0001 0000000010 0100011 0100 00000001 00100001 0000");
    let r = data(bytes, 1).unwrap();
    assert_eq!(r, "35!");
}

#[test]
fn test_empty_stream_is_empty_payload() {
    let r = data(vec![], 1).unwrap();
    assert_eq!(r, "");
    let r2 = data(vec![0u8, 0u8], 1).unwrap();
    assert_eq!(r2, "");
}

#[test]
fn test_unknown_mode_is_error() {
    // mode 0011 names no supported segment kind
    let bytes = bits_to_bytes("0011 00000000");
    let r: Result<String, QRError> = data(bytes, 1);
    assert!(r.is_err());
}

#[test]
fn test_kanji_mode_unsupported() {
    // mode 1000 (kanji) is refused rather than mis-decoded
    let bytes = bits_to_bytes("1000 00000001 0000000000000");
    assert!(data(bytes, 1).is_err());
}

#[test]
fn test_eci_above_three_is_error() {
    // an ECI designator above 3 selects a charset the decoder cannot render
    let bytes = bits_to_bytes("0111 00011010 0000");
    assert!(data(bytes, 1).is_err());
}

#[test]
fn test_eci_latin_passthrough() {
    // ECI 3 is the Latin default; the following byte segment decodes
    let bytes = bits_to_bytes("0111 00000011 0100 00000001 01011010 0000");
    let r = data(bytes, 1).unwrap();
    assert_eq!(r, "Z");
}

#[test]
fn test_numeric_truncated_is_error() {
    // a numeric segment whose count runs past the stream
    let bytes = bits_to_bytes("0001 0000001000 0000001100");
    assert!(data(bytes, 1).is_err());
}

#[test]
fn test_wider_count_fields_for_later_versions() {
    // in a version 10 symbol the byte-mode count field is 16 bits wide
    let bytes = bits_to_bytes("0100 0000000000000001 01001000 0000");
    let r = data(bytes, 10).unwrap();
    assert_eq!(r, "H");
}

#[test]
fn test_numeric_group_out_of_range() {
    // a ten-bit numeric group above 999 cannot name three digits
    let bytes = bits_to_bytes("0001 0000000011 1111101000");
    assert!(data(bytes, 1).is_err());
}

#[test]
fn test_trailing_bits_must_be_zero() {
    // a stream that runs out mid-byte is accepted over zero padding only
    let ok_bytes = bits_to_bytes("0001 0000000010 0100011 000");
    assert_eq!(data(ok_bytes, 1).unwrap(), "35");
    let bad_bytes = bits_to_bytes("0001 0000000010 0100011 111");
    assert!(data(bad_bytes, 1).is_err());
}
