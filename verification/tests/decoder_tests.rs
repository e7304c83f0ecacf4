use bardecoder::decode::{Decode, QRDecoder, QRDecoderWithInfo};
use bardecoder::qr::{ECLevel, QRData, QRError, QRInfo};

#[test]
fn test_qr_decoder_new() {
    let decoder = QRDecoder::new();
    // construction must not panic
    let _decoder_ref = &decoder;
}

#[test]
fn test_qr_decoder_with_info_new() {
    let decoder = QRDecoderWithInfo::new();
    // construction must not panic
    let _decoder_ref = &decoder;
}

#[test]
fn test_decode_invalid_data_error() {
    let decoder = QRDecoder::new();
    let error = QRError {
        msg: "Test error".to_string(),
    };
    let result = decoder.decode(Err(error.clone()));
    assert!(result.is_err());
    assert_eq!(result.unwrap_err(), error);
}

#[test]
fn test_decode_with_info_invalid_data_error() {
    let decoder = QRDecoderWithInfo::new();
    let error = QRError {
        msg: "Test error".to_string(),
    };
    let result = decoder.decode(Err(error.clone()));
    assert!(result.is_err());
    assert_eq!(result.unwrap_err(), error);
}

#[test]
fn test_qr_info_struct_fields() {
    let info = QRInfo {
        version: 7,
        ec_level: ECLevel::HIGH,
        total_data: 1024,
        errors: 5,
    };

    assert_eq!(info.version, 7);
    assert_eq!(info.ec_level, ECLevel::HIGH);
    assert_eq!(info.total_data, 1024);
    assert_eq!(info.errors, 5);
}

#[test]
fn test_qr_info_equality() {
    let info1 = QRInfo {
        version: 3,
        ec_level: ECLevel::MEDIUM,
        total_data: 512,
        errors: 2,
    };

    let info2 = QRInfo {
        version: 3,
        ec_level: ECLevel::MEDIUM,
        total_data: 512,
        errors: 2,
    };

    assert_eq!(info1, info2);
}

#[test]
fn test_qr_info_inequality() {
    let info1 = QRInfo {
        version: 3,
        ec_level: ECLevel::MEDIUM,
        total_data: 512,
        errors: 2,
    };

    let info2 = QRInfo {
        version: 4,
        ec_level: ECLevel::MEDIUM,
        total_data: 512,
        errors: 2,
    };

    assert_ne!(info1, info2);
}

#[test]
fn test_decode_rejects_malformed_grid() {
    // a grid whose buffer does not cover the symbol is refused, not a panic
    let decoder = QRDecoder::new();
    let bad = QRData { data: vec![0u8; 10], version: 1, side: 21 };
    assert!(decoder.decode(Ok(bad)).is_err());
    let decoder2 = QRDecoderWithInfo::new();
    let bad2 = QRData { data: vec![0u8; 441], version: 99, side: 413 };
    assert!(decoder2.decode(Ok(bad2)).is_err());
}

#[test]
fn test_decode_all_dark_grid_fails_cleanly() {
    // an all-dark grid has undecodable format information
    let decoder = QRDecoder::new();
    let grid = QRData::new(vec![1u8; 441], 1);
    let r = decoder.decode(Ok(grid));
    assert!(r.is_err());
}
