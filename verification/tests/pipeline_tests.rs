use bardecoder::decode::QRDecoder;
use bardecoder::detect::{Detect, Location, Point, QRLocation};
use bardecoder::extract::Extract;
use bardecoder::prepare::Prepare;
use bardecoder::qr::{QRData, QRError};
use bardecoder::{BuilderError, Decoder, DecoderBuilder};

/// A prepare stage that hands the source through unchanged.
struct PassThrough;

impl Prepare<Vec<u8>, Vec<u8>> for PassThrough {
    fn prepare(&self, source: &Vec<u8>) -> Vec<u8> {
        source.clone()
    }
}

/// A detector that reports no candidates.
struct NoCandidates;

impl Detect<Vec<u8>> for NoCandidates {
    fn detect(&self, _prepared: &Vec<u8>) -> Vec<Location> {
        Vec::new()
    }
}

/// A detector that reports one fixed candidate.
struct OneCandidate;

impl Detect<Vec<u8>> for OneCandidate {
    fn detect(&self, _prepared: &Vec<u8>) -> Vec<Location> {
        vec![Location::QR(QRLocation {
            top_left: Point { x: 0, y: 0 },
            top_right: Point { x: 20, y: 0 },
            bottom_left: Point { x: 0, y: 20 },
            module_size: 1,
            version: 1,
        })]
    }
}

/// An extractor that reports every candidate as unreadable.
struct Unreadable;

impl Extract<Vec<u8>, QRLocation, QRData, QRError> for Unreadable {
    fn extract(&self, _prepared: &Vec<u8>, _loc: QRLocation) -> Result<QRData, QRError> {
        Err(QRError {
            msg: "unreadable".to_string(),
        })
    }
}

type TestBuilder = DecoderBuilder<Vec<u8>, Vec<u8>, String, PassThrough, NoCandidates, Unreadable, QRDecoder>;

#[test]
fn test_builder_missing_prepare() {
    let mut builder: TestBuilder = DecoderBuilder::new();
    builder.detect(NoCandidates);
    builder.qr(Unreadable, QRDecoder::new());

    let result = builder.build();
    assert!(result.is_err());
    match result {
        Err(BuilderError::MissingPrepare) => (),
        _ => panic!("Expected MissingPrepare error"),
    }
}

#[test]
fn test_builder_missing_detect() {
    let mut builder: TestBuilder = DecoderBuilder::new();
    builder.prepare(PassThrough);
    builder.qr(Unreadable, QRDecoder::new());

    let result = builder.build();
    assert!(result.is_err());
    match result {
        Err(BuilderError::MissingDetect) => (),
        _ => panic!("Expected MissingDetect error"),
    }
}

#[test]
fn test_builder_missing_qr() {
    let mut builder: TestBuilder = DecoderBuilder::new();
    builder.prepare(PassThrough);
    builder.detect(NoCandidates);

    let result = builder.build();
    assert!(result.is_err());
    match result {
        Err(BuilderError::MissingQR) => (),
        _ => panic!("Expected MissingQR error"),
    }
}

#[test]
fn test_builder_success() {
    let mut builder: TestBuilder = DecoderBuilder::new();
    builder.prepare(PassThrough);
    builder.detect(NoCandidates);
    builder.qr(Unreadable, QRDecoder::new());

    let result = builder.build();
    assert!(result.is_ok());
}

#[test]
fn test_pipeline_empty_image_gives_empty_list() {
    let mut builder: TestBuilder = DecoderBuilder::new();
    builder.prepare(PassThrough);
    builder.detect(NoCandidates);
    builder.qr(Unreadable, QRDecoder::new());
    let decoder: Decoder<_, _, _, _, _, _, _> = builder.build().unwrap();

    let results = decoder.decode(&vec![0u8; 16]);
    assert!(results.is_empty());
}

#[test]
fn test_pipeline_one_result_per_candidate() {
    let mut builder: DecoderBuilder<Vec<u8>, Vec<u8>, String, PassThrough, OneCandidate, Unreadable, QRDecoder> =
        DecoderBuilder::new();
    builder.prepare(PassThrough);
    builder.detect(OneCandidate);
    builder.qr(Unreadable, QRDecoder::new());
    let decoder = builder.build().unwrap();

    let results = decoder.decode(&vec![0u8; 16]);
    assert_eq!(results.len(), 1);
    assert!(results[0].is_err());
}

#[test]
fn test_builder_error_messages() {
    assert_eq!(
        BuilderError::MissingPrepare.message(),
        "Cannot build Decoder without Prepare component"
    );
    assert_eq!(
        BuilderError::MissingDetect.message(),
        "Cannot build Decoder without Detect component"
    );
    assert_eq!(
        BuilderError::MissingQR.message(),
        "Cannot build Decoder without QR extract and decode components"
    );
}
