//! The decode stage: from a sampled module grid to the payload string.
//! The decoder reads the format information, extracts and de-interleaves
//! the codeword stream, corrects each Reed-Solomon block, and parses the
//! remaining data codewords as the payload grammar.

use vstd::prelude::*;
use vstd::string::*;

use crate::block_info::block_info;
use crate::block_info::block_info_seq;
use crate::block_info::data_codewords_spec;
use crate::block_info::sum_data_to;
use crate::blocks::blocks;
use crate::blocks::codeword_stream;
use crate::block_info::sum_total;
use crate::block_info::BlockInfo;
use crate::correct::all_syndromes_zero;
use crate::format::format_spec;
use crate::data::data;
use crate::qr::ECLevel;
use crate::qr::QRData;
use crate::qr::QRError;
use crate::qr::QRInfo;

verus! {

/// The data codewords of the first `j` de-interleaved blocks, in block
/// order: each block contributes its data prefix.
pub open spec fn data_concat(bi: Seq<BlockInfo>, bl: Seq<Seq<u8>>, j: int) -> Seq<u8>
    decreases j,
{
    if j <= 0 {
        Seq::empty()
    } else {
        data_concat(bi, bl, j - 1) + bl[j - 1].take(bi[j - 1].data_per as int)
    }
}

/// What a clean symbol decodes to: where the format information is
/// readable, the grid yields exactly the codeword capacity, and every
/// de-interleaved block is already a valid codeword (all its syndromes
/// zero), the payload is the parse of the concatenated data codewords.
/// Anything else leaves the outcome to error correction and is not
/// promised here.
pub open spec fn clean_decode_spec(data: QRData) -> Option<Seq<char>> {
    if format_spec(data) is Some {
        let level = (format_spec(data)->0).0;
        let id = (format_spec(data)->0).1;
        let biq = block_info_seq(data.version, level);
        let stream = codeword_stream(data, id as int);
        let e = biq[0].total_per - biq[0].data_per;
        let bl = crate::blocks::deinterleave_spec(biq, e as int, stream);
        if stream.len() == sum_total(biq) && (forall|i: int|
            0 <= i < biq.len() ==> all_syndromes_zero(#[trigger] bl[i], biq[i].ec_cap as int)) {
            crate::data::payload_spec(data_concat(biq, bl, biq.len() as int), data.version as int)
        } else {
            None
        }
    } else {
        None
    }
}

/// The decode capability of the pipeline: turns extracted symbol data
/// into a result, passing an upstream failure through.
pub trait Decode<DATA, RESULT, ERROR> {
    /// What an implementation promises of its result for each input; an
    /// implementation that states nothing of itself promises nothing.
    open spec fn decode_rel(&self, data: Result<DATA, ERROR>, r: Result<RESULT, ERROR>) -> bool {
        true
    }

    /// Decodes one extracted symbol, or passes its upstream failure on.
    fn decode(&self, data: Result<DATA, ERROR>) -> (r: Result<RESULT, ERROR>)
        ensures
            self.decode_rel(data, r),
    ;
}

/// Decodes a QR module grid into the payload string.
///
/// The decoder, in order, reads the format information, extracts the
/// interleaved codeword blocks, corrects each block, and decodes the
/// data codewords into a string. A grid whose syndromes are all zero
/// skips the correction arithmetic.
pub struct QRDecoder {}

impl QRDecoder {
    /// A new decoder for plain payload strings.
    pub fn new() -> (r: QRDecoder) {
        QRDecoder {  }
    }
}

/// Shared body of the two decoders: the payload together with the
/// error correction level and the corrected bit-flip count.
#[verifier::rlimit(100)]
fn decode_payload(qr_data: &QRData) -> (r: Result<(String, ECLevel, u32, u32), QRError>)
    requires
        qr_data.wf(),
    ensures
        format_spec(*qr_data) is None ==> r is Err,
        clean_decode_spec(*qr_data) is Some ==> r is Ok && (r->Ok_0).0@ == clean_decode_spec(
            *qr_data,
        )->0 && (r->Ok_0).3 == 0,
        r is Ok ==> format_spec(*qr_data) is Some,
        r is Ok ==> ({
            let (text, level, total_data, errors) = r->Ok_0;
            &&& (format_spec(*qr_data)->0).0 == level
            &&& total_data == 8 * data_codewords_spec(qr_data.version, level)
            &&& codeword_stream(*qr_data, (format_spec(*qr_data)->0).1 as int).len() == sum_total(
                block_info_seq(qr_data.version, level),
            )
        }),
{
    let ghost cds = clean_decode_spec(*qr_data);
    let (level, mask) = match crate::format::format(qr_data) {
        Ok(f) => f,
        Err(e) => { return Err(e) },
    };
    let ghost biq = block_info_seq(qr_data.version, level);
    let ghost stream = codeword_stream(*qr_data, mask.id as int);
    let ghost e = biq[0].total_per - biq[0].data_per;
    let ghost bl = crate::blocks::deinterleave_spec(biq, e as int, stream);
    let blocks_v = match blocks(qr_data, &level, &mask) {
        Ok(b) => b,
        Err(e2) => {
            proof {
                assert(cds is None);
            }
            return Err(e2)
        },
    };
    let bi = match block_info(qr_data.version, &level) {
        Ok(b) => b,
        Err(e2) => { return Err(e2) },
    };
    let mut all_blocks: Vec<u8> = Vec::new();
    let mut total_errors: u32 = 0;
    let mut i: usize = 0;
    proof {
        assert(data_concat(biq, bl, 0) =~= Seq::<u8>::empty());
    }
    while i < blocks_v.len()
        invariant
            qr_data.wf(),
            blocks_v@.len() == biq.len(),
            bi@ == biq,
            i <= biq.len(),
            biq.len() <= 81,
            biq == block_info_seq(qr_data.version, level),
            (format_spec(*qr_data)->0).0 == level,
            (format_spec(*qr_data)->0).1 == mask.id,
            format_spec(*qr_data) is Some,
            stream == codeword_stream(*qr_data, mask.id as int),
            e == biq[0].total_per - biq[0].data_per,
            bl == crate::blocks::deinterleave_spec(biq, e as int, stream),
            cds == clean_decode_spec(*qr_data),
            Seq::new(biq.len(), |k: int| blocks_v@[k]@) == bl,
            stream.len() == sum_total(biq),
            forall|k: int|
                0 <= k < biq.len() ==> (#[trigger] blocks_v@[k]@).len() == biq[k].total_per as int,
            forall|k: int| 0 <= k < biq.len() ==> (#[trigger] biq[k]).data_per >= 1,
            forall|k: int|
                0 <= k < biq.len() ==> (#[trigger] biq[k]).total_per >= biq[k].data_per,
            forall|k: int|
                0 <= k < biq.len() ==> (#[trigger] biq[k]).ec_cap == biq[0].ec_cap,
            all_blocks@.len() == sum_data_to(biq, i as int),
            all_blocks@.len() <= i * 255,
            total_errors <= i * 2048,
            cds is Some ==> all_blocks@ == data_concat(biq, bl, i as int),
            cds is Some ==> total_errors == 0,
        decreases biq.len() - i,
    {
        let block = blocks_v[i].clone();
        proof {
            assert(block@ =~= blocks_v@[i as int]@);
            assert(Seq::new(biq.len(), |k: int| blocks_v@[k]@)[i as int] == blocks_v@[i as int]@);
            if cds is Some {
                assert(block@ == bl[i as int]);
                assert(all_syndromes_zero(bl[i as int], biq[i as int].ec_cap as int));
            }
        }
        let (corrected, error_count) = match crate::correct::correct_with_error_count(
            block,
            &bi[i],
        ) {
            Ok(c) => c,
            Err(e2) => {
                proof {
                    assert(cds is None);
                }
                return Err(e2)
            },
        };
        proof {
            if cds is Some {
                assert(corrected@ == bl[i as int]);
            }
        }
        let take = bi[i].data_per as usize;
        let mut j: usize = 0;
        proof {
            assert(all_blocks@ + corrected@.take(0) =~= all_blocks@);
        }
        let ghost ab0 = all_blocks@;
        while j < take
            invariant
                i < biq.len(),
                take == biq[i as int].data_per,
                take <= corrected@.len(),
                j <= take,
                all_blocks@.len() == sum_data_to(biq, i as int) + j,
                all_blocks@.len() <= i * 255 + j,
                all_blocks@ == ab0 + corrected@.take(j as int),
                ab0.len() == sum_data_to(biq, i as int),
            decreases take - j,
        {
            let byte = corrected[j];
            all_blocks.push(byte);
            proof {
                assert(all_blocks@ =~= ab0 + corrected@.take(j as int + 1));
            }
            j = j + 1;
        }
        total_errors = total_errors + error_count;
        proof {
            assert(sum_data_to(biq, i as int + 1) == sum_data_to(biq, i as int)
                + biq[i as int].data_per);
            assert((i + 1) * 255 == i * 255 + 255) by (nonlinear_arith);
            assert((i + 1) * 2048 == i * 2048 + 2048) by (nonlinear_arith);
            if cds is Some {
                assert(corrected@.take(take as int) =~= bl[i as int].take(
                    biq[i as int].data_per as int,
                ));
                assert(all_blocks@ == data_concat(biq, bl, i as int + 1));
            }
        }
        i = i + 1;
    }
    proof {
        assert(sum_data_to(biq, biq.len() as int) == data_codewords_spec(
            qr_data.version,
            level,
        ));
        assert(81 * 255 < 100000);
        assert(i * 255 <= 81 * 255) by (nonlinear_arith)
            requires
                0 <= i <= 81,
        ;
        assert(i * 2048 <= 81 * 2048) by (nonlinear_arith)
            requires
                0 <= i <= 81,
        ;
    }
    let total_data = (all_blocks.len() as u32) * 8;
    let text = match data(all_blocks, qr_data.version) {
        Ok(t) => t,
        Err(e2) => {
            proof {
                assert(cds is None);
            }
            return Err(e2)
        },
    };
    Ok((text, level, total_data, total_errors))
}

impl Decode<QRData, String, QRError> for QRDecoder {
    /// The decoder's whole promise: an upstream failure passes through
    /// unchanged; a malformed grid or undecodable format information is
    /// refused; a success always rests on readable format information;
    /// and a clean symbol decodes to exactly its parsed payload.
    open spec fn decode_rel(&self, data: Result<QRData, QRError>, r: Result<String, QRError>) -> bool {
        &&& data is Err ==> r is Err && r->Err_0 == data->Err_0
        &&& r is Ok ==> data is Ok && data->Ok_0.wf() && format_spec(data->Ok_0) is Some
        &&& data is Ok && !data->Ok_0.wf() ==> r is Err
        &&& data is Ok && format_spec(data->Ok_0) is None ==> r is Err
        &&& data is Ok && data->Ok_0.wf() && clean_decode_spec(data->Ok_0) is Some ==> r is Ok
            && r->Ok_0@ == clean_decode_spec(data->Ok_0)->0
    }

    /// Decodes the grid to its payload string. An upstream failure is
    /// handed through unchanged; a malformed grid, undecodable format
    /// information, a codeword count that does not match the version, an
    /// uncorrectable block, or a malformed payload is an error.
    fn decode(&self, data: Result<QRData, QRError>) -> (r: Result<String, QRError>) {
        let qr_data = match data {
            Ok(d) => d,
            Err(e) => { return Err(e) },
        };
        if !qr_data.check_wf() {
            return Err(QRError { msg: String::from_str("malformed module grid") });
        }
        match decode_payload(&qr_data) {
            Ok((text, _, _, _)) => Ok(text),
            Err(e) => Err(e),
        }
    }
}

/// Decodes a QR module grid into the payload string beside a diagnostic
/// record of the decode: the version, the error correction level, the
/// data bit count, and the number of bit flips correction repaired.
pub struct QRDecoderWithInfo {}

impl QRDecoderWithInfo {
    /// A new decoder that also reports diagnostics.
    pub fn new() -> (r: QRDecoderWithInfo) {
        QRDecoderWithInfo {  }
    }
}

impl Decode<QRData, (String, QRInfo), QRError> for QRDecoderWithInfo {
    /// The decoder's whole promise: that of the plain decoder, and the
    /// diagnostics name the grid's version and decoded level, count
    /// eight data bits per data codeword of the (version, level), and
    /// report zero corrected flips for a clean symbol.
    open spec fn decode_rel(
        &self,
        data: Result<QRData, QRError>,
        r: Result<(String, QRInfo), QRError>,
    ) -> bool {
        &&& data is Err ==> r is Err && r->Err_0 == data->Err_0
        &&& r is Ok ==> data is Ok && data->Ok_0.wf() && format_spec(data->Ok_0) is Some
        &&& data is Ok && !data->Ok_0.wf() ==> r is Err
        &&& data is Ok && format_spec(data->Ok_0) is None ==> r is Err
        &&& data is Ok && data->Ok_0.wf() && clean_decode_spec(data->Ok_0) is Some ==> r is Ok
            && (r->Ok_0).0@ == clean_decode_spec(data->Ok_0)->0 && (r->Ok_0).1.errors == 0
        &&& r is Ok ==> ({
            let info = (r->Ok_0).1;
            &&& info.version == data->Ok_0.version
            &&& (format_spec(data->Ok_0)->0).0 == info.ec_level
            &&& info.total_data == 8 * data_codewords_spec(data->Ok_0.version, info.ec_level)
        })
    }

    /// Decodes the grid to its payload string and diagnostics. The info
    /// names the grid's version and decoded level, and counts the data
    /// bits: eight per data codeword of the (version, level).
    fn decode(&self, data: Result<QRData, QRError>) -> (r: Result<(String, QRInfo), QRError>) {
        let qr_data = match data {
            Ok(d) => d,
            Err(e) => { return Err(e) },
        };
        if !qr_data.check_wf() {
            return Err(QRError { msg: String::from_str("malformed module grid") });
        }
        match decode_payload(&qr_data) {
            Ok((text, level, total_data, errors)) => Ok(
                (
                    text,
                    QRInfo { version: qr_data.version, ec_level: level, total_data, errors },
                ),
            ),
            Err(e) => Err(e),
        }
    }
}

} // verus!
