//! The pipeline orchestrator: a decoder built out of the four stage
//! capabilities, and the builder that assembles one, refusing to build
//! while a stage is missing.

use vstd::prelude::*;
use vstd::string::*;

use crate::decode::Decode;
use crate::detect::Detect;
use crate::detect::Location;
use crate::detect::QRLocation;
use crate::extract::Extract;
use crate::prepare::Prepare;
use crate::qr::QRData;
use crate::qr::QRError;

verus! {

/// Why a decoder could not be built: the stage that was not provided.
#[derive(Clone, Copy, Debug, PartialEq, Eq, Structural)]
pub enum BuilderError {
    /// The prepare component is required but was not provided.
    MissingPrepare,
    /// The detect component is required but was not provided.
    MissingDetect,
    /// The QR extract and decode components are required but were not
    /// provided.
    MissingQR,
}

impl BuilderError {
    /// The account each variant gives of its missing stage.
    pub open spec fn message_spec(&self) -> Seq<char> {
        match self {
            BuilderError::MissingPrepare => "Cannot build Decoder without Prepare component"@,
            BuilderError::MissingDetect => "Cannot build Decoder without Detect component"@,
            BuilderError::MissingQR => "Cannot build Decoder without QR extract and decode components"@,
        }
    }

    /// A human-readable account of the missing stage.
    pub fn message(&self) -> (r: String)
        ensures
            r@ == self.message_spec(),
    {
        match self {
            BuilderError::MissingPrepare => String::from_str(
                "Cannot build Decoder without Prepare component",
            ),
            BuilderError::MissingDetect => String::from_str(
                "Cannot build Decoder without Detect component",
            ),
            BuilderError::MissingQR => String::from_str(
                "Cannot build Decoder without QR extract and decode components",
            ),
        }
    }
}

struct ExtractDecode<E, Q> {
    extract: E,
    decode: Q,
}

/// The whole decoding pipeline: prepare, detect, and per detected
/// symbol extract and decode.
pub struct Decoder<IMG, PREPD, RESULT, P, D, E, Q> where
    P: Prepare<IMG, PREPD>,
    D: Detect<PREPD>,
    E: Extract<PREPD, QRLocation, QRData, QRError>,
    Q: Decode<QRData, RESULT, QRError>,
 {
    prepare: P,
    detect: D,
    qr: ExtractDecode<E, Q>,
    marker: core::marker::PhantomData<(IMG, PREPD, RESULT)>,
}

impl<IMG, PREPD, RESULT, P, D, E, Q> Decoder<IMG, PREPD, RESULT, P, D, E, Q> where
    P: Prepare<IMG, PREPD>,
    D: Detect<PREPD>,
    E: Extract<PREPD, QRLocation, QRData, QRError>,
    Q: Decode<QRData, RESULT, QRError>,
 {
    /// The prepare stage of this decoder.
    pub closed spec fn prepare_part(&self) -> P {
        self.prepare
    }

    /// The detect stage of this decoder.
    pub closed spec fn detect_part(&self) -> D {
        self.detect
    }

    /// The extract stage of this decoder.
    pub closed spec fn extract_part(&self) -> E {
        self.qr.extract
    }

    /// The decode stage of this decoder.
    pub closed spec fn qr_decoder_part(&self) -> Q {
        self.qr.decode
    }

    /// Runs the whole pipeline on a source image: prepare once, detect
    /// every candidate, then extract and decode each candidate on its
    /// own. One result comes back per detected candidate, in order, and
    /// each slot satisfies the decode stage's promise for the extract of
    /// its candidate; one candidate's failure never aborts the others.
    pub fn decode(&self, source: &IMG) -> (r: Vec<Result<RESULT, QRError>>)
        ensures
            ({
                let prepared = self.prepare_part().prepare_spec(*source);
                let locs = self.detect_part().detect_spec(prepared);
                &&& r@.len() == locs.len()
                &&& forall|i: int|
                    0 <= i < locs.len() ==> self.qr_decoder_part().decode_rel(
                        self.extract_part().extract_spec(prepared, locs[i]->0),
                        #[trigger] r@[i],
                    )
            }),
    {
        let prepared = self.prepare.prepare(source);
        let ghost prepared_spec = self.prepare_part().prepare_spec(*source);
        let locations = self.detect.detect(&prepared);
        let ghost locs = self.detect_part().detect_spec(prepared_spec);
        if locations.len() == 0 {
            return Vec::new();
        }
        let mut all_decoded: Vec<Result<RESULT, QRError>> = Vec::new();
        let mut i: usize = 0;
        while i < locations.len()
            invariant
                all_decoded@.len() == i,
                i <= locations@.len(),
                prepared == prepared_spec,
                locations@ == locs,
                locs == self.detect_part().detect_spec(prepared_spec),
                prepared_spec == self.prepare_part().prepare_spec(*source),
                forall|k: int|
                    0 <= k < i as int ==> self.qr_decoder_part().decode_rel(
                        self.extract_part().extract_spec(prepared_spec, locs[k]->0),
                        #[trigger] all_decoded@[k],
                    ),
            decreases locations@.len() - i,
        {
            let location = locations[i];
            match location {
                Location::QR(qrloc) => {
                    let extracted = self.qr.extract.extract(&prepared, qrloc);
                    proof {
                        assert(qrloc == locs[i as int]->0);
                        assert(extracted == self.extract_part().extract_spec(
                            prepared_spec,
                            locs[i as int]->0,
                        ));
                    }
                    let decoded = self.qr.decode.decode(extracted);
                    all_decoded.push(decoded);
                },
            }
            i = i + 1;
        }
        all_decoded
    }
}

/// Assembles a decoder stage by stage; building without all four stages
/// names the first missing one instead.
pub struct DecoderBuilder<IMG, PREPD, RESULT, P, D, E, Q> where
    P: Prepare<IMG, PREPD>,
    D: Detect<PREPD>,
    E: Extract<PREPD, QRLocation, QRData, QRError>,
    Q: Decode<QRData, RESULT, QRError>,
 {
    prepare: Option<P>,
    detect: Option<D>,
    qr: Option<ExtractDecode<E, Q>>,
    marker: core::marker::PhantomData<(IMG, PREPD, RESULT)>,
}

impl<IMG, PREPD, RESULT, P, D, E, Q> DecoderBuilder<IMG, PREPD, RESULT, P, D, E, Q> where
    P: Prepare<IMG, PREPD>,
    D: Detect<PREPD>,
    E: Extract<PREPD, QRLocation, QRData, QRError>,
    Q: Decode<QRData, RESULT, QRError>,
 {
    /// A builder with no stage set yet.
    pub fn new() -> (r: DecoderBuilder<IMG, PREPD, RESULT, P, D, E, Q>)
        ensures
            !r.has_prepare() && !r.has_detect() && !r.has_qr(),
    {
        DecoderBuilder {
            prepare: None,
            detect: None,
            qr: None,
            marker: core::marker::PhantomData,
        }
    }

    /// Whether the prepare stage has been set.
    pub closed spec fn has_prepare(&self) -> bool {
        self.prepare is Some
    }

    /// Whether the detect stage has been set.
    pub closed spec fn has_detect(&self) -> bool {
        self.detect is Some
    }

    /// Whether the extract and decode stages have been set.
    pub closed spec fn has_qr(&self) -> bool {
        self.qr is Some
    }

    /// The prepare stage this builder holds.
    pub closed spec fn prepare_val(&self) -> P {
        self.prepare->0
    }

    /// The detect stage this builder holds.
    pub closed spec fn detect_val(&self) -> D {
        self.detect->0
    }

    /// The extract stage this builder holds.
    pub closed spec fn extract_val(&self) -> E {
        self.qr->0.extract
    }

    /// The decode stage this builder holds.
    pub closed spec fn qr_decoder_val(&self) -> Q {
        self.qr->0.decode
    }

    /// Sets the prepare implementation for this decoder.
    pub fn prepare(&mut self, prepare: P)
        ensures
            final(self).has_prepare(),
            final(self).prepare_val() == prepare,
            final(self).has_detect() == old(self).has_detect(),
            final(self).has_qr() == old(self).has_qr(),
            old(self).has_detect() ==> final(self).detect_val() == old(self).detect_val(),
            old(self).has_qr() ==> final(self).extract_val() == old(self).extract_val()
                && final(self).qr_decoder_val() == old(self).qr_decoder_val(),
    {
        self.prepare = Some(prepare);
    }

    /// Sets the detect implementation for this decoder.
    pub fn detect(&mut self, detect: D)
        ensures
            final(self).has_detect(),
            final(self).detect_val() == detect,
            final(self).has_prepare() == old(self).has_prepare(),
            final(self).has_qr() == old(self).has_qr(),
            old(self).has_prepare() ==> final(self).prepare_val() == old(self).prepare_val(),
            old(self).has_qr() ==> final(self).extract_val() == old(self).extract_val()
                && final(self).qr_decoder_val() == old(self).qr_decoder_val(),
    {
        self.detect = Some(detect);
    }

    /// Sets the extract and decode implementations for this decoder for
    /// QR symbols.
    pub fn qr(&mut self, extract: E, decode: Q)
        ensures
            final(self).has_qr(),
            final(self).extract_val() == extract,
            final(self).qr_decoder_val() == decode,
            final(self).has_prepare() == old(self).has_prepare(),
            final(self).has_detect() == old(self).has_detect(),
            old(self).has_prepare() ==> final(self).prepare_val() == old(self).prepare_val(),
            old(self).has_detect() ==> final(self).detect_val() == old(self).detect_val(),
    {
        self.qr = Some(ExtractDecode { extract, decode });
    }

    /// Builds the decoder. Building succeeds exactly when every stage
    /// has been set; otherwise the first missing stage is named, in the
    /// order prepare, detect, QR.
    pub fn build(self) -> (r: Result<Decoder<IMG, PREPD, RESULT, P, D, E, Q>, BuilderError>)
        ensures
            r is Ok <==> self.has_prepare() && self.has_detect() && self.has_qr(),
            !self.has_prepare() ==> r == Err::<Decoder<IMG, PREPD, RESULT, P, D, E, Q>,
                BuilderError,
            >(BuilderError::MissingPrepare),
            self.has_prepare() && !self.has_detect() ==> r == Err::<
                Decoder<IMG, PREPD, RESULT, P, D, E, Q>,
                BuilderError,
            >(BuilderError::MissingDetect),
            self.has_prepare() && self.has_detect() && !self.has_qr() ==> r == Err::<
                Decoder<IMG, PREPD, RESULT, P, D, E, Q>,
                BuilderError,
            >(BuilderError::MissingQR),
            r is Ok ==> ({
                let d = r->Ok_0;
                &&& d.prepare_part() == self.prepare_val()
                &&& d.detect_part() == self.detect_val()
                &&& d.extract_part() == self.extract_val()
                &&& d.qr_decoder_part() == self.qr_decoder_val()
            }),
    {
        let prepare = match self.prepare {
            Some(p) => p,
            None => { return Err(BuilderError::MissingPrepare) },
        };
        let detect = match self.detect {
            Some(d) => d,
            None => { return Err(BuilderError::MissingDetect) },
        };
        let qr = match self.qr {
            Some(q) => q,
            None => { return Err(BuilderError::MissingQR) },
        };
        Ok(Decoder { prepare, detect, qr, marker: core::marker::PhantomData })
    }
}

} // verus!
