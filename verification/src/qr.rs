//! Core data model of a QR symbol: the sampled module grid, the error
//! correction level, the diagnostic record and the error type shared by the
//! whole decode stage.

use vstd::prelude::*;

verus! {

/// Side length of a QR symbol of the given version, in modules.
pub open spec fn qr_side(version: int) -> int {
    4 * version + 17
}

/// Error correction level of a QR symbol, as encoded in its format
/// information, trading payload capacity for redundancy.
#[allow(non_camel_case_types)]
#[derive(Clone, Copy, Debug, PartialEq, Eq, Structural)]
pub enum ECLevel {
    LOW,
    MEDIUM,
    QUARTILE,
    HIGH,
}

/// Failure of decoding one candidate symbol, with a human-readable message.
#[derive(Clone, Debug)]
pub struct QRError {
    pub msg: String,
}

impl PartialEq for QRError {
    fn eq(&self, other: &QRError) -> (r: bool) {
        self.msg == other.msg
    }
}

impl vstd::std_specs::cmp::PartialEqSpecImpl for QRError {
    open spec fn obeys_eq_spec() -> bool {
        true
    }

    open spec fn eq_spec(&self, other: &QRError) -> bool {
        self.msg@ == other.msg@
    }
}

/// Diagnostic record returned beside the payload by the decoder with info.
#[derive(Clone, Copy, Debug, PartialEq, Eq, Structural)]
pub struct QRInfo {
    pub version: u32,
    pub ec_level: ECLevel,
    pub total_data: u32,
    pub errors: u32,
}

/// The sampled module grid of one QR symbol: `side` x `side` bits in
/// row-major order, one byte per module, 1 for dark and 0 for light.
pub struct QRData {
    pub data: Vec<u8>,
    pub version: u32,
    pub side: u32,
}

impl QRData {
    /// The grid is well-formed: the version is in range, the side follows
    /// from it, the buffer covers the full grid and holds only bits.
    pub open spec fn wf(&self) -> bool {
        &&& 1 <= self.version <= 40
        &&& self.side == qr_side(self.version as int)
        &&& self.data@.len() == self.side * self.side
        &&& forall|i: int| 0 <= i < self.data@.len() ==> self.data@[i] <= 1
    }

    /// The module bit at grid coordinates (x, y).
    pub open spec fn bit_at(&self, x: int, y: int) -> u8 {
        self.data@[y * self.side + x]
    }

    pub fn new(data: Vec<u8>, version: u32) -> (r: QRData)
        requires
            1 <= version <= 40,
            data@.len() == qr_side(version as int) * qr_side(version as int),
            forall|i: int| 0 <= i < data@.len() ==> data@[i] <= 1,
        ensures
            r.wf(),
            r.version == version,
            r.side == qr_side(version as int),
            r.data@ == data@,
    {
        let side = 4 * version + 17;
        QRData { data, version, side }
    }

    /// Checks at run time that the grid is well-formed.
    pub fn check_wf(&self) -> (r: bool)
        ensures
            r == self.wf(),
    {
        if self.version < 1 || self.version > 40 {
            return false;
        }
        if self.side != 4 * self.version + 17 {
            return false;
        }
        proof {
            assert(self.side * self.side <= 31329) by (nonlinear_arith)
                requires
                    0 <= self.side <= 177,
            ;
        }
        if self.data.len() != self.side as usize * self.side as usize {
            return false;
        }
        let mut i: usize = 0;
        while i < self.data.len()
            invariant
                i <= self.data@.len(),
                forall|k: int| 0 <= k < i as int ==> self.data@[k] <= 1,
            decreases self.data@.len() - i,
        {
            if self.data[i] > 1 {
                return false;
            }
            i = i + 1;
        }
        true
    }

    /// Reads the module at (x, y); dark is 1, light is 0.
    pub fn bit(&self, x: u32, y: u32) -> (r: u8)
        requires
            self.wf(),
            x < self.side,
            y < self.side,
        ensures
            r == self.bit_at(x as int, y as int),
            r <= 1,
    {
        proof {
            assert((y * self.side + x) < self.side * self.side
                && (y * self.side + x) < 31330) by (nonlinear_arith)
                requires
                    x < self.side,
                    y < self.side,
                    self.side <= 177,
            ;
        }
        let idx = y as usize * self.side as usize + x as usize;
        self.data[idx]
    }
}

} // verus!
