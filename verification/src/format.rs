//! Format information of a QR symbol: the eight data mask patterns, and
//! recovery of (error correction level, mask) from the 15 format bits that
//! appear twice around the finder patterns, BCH-decoded against the 32
//! valid format codewords.

use vstd::prelude::*;
use vstd::string::*;

use crate::qr::ECLevel;
use crate::qr::QRData;
use crate::qr::QRError;

verus! {

/// Whether the mask with the given id inverts the module at column `x`,
/// row `y`. The eight formulas are those of ISO/IEC 18004.
pub open spec fn mask_cond(id: int, x: int, y: int) -> bool {
    if id == 0 {
        (y + x) % 2 == 0
    } else if id == 1 {
        y % 2 == 0
    } else if id == 2 {
        x % 3 == 0
    } else if id == 3 {
        (y + x) % 3 == 0
    } else if id == 4 {
        (y / 2 + x / 3) % 2 == 0
    } else if id == 5 {
        (y * x) % 2 + (y * x) % 3 == 0
    } else if id == 6 {
        ((y * x) % 2 + (y * x) % 3) % 2 == 0
    } else {
        ((y + x) % 2 + (y * x) % 3) % 2 == 0
    }
}

/// A row-major bit grid with the mask applied: every cell is XORed with
/// its mask condition.
pub open spec fn mask_seq(grid: Seq<u8>, side: int, id: int) -> Seq<u8> {
    Seq::new(
        grid.len(),
        |k: int|
            grid[k] ^ (if mask_cond(id, k % side, k / side) {
                1u8
            } else {
                0u8
            }),
    )
}

/// The bit of the masked grid at (x, y): the sampled module XORed with
/// the mask condition there.
pub open spec fn masked_bit(data: QRData, id: int, x: int, y: int) -> u8 {
    mask_seq(data.data@, data.side as int, id)[y * data.side + x]
}

/// Applying the same mask twice to a bit grid yields the original grid:
/// each cell is XORed twice with the same value.
pub proof fn lemma_mask_involution(grid: Seq<u8>, side: int, id: int)
    ensures
        mask_seq(mask_seq(grid, side, id), side, id) == grid,
{
    let once = mask_seq(grid, side, id);
    let twice = mask_seq(once, side, id);
    assert forall|k: int| 0 <= k < grid.len() implies twice[k] == grid[k] by {
        let m: u8 = if mask_cond(id, k % side, k / side) {
            1u8
        } else {
            0u8
        };
        let g = grid[k];
        assert((g ^ m) ^ m == g) by (bit_vector);
    }
    assert(twice =~= grid);
}

/// One of the eight data masks of a QR symbol, selected by the format
/// information.
#[derive(Clone, Copy, Debug, PartialEq, Eq, Structural)]
pub struct QRMask {
    pub id: u8,
}

impl QRMask {
    pub open spec fn wf(&self) -> bool {
        self.id < 8
    }

    pub fn new(id: u8) -> (r: QRMask)
        requires
            id < 8,
        ensures
            r.id == id,
            r.wf(),
    {
        QRMask { id }
    }

    /// The masked data bit at (x, y): the sampled module XORed with the
    /// mask condition.
    pub fn apply(&self, data: &QRData, x: u32, y: u32) -> (r: u8)
        requires
            data.wf(),
            self.wf(),
            x < data.side,
            y < data.side,
        ensures
            r == masked_bit(*data, self.id as int, x as int, y as int),
            r <= 1,
    {
        let bit = data.bit(x, y);
        let xi = x;
        let yi = y;
        proof {
            assert((y * data.side + x) % (data.side as int) == x && (y * data.side + x) / (
            data.side as int) == y) by (nonlinear_arith)
                requires
                    0 <= x < data.side,
                    0 <= y,
                    0 < data.side,
            ;
            assert(y * data.side + x < data.side * data.side) by (nonlinear_arith)
                requires
                    0 <= x < data.side,
                    0 <= y < data.side,
            ;
            assert(y * x < 31330) by (nonlinear_arith)
                requires
                    0 <= x <= 176,
                    0 <= y <= 176,
            ;
        }
        let cond: bool = if self.id == 0 {
            (yi + xi) % 2 == 0
        } else if self.id == 1 {
            yi % 2 == 0
        } else if self.id == 2 {
            xi % 3 == 0
        } else if self.id == 3 {
            (yi + xi) % 3 == 0
        } else if self.id == 4 {
            (yi / 2 + xi / 3) % 2 == 0
        } else if self.id == 5 {
            (yi * xi) % 2 + (yi * xi) % 3 == 0
        } else if self.id == 6 {
            ((yi * xi) % 2 + (yi * xi) % 3) % 2 == 0
        } else {
            ((yi + xi) % 2 + (yi * xi) % 3) % 2 == 0
        };
        let m: u8 = if cond {
            1
        } else {
            0
        };
        proof {
            let g = data.bit_at(x as int, y as int);
            assert(g <= 1 ==> (g ^ 0u8) <= 1 && (g ^ 1u8) <= 1) by (bit_vector);
        }
        bit ^ m
    }
}

/// Number of set bits among the low `k` bits of a 16-bit word.
pub open spec fn popcount16_rec(x: u16, k: nat) -> nat
    decreases k,
{
    if k == 0 {
        0
    } else {
        (x & 1) as nat + popcount16_rec(x >> 1, (k - 1) as nat)
    }
}

/// Hamming distance between two 15-bit words.
pub open spec fn hamming15(a: u16, b: u16) -> nat {
    popcount16_rec(a ^ b, 16)
}

/// The BCH(15, 5) format codeword of five data bits: the data bits high,
/// followed by the ten-bit remainder of division by the generator
/// polynomial 0x537.
pub open spec fn format_code(d: u16) -> u16 {
    let r0 = d << 10;
    let r1 = if r0 & 0x4000 != 0 {
        r0 ^ (0x537u16 << 4)
    } else {
        r0
    };
    let r2 = if r1 & 0x2000 != 0 {
        r1 ^ (0x537u16 << 3)
    } else {
        r1
    };
    let r3 = if r2 & 0x1000 != 0 {
        r2 ^ (0x537u16 << 2)
    } else {
        r2
    };
    let r4 = if r3 & 0x0800 != 0 {
        r3 ^ (0x537u16 << 1)
    } else {
        r3
    };
    let r5 = if r4 & 0x0400 != 0 {
        r4 ^ 0x537
    } else {
        r4
    };
    (d << 10) | (r5 & 0x3FF)
}

/// The best format codeword among the first `n` candidates for the given
/// 15 bits: the least Hamming distance, and the first candidate that
/// reaches it.
pub open spec fn best_format(bits: u16, n: nat) -> (int, int)
    decreases n,
{
    if n == 0 {
        (100, 0)
    } else {
        let prev = best_format(bits, (n - 1) as nat);
        let nd = hamming15(bits, format_code((n - 1) as u16)) as int;
        if nd < prev.0 {
            (nd, n - 1)
        } else {
            prev
        }
    }
}

/// The error correction level named by the two level bits of the format
/// data.
pub open spec fn level_of(d: int) -> ECLevel {
    if d == 0 {
        ECLevel::MEDIUM
    } else if d == 1 {
        ECLevel::LOW
    } else if d == 2 {
        ECLevel::HIGH
    } else {
        ECLevel::QUARTILE
    }
}

/// The format bits read around the top-left finder, most significant
/// first: along row 8 left to right, then down column 8, skipping the
/// timing cells.
pub open spec fn format_copy1(data: QRData) -> u16 {
    (((data.bit_at(0, 8) as u16) << 14) | ((data.bit_at(1, 8) as u16) << 13) | ((data.bit_at(
        2,
        8,
    ) as u16) << 12) | ((data.bit_at(3, 8) as u16) << 11) | ((data.bit_at(4, 8) as u16) << 10) | ((
    data.bit_at(5, 8) as u16) << 9) | ((data.bit_at(7, 8) as u16) << 8) | ((data.bit_at(
        8,
        8,
    ) as u16) << 7) | ((data.bit_at(8, 7) as u16) << 6) | ((data.bit_at(8, 5) as u16) << 5) | ((
    data.bit_at(8, 4) as u16) << 4) | ((data.bit_at(8, 3) as u16) << 3) | ((data.bit_at(
        8,
        2,
    ) as u16) << 2) | ((data.bit_at(8, 1) as u16) << 1) | (data.bit_at(8, 0) as u16)) as u16
}

/// The format bits read beside the other two finders, most significant
/// first: up column 8 from the bottom edge, then along row 8 to the
/// right edge.
pub open spec fn format_copy2(data: QRData) -> u16 {
    let side = data.side as int;
    (((data.bit_at(8, side - 1) as u16) << 14) | ((data.bit_at(8, side - 2) as u16) << 13) | ((
    data.bit_at(8, side - 3) as u16) << 12) | ((data.bit_at(8, side - 4) as u16) << 11) | ((
    data.bit_at(8, side - 5) as u16) << 10) | ((data.bit_at(8, side - 6) as u16) << 9) | ((
    data.bit_at(8, side - 7) as u16) << 8) | ((data.bit_at(side - 8, 8) as u16) << 7) | ((
    data.bit_at(side - 7, 8) as u16) << 6) | ((data.bit_at(side - 6, 8) as u16) << 5) | ((
    data.bit_at(side - 5, 8) as u16) << 4) | ((data.bit_at(side - 4, 8) as u16) << 3) | ((
    data.bit_at(side - 3, 8) as u16) << 2) | ((data.bit_at(side - 2, 8) as u16) << 1) | (
    data.bit_at(side - 1, 8) as u16)) as u16
}

/// What the format information of a grid decodes to: both copies are
/// unmasked with 0x5412 and BCH-decoded; the copy with the lower
/// distance wins, ties preferring the top-left copy; distances above
/// three fail.
pub open spec fn format_spec(data: QRData) -> Option<(ECLevel, u8)> {
    let b1 = best_format(format_copy1(data) ^ 0x5412, 32);
    let b2 = best_format(format_copy2(data) ^ 0x5412, 32);
    let chosen = if b1.0 <= b2.0 {
        b1
    } else {
        b2
    };
    if chosen.0 <= 3 {
        Some((level_of(chosen.1 / 8), (chosen.1 % 8) as u8))
    } else {
        None
    }
}

/// The BCH(15, 5) format codeword of five data bits.
fn format_code_exec(d: u16) -> (r: u16)
    ensures
        r == format_code(d),
{
    let r0 = d << 10;
    let r1 = if r0 & 0x4000 != 0 {
        r0 ^ (0x537u16 << 4)
    } else {
        r0
    };
    let r2 = if r1 & 0x2000 != 0 {
        r1 ^ (0x537u16 << 3)
    } else {
        r1
    };
    let r3 = if r2 & 0x1000 != 0 {
        r2 ^ (0x537u16 << 2)
    } else {
        r2
    };
    let r4 = if r3 & 0x0800 != 0 {
        r3 ^ (0x537u16 << 1)
    } else {
        r3
    };
    let r5 = if r4 & 0x0400 != 0 {
        r4 ^ 0x537
    } else {
        r4
    };
    (d << 10) | (r5 & 0x3FF)
}

/// Hamming distance between two 15-bit words, counted bit by bit.
fn hamming15_exec(a: u16, b: u16) -> (r: u32)
    ensures
        r == hamming15(a, b),
{
    let mut v = a ^ b;
    let mut acc: u32 = 0;
    let mut i: u32 = 0;
    while i < 16
        invariant
            i <= 16,
            acc + popcount16_rec(v, (16 - i) as nat) == hamming15(a, b),
            acc <= i,
        decreases 16 - i,
    {
        proof {
            assert(v & 1 <= 1) by (bit_vector);
        }
        acc = acc + (v & 1) as u32;
        v = v >> 1;
        i = i + 1;
    }
    acc
}

/// Decodes 15 format bits against the 32 valid codewords: the closest
/// codeword wins if its distance is at most three, earlier candidates
/// winning ties.
fn bch_format_decode(bits: u16) -> (r: Option<(u16, u32)>)
    ensures
        ({
            let best = best_format(bits, 32);
            &&& (r is Some <==> best.0 <= 3)
            &&& r is Some ==> (r->0).0 == best.1 && (r->0).1 == best.0
        }),
{
    let mut best_d: u16 = 0;
    let mut best_dist: u32 = 100;
    let mut d: u16 = 0;
    while d < 32
        invariant
            d <= 32,
            (best_dist as int, best_d as int) == best_format(bits, d as nat),
            best_d < 32 || d == 0,
        decreases 32 - d,
    {
        let code = format_code_exec(d);
        let dist = hamming15_exec(bits, code);
        if dist < best_dist {
            best_dist = dist;
            best_d = d;
        }
        d = d + 1;
    }
    if best_dist <= 3 {
        Some((best_d, best_dist))
    } else {
        None
    }
}

/// Reads the format information of a grid: both copies of the 15 format
/// bits are unmasked and BCH-decoded, the closer one giving the error
/// correction level and the data mask. Fails exactly when both copies
/// lie more than three bit flips from every valid codeword.
pub fn format(data: &QRData) -> (r: Result<(ECLevel, QRMask), QRError>)
    requires
        data.wf(),
    ensures
        r is Ok <==> format_spec(*data) is Some,
        r is Ok ==> format_spec(*data) == Some::<(ECLevel, u8)>((r->Ok_0.0, r->Ok_0.1.id)),
        r is Ok ==> r->Ok_0.1.wf(),
{
    let side = data.side;
    let a14 = data.bit(0, 8);
    let a13 = data.bit(1, 8);
    let a12 = data.bit(2, 8);
    let a11 = data.bit(3, 8);
    let a10 = data.bit(4, 8);
    let a9 = data.bit(5, 8);
    let a8 = data.bit(7, 8);
    let a7 = data.bit(8, 8);
    let a6 = data.bit(8, 7);
    let a5 = data.bit(8, 5);
    let a4 = data.bit(8, 4);
    let a3 = data.bit(8, 3);
    let a2 = data.bit(8, 2);
    let a1 = data.bit(8, 1);
    let a0 = data.bit(8, 0);
    let c1: u16 = ((a14 as u16) << 14) | ((a13 as u16) << 13) | ((a12 as u16) << 12) | ((
    a11 as u16) << 11) | ((a10 as u16) << 10) | ((a9 as u16) << 9) | ((a8 as u16) << 8) | ((
    a7 as u16) << 7) | ((a6 as u16) << 6) | ((a5 as u16) << 5) | ((a4 as u16) << 4) | ((
    a3 as u16) << 3) | ((a2 as u16) << 2) | ((a1 as u16) << 1) | (a0 as u16);
    let b14 = data.bit(8, side - 1);
    let b13 = data.bit(8, side - 2);
    let b12 = data.bit(8, side - 3);
    let b11 = data.bit(8, side - 4);
    let b10 = data.bit(8, side - 5);
    let b9 = data.bit(8, side - 6);
    let b8 = data.bit(8, side - 7);
    let b7 = data.bit(side - 8, 8);
    let b6 = data.bit(side - 7, 8);
    let b5 = data.bit(side - 6, 8);
    let b4 = data.bit(side - 5, 8);
    let b3 = data.bit(side - 4, 8);
    let b2 = data.bit(side - 3, 8);
    let b1 = data.bit(side - 2, 8);
    let b0 = data.bit(side - 1, 8);
    let c2: u16 = ((b14 as u16) << 14) | ((b13 as u16) << 13) | ((b12 as u16) << 12) | ((
    b11 as u16) << 11) | ((b10 as u16) << 10) | ((b9 as u16) << 9) | ((b8 as u16) << 8) | ((
    b7 as u16) << 7) | ((b6 as u16) << 6) | ((b5 as u16) << 5) | ((b4 as u16) << 4) | ((
    b3 as u16) << 3) | ((b2 as u16) << 2) | ((b1 as u16) << 1) | (b0 as u16);
    proof {
        assert(c1 == format_copy1(*data));
        assert(c2 == format_copy2(*data));
    }
    let m1 = c1 ^ 0x5412;
    let m2 = c2 ^ 0x5412;
    let r1 = bch_format_decode(m1);
    let r2 = bch_format_decode(m2);
    let chosen: Option<(u16, u32)> = match (r1, r2) {
        (Some((d1, dist1)), Some((d2, dist2))) => {
            if dist1 <= dist2 {
                Some((d1, dist1))
            } else {
                Some((d2, dist2))
            }
        },
        (Some((d1, dist1)), None) => Some((d1, dist1)),
        (None, Some((d2, dist2))) => Some((d2, dist2)),
        (None, None) => None,
    };
    match chosen {
        Some((d, _)) => {
            let level = if d / 8 == 0 {
                ECLevel::MEDIUM
            } else if d / 8 == 1 {
                ECLevel::LOW
            } else if d / 8 == 2 {
                ECLevel::HIGH
            } else {
                ECLevel::QUARTILE
            };
            let mask = QRMask::new((d % 8) as u8);
            Ok((level, mask))
        },
        None => Err(QRError { msg: String::from_str("both format copies are undecodable") }),
    }
}

proof fn lemma_pc16_zero()
    ensures
        popcount16_rec(0u16, 16) == 0,
{
    assert(0u16 >> 1 == 0) by (bit_vector);
    assert(0u16 & 1 == 0) by (bit_vector);
    reveal_with_fuel(popcount16_rec, 18);
}

proof fn lemma_pc16_pos(z: u16, k: u16)
    requires
        z != 0,
        k <= 16,
        z >> k == 0,
    ensures
        popcount16_rec(z, k as nat) >= 1,
    decreases k,
{
    assert(k != 0) by (bit_vector)
        requires
            z != 0 && z >> k == 0 && k <= 16,
    ;
    if z & 1 == 1 {
    } else {
        let z2 = z >> 1;
        let k1 = (k - 1) as u16;
        assert(z2 != 0 && z2 >> k1 == 0) by (bit_vector)
            requires
                z != 0 && z & 1 != 1 && z >> k == 0 && 1 <= k <= 16 && z2 == z >> 1 && k1 == k - 1,
        ;
        lemma_pc16_pos(z2, k1);
    }
}

proof fn lemma_hamming_self(x: u16)
    ensures
        hamming15(x, x) == 0,
{
    assert(x ^ x == 0) by (bit_vector);
    lemma_pc16_zero();
}

proof fn lemma_hamming_pos(x: u16, y: u16)
    requires
        x != y,
    ensures
        hamming15(x, y) >= 1,
{
    let z = x ^ y;
    assert(z != 0 && z >> 16 == 0) by (bit_vector)
        requires
            x != y && z == (x ^ y),
    ;
    lemma_pc16_pos(z, 16);
}

proof fn lemma_or_top(d: u16, x: u16)
    requires
        d < 32,
    ensures
        ((d << 10) | (x & 0x3FF)) >> 10 == d,
{
    assert(((d << 10) | (x & 0x3FF)) >> 10 == d) by (bit_vector)
        requires
            d < 32,
    ;
}

/// The high five bits of a format codeword are its data bits.
proof fn lemma_code_top(d: u16)
    requires
        d < 32,
    ensures
        format_code(d) >> 10 == d,
{
    let r0 = d << 10;
    let r1 = if r0 & 0x4000 != 0 {
        r0 ^ (0x537u16 << 4)
    } else {
        r0
    };
    let r2 = if r1 & 0x2000 != 0 {
        r1 ^ (0x537u16 << 3)
    } else {
        r1
    };
    let r3 = if r2 & 0x1000 != 0 {
        r2 ^ (0x537u16 << 2)
    } else {
        r2
    };
    let r4 = if r3 & 0x0800 != 0 {
        r3 ^ (0x537u16 << 1)
    } else {
        r3
    };
    let r5 = if r4 & 0x0400 != 0 {
        r4 ^ 0x537
    } else {
        r4
    };
    lemma_or_top(d, r5);
}

/// Two distinct data values give distinct format codewords.
proof fn lemma_code_distinct(d1: u16, d2: u16)
    requires
        d1 < 32,
        d2 < 32,
        d1 != d2,
    ensures
        format_code(d1) != format_code(d2),
{
    lemma_code_top(d1);
    lemma_code_top(d2);
}

proof fn lemma_best_upto(dd: u16, n: nat)
    requires
        dd < 32,
        n <= 32,
    ensures
        n <= dd ==> best_format(format_code(dd), n).0 >= 1,
        n > dd ==> best_format(format_code(dd), n) == (0int, dd as int),
    decreases n,
{
    if n > 0 {
        lemma_best_upto(dd, (n - 1) as nat);
        let c = format_code(dd);
        if n - 1 == dd {
            lemma_hamming_self(c);
        } else {
            lemma_code_distinct(dd, (n - 1) as u16);
            lemma_hamming_pos(c, format_code((n - 1) as u16));
        }
    }
}

proof fn lemma_popcount16_sum(x: u16)
    ensures
        popcount16_rec(x, 16) == (x & 1) + ((x >> 1) & 1) + ((x >> 2) & 1) + ((x >> 3) & 1) + ((x >> 4) & 1) + ((x >> 5) & 1) + ((x >> 6) & 1) + ((x >> 7) & 1) + ((x >> 8) & 1) + ((x >> 9) & 1) + ((x >> 10) & 1) + ((x >> 11) & 1) + ((x >> 12) & 1) + ((x >> 13) & 1) + ((x >> 14) & 1) + ((x >> 15) & 1),
{
    assert((x >> 0) >> 1 == x >> 1 && (x >> 1) >> 1 == x >> 2 && (x >> 2) >> 1 == x >> 3 && (x >> 3) >> 1 == x >> 4 && (x >> 4) >> 1 == x >> 5 && (x >> 5) >> 1 == x >> 6 && (x >> 6) >> 1 == x >> 7 && (x >> 7) >> 1 == x >> 8 && (x >> 8) >> 1 == x >> 9 && (x >> 9) >> 1 == x >> 10 && (x >> 10) >> 1 == x >> 11 && (x >> 11) >> 1 == x >> 12 && (x >> 12) >> 1 == x >> 13 && (x >> 13) >> 1 == x >> 14 && (x >> 14) >> 1 == x >> 15) by (bit_vector);
    reveal_with_fuel(popcount16_rec, 18);
}

/// Every canonical format codeword decodes to itself with distance
/// zero: it is the closest codeword to itself, and the first candidate
/// at that distance.
pub proof fn lemma_format_selfdecode(d: u16)
    requires
        d < 32,
    ensures
        best_format(format_code(d), 32) == (0int, d as int),
{
    lemma_best_upto(d, 32);
}

/// The format code is linear: the codeword of an XOR of data values is
/// the XOR of their codewords, since the remainder steps clear disjoint
/// high bits.
proof fn lemma_code_xor(d1: u16, d2: u16)
    requires
        d1 < 32,
        d2 < 32,
    ensures
        format_code(d1) ^ format_code(d2) == format_code(d1 ^ d2),
{
    let dx = d1 ^ d2;
    let a0 = d1 << 10;
    let a1 = if a0 & 0x4000 != 0 {
        a0 ^ (0x537u16 << 4)
    } else {
        a0
    };
    let a2 = if a1 & 0x2000 != 0 {
        a1 ^ (0x537u16 << 3)
    } else {
        a1
    };
    let a3 = if a2 & 0x1000 != 0 {
        a2 ^ (0x537u16 << 2)
    } else {
        a2
    };
    let a4 = if a3 & 0x0800 != 0 {
        a3 ^ (0x537u16 << 1)
    } else {
        a3
    };
    let a5 = if a4 & 0x0400 != 0 {
        a4 ^ 0x537
    } else {
        a4
    };
    let b0 = d2 << 10;
    let b1 = if b0 & 0x4000 != 0 {
        b0 ^ (0x537u16 << 4)
    } else {
        b0
    };
    let b2 = if b1 & 0x2000 != 0 {
        b1 ^ (0x537u16 << 3)
    } else {
        b1
    };
    let b3 = if b2 & 0x1000 != 0 {
        b2 ^ (0x537u16 << 2)
    } else {
        b2
    };
    let b4 = if b3 & 0x0800 != 0 {
        b3 ^ (0x537u16 << 1)
    } else {
        b3
    };
    let b5 = if b4 & 0x0400 != 0 {
        b4 ^ 0x537
    } else {
        b4
    };
    let x0 = dx << 10;
    let x1 = if x0 & 0x4000 != 0 {
        x0 ^ (0x537u16 << 4)
    } else {
        x0
    };
    let x2 = if x1 & 0x2000 != 0 {
        x1 ^ (0x537u16 << 3)
    } else {
        x1
    };
    let x3 = if x2 & 0x1000 != 0 {
        x2 ^ (0x537u16 << 2)
    } else {
        x2
    };
    let x4 = if x3 & 0x0800 != 0 {
        x3 ^ (0x537u16 << 1)
    } else {
        x3
    };
    let x5 = if x4 & 0x0400 != 0 {
        x4 ^ 0x537
    } else {
        x4
    };
    assert(format_code(d1) == ((d1 << 10) | (a5 & 0x3FF)));
    assert(format_code(d2) == ((d2 << 10) | (b5 & 0x3FF)));
    assert(format_code(dx) == ((dx << 10) | (x5 & 0x3FF)));
    assert(((d1 << 10) | (a5 & 0x3FF)) ^ ((d2 << 10) | (b5 & 0x3FF)) == ((dx << 10) | (x5
        & 0x3FF))) by (bit_vector)
        requires
            d1 < 32,
            d2 < 32,
            dx == d1 ^ d2,
            a0 == d1 << 10,
            a1 == (if a0 & 0x4000 != 0 { a0 ^ (0x537u16 << 4) } else { a0 }),
            a2 == (if a1 & 0x2000 != 0 { a1 ^ (0x537u16 << 3) } else { a1 }),
            a3 == (if a2 & 0x1000 != 0 { a2 ^ (0x537u16 << 2) } else { a2 }),
            a4 == (if a3 & 0x0800 != 0 { a3 ^ (0x537u16 << 1) } else { a3 }),
            a5 == (if a4 & 0x0400 != 0 { a4 ^ 0x537 } else { a4 }),
            b0 == d2 << 10,
            b1 == (if b0 & 0x4000 != 0 { b0 ^ (0x537u16 << 4) } else { b0 }),
            b2 == (if b1 & 0x2000 != 0 { b1 ^ (0x537u16 << 3) } else { b1 }),
            b3 == (if b2 & 0x1000 != 0 { b2 ^ (0x537u16 << 2) } else { b2 }),
            b4 == (if b3 & 0x0800 != 0 { b3 ^ (0x537u16 << 1) } else { b3 }),
            b5 == (if b4 & 0x0400 != 0 { b4 ^ 0x537 } else { b4 }),
            x0 == dx << 10,
            x1 == (if x0 & 0x4000 != 0 { x0 ^ (0x537u16 << 4) } else { x0 }),
            x2 == (if x1 & 0x2000 != 0 { x1 ^ (0x537u16 << 3) } else { x1 }),
            x3 == (if x2 & 0x1000 != 0 { x2 ^ (0x537u16 << 2) } else { x2 }),
            x4 == (if x3 & 0x0800 != 0 { x3 ^ (0x537u16 << 1) } else { x3 }),
            x5 == (if x4 & 0x0400 != 0 { x4 ^ 0x537 } else { x4 }),
    ;
}

/// Every nonzero format codeword has weight at least seven: the code's
/// minimum distance.
proof fn lemma_code_min_weight(d: u16)
    requires
        0 < d < 32,
    ensures
        popcount16_rec(format_code(d), 16) >= 7,
{
    let a0 = d << 10;
    let a1 = if a0 & 0x4000 != 0 {
        a0 ^ (0x537u16 << 4)
    } else {
        a0
    };
    let a2 = if a1 & 0x2000 != 0 {
        a1 ^ (0x537u16 << 3)
    } else {
        a1
    };
    let a3 = if a2 & 0x1000 != 0 {
        a2 ^ (0x537u16 << 2)
    } else {
        a2
    };
    let a4 = if a3 & 0x0800 != 0 {
        a3 ^ (0x537u16 << 1)
    } else {
        a3
    };
    let a5 = if a4 & 0x0400 != 0 {
        a4 ^ 0x537
    } else {
        a4
    };
    let c = (d << 10) | (a5 & 0x3FF);
    assert(format_code(d) == c);
    lemma_popcount16_sum(c);
    assert((c & 1) + ((c >> 1) & 1) + ((c >> 2) & 1) + ((c >> 3) & 1) + ((c >> 4) & 1) + ((c >> 5) & 1) + ((c >> 6) & 1) + ((c >> 7) & 1) + ((c >> 8) & 1) + ((c >> 9) & 1) + ((c >> 10) & 1) + ((c >> 11) & 1) + ((c >> 12) & 1) + ((c >> 13) & 1) + ((c >> 14) & 1) + ((c >> 15) & 1) >= 7) by (bit_vector)
        requires
            0 < d < 32,
            c == ((d << 10) | (a5 & 0x3FF)),
            a0 == d << 10,
            a1 == (if a0 & 0x4000 != 0 { a0 ^ (0x537u16 << 4) } else { a0 }),
            a2 == (if a1 & 0x2000 != 0 { a1 ^ (0x537u16 << 3) } else { a1 }),
            a3 == (if a2 & 0x1000 != 0 { a2 ^ (0x537u16 << 2) } else { a2 }),
            a4 == (if a3 & 0x0800 != 0 { a3 ^ (0x537u16 << 1) } else { a3 }),
            a5 == (if a4 & 0x0400 != 0 { a4 ^ 0x537 } else { a4 }),
    ;
}

/// Any two distinct format codewords differ in at least seven bits.
proof fn lemma_code_distance7(d1: u16, d2: u16)
    requires
        d1 < 32,
        d2 < 32,
        d1 != d2,
    ensures
        hamming15(format_code(d1), format_code(d2)) >= 7,
{
    lemma_code_xor(d1, d2);
    assert(0 < (d1 ^ d2) < 32) by (bit_vector)
        requires
            d1 < 32 && d2 < 32 && d1 != d2,
    ;
    lemma_code_min_weight(d1 ^ d2);
}

proof fn lemma_pc16_subadd(u: u16, v: u16, k: nat)
    ensures
        popcount16_rec(u ^ v, k) <= popcount16_rec(u, k) + popcount16_rec(v, k),
    decreases k,
{
    if k > 0 {
        assert(((u ^ v) & 1) <= (u & 1) + (v & 1) && (u ^ v) >> 1 == (u >> 1) ^ (v >> 1))
            by (bit_vector);
        lemma_pc16_subadd(u >> 1, v >> 1, (k - 1) as nat);
    }
}

proof fn lemma_hamming_triangle(a: u16, b: u16, c: u16)
    ensures
        hamming15(a, c) <= hamming15(a, b) + hamming15(b, c),
{
    assert((a ^ c) == (a ^ b) ^ (b ^ c)) by (bit_vector);
    lemma_pc16_subadd(a ^ b, b ^ c, 16);
}

proof fn lemma_hamming_sym(a: u16, b: u16)
    ensures
        hamming15(a, b) == hamming15(b, a),
{
    assert(a ^ b == b ^ a) by (bit_vector);
}

proof fn lemma_best_near(w: u16, dd: u16, n: nat)
    requires
        dd < 32,
        n <= 32,
        hamming15(w, format_code(dd)) <= 3,
    ensures
        n <= dd ==> best_format(w, n).0 >= 4,
        n > dd ==> best_format(w, n) == (hamming15(w, format_code(dd)) as int, dd as int),
    decreases n,
{
    if n > 0 {
        lemma_best_near(w, dd, (n - 1) as nat);
        let e = (n - 1) as u16;
        if e != dd {
            lemma_code_distance7(dd, e);
            lemma_hamming_sym(format_code(dd), w);
            lemma_hamming_triangle(format_code(dd), w, format_code(e));
        }
    }
}

/// Any fifteen bits within Hamming distance three of a canonical format
/// codeword decode to exactly that codeword: every other codeword lies
/// at least distance four away, since distinct codewords differ in at
/// least seven bits.
pub proof fn lemma_format_nearest_decode(w: u16, d: u16)
    requires
        d < 32,
        hamming15(w, format_code(d)) <= 3,
    ensures
        best_format(w, 32) == (hamming15(w, format_code(d)) as int, d as int),
{
    lemma_best_near(w, d, 32);
}

} // verus!
