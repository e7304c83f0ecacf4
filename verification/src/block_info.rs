//! The Reed-Solomon block structure of every QR version and error
//! correction level: how many blocks a symbol carries, and for each block
//! its total, data and error-correction codeword counts, from the block
//! table of ISO/IEC 18004.

use vstd::prelude::*;
use vstd::string::*;

use crate::qr::ECLevel;
use crate::qr::QRError;

verus! {

/// Structure of one Reed-Solomon block of a symbol. `block_count` is the
/// number of blocks the symbol has in all; `total_per` and `data_per` are
/// this block's total and data codeword counts; `ec_cap` is the number of
/// codeword errors correction can repair, with `2 * ec_cap` syndromes
/// computed per block.
#[derive(Clone, Copy, Debug, PartialEq, Eq, Structural)]
pub struct BlockInfo {
    pub block_count: u8,
    pub total_per: u8,
    pub data_per: u8,
    pub ec_cap: u8,
}

/// Block structure of a (version, level) as (EC codewords per block,
/// blocks in the first group, data codewords per first-group block,
/// blocks in the second group, data codewords per second-group block).
/// A layout with a single group has a zero second group. Versions outside
/// 1..=40 map to the all-zero tuple.
pub open spec fn layout_spec(version: u32, level: ECLevel) -> (u8, u8, u8, u8, u8) {
    match (version, level) {
        (1, ECLevel::LOW) => (7, 1, 19, 0, 0),
        (1, ECLevel::MEDIUM) => (10, 1, 16, 0, 0),
        (1, ECLevel::QUARTILE) => (13, 1, 13, 0, 0),
        (1, ECLevel::HIGH) => (17, 1, 9, 0, 0),
        (2, ECLevel::LOW) => (10, 1, 34, 0, 0),
        (2, ECLevel::MEDIUM) => (16, 1, 28, 0, 0),
        (2, ECLevel::QUARTILE) => (22, 1, 22, 0, 0),
        (2, ECLevel::HIGH) => (28, 1, 16, 0, 0),
        (3, ECLevel::LOW) => (15, 1, 55, 0, 0),
        (3, ECLevel::MEDIUM) => (26, 1, 44, 0, 0),
        (3, ECLevel::QUARTILE) => (18, 2, 17, 0, 0),
        (3, ECLevel::HIGH) => (22, 2, 13, 0, 0),
        (4, ECLevel::LOW) => (20, 1, 80, 0, 0),
        (4, ECLevel::MEDIUM) => (18, 2, 32, 0, 0),
        (4, ECLevel::QUARTILE) => (26, 2, 24, 0, 0),
        (4, ECLevel::HIGH) => (16, 4, 9, 0, 0),
        (5, ECLevel::LOW) => (26, 1, 108, 0, 0),
        (5, ECLevel::MEDIUM) => (24, 2, 43, 0, 0),
        (5, ECLevel::QUARTILE) => (18, 2, 15, 2, 16),
        (5, ECLevel::HIGH) => (22, 2, 11, 2, 12),
        (6, ECLevel::LOW) => (18, 2, 68, 0, 0),
        (6, ECLevel::MEDIUM) => (16, 4, 27, 0, 0),
        (6, ECLevel::QUARTILE) => (24, 4, 19, 0, 0),
        (6, ECLevel::HIGH) => (28, 4, 15, 0, 0),
        (7, ECLevel::LOW) => (20, 2, 78, 0, 0),
        (7, ECLevel::MEDIUM) => (18, 4, 31, 0, 0),
        (7, ECLevel::QUARTILE) => (18, 2, 14, 4, 15),
        (7, ECLevel::HIGH) => (26, 4, 13, 1, 14),
        (8, ECLevel::LOW) => (24, 2, 97, 0, 0),
        (8, ECLevel::MEDIUM) => (22, 2, 38, 2, 39),
        (8, ECLevel::QUARTILE) => (22, 4, 18, 2, 19),
        (8, ECLevel::HIGH) => (26, 4, 14, 2, 15),
        (9, ECLevel::LOW) => (30, 2, 116, 0, 0),
        (9, ECLevel::MEDIUM) => (22, 3, 36, 2, 37),
        (9, ECLevel::QUARTILE) => (20, 4, 16, 4, 17),
        (9, ECLevel::HIGH) => (24, 4, 12, 4, 13),
        (10, ECLevel::LOW) => (18, 2, 68, 2, 69),
        (10, ECLevel::MEDIUM) => (26, 4, 43, 1, 44),
        (10, ECLevel::QUARTILE) => (24, 6, 19, 2, 20),
        (10, ECLevel::HIGH) => (28, 6, 15, 2, 16),
        (11, ECLevel::LOW) => (20, 4, 81, 0, 0),
        (11, ECLevel::MEDIUM) => (30, 1, 50, 4, 51),
        (11, ECLevel::QUARTILE) => (28, 4, 22, 4, 23),
        (11, ECLevel::HIGH) => (24, 3, 12, 8, 13),
        (12, ECLevel::LOW) => (24, 2, 92, 2, 93),
        (12, ECLevel::MEDIUM) => (22, 6, 36, 2, 37),
        (12, ECLevel::QUARTILE) => (26, 4, 20, 6, 21),
        (12, ECLevel::HIGH) => (28, 7, 14, 4, 15),
        (13, ECLevel::LOW) => (26, 4, 107, 0, 0),
        (13, ECLevel::MEDIUM) => (22, 8, 37, 1, 38),
        (13, ECLevel::QUARTILE) => (24, 8, 20, 4, 21),
        (13, ECLevel::HIGH) => (22, 12, 11, 4, 12),
        (14, ECLevel::LOW) => (30, 3, 115, 1, 116),
        (14, ECLevel::MEDIUM) => (24, 4, 40, 5, 41),
        (14, ECLevel::QUARTILE) => (20, 11, 16, 5, 17),
        (14, ECLevel::HIGH) => (24, 11, 12, 5, 13),
        (15, ECLevel::LOW) => (22, 5, 87, 1, 88),
        (15, ECLevel::MEDIUM) => (24, 5, 41, 5, 42),
        (15, ECLevel::QUARTILE) => (30, 5, 24, 7, 25),
        (15, ECLevel::HIGH) => (24, 11, 12, 7, 13),
        (16, ECLevel::LOW) => (24, 5, 98, 1, 99),
        (16, ECLevel::MEDIUM) => (28, 7, 45, 3, 46),
        (16, ECLevel::QUARTILE) => (24, 15, 19, 2, 20),
        (16, ECLevel::HIGH) => (30, 3, 15, 13, 16),
        (17, ECLevel::LOW) => (28, 1, 107, 5, 108),
        (17, ECLevel::MEDIUM) => (28, 10, 46, 1, 47),
        (17, ECLevel::QUARTILE) => (28, 1, 22, 15, 23),
        (17, ECLevel::HIGH) => (28, 2, 14, 17, 15),
        (18, ECLevel::LOW) => (30, 5, 120, 1, 121),
        (18, ECLevel::MEDIUM) => (26, 9, 43, 4, 44),
        (18, ECLevel::QUARTILE) => (28, 17, 22, 1, 23),
        (18, ECLevel::HIGH) => (28, 2, 14, 19, 15),
        (19, ECLevel::LOW) => (28, 3, 113, 4, 114),
        (19, ECLevel::MEDIUM) => (26, 3, 44, 11, 45),
        (19, ECLevel::QUARTILE) => (26, 17, 21, 4, 22),
        (19, ECLevel::HIGH) => (26, 9, 13, 16, 14),
        (20, ECLevel::LOW) => (28, 3, 107, 5, 108),
        (20, ECLevel::MEDIUM) => (26, 3, 41, 13, 42),
        (20, ECLevel::QUARTILE) => (30, 15, 24, 5, 25),
        (20, ECLevel::HIGH) => (28, 15, 15, 10, 16),
        (21, ECLevel::LOW) => (28, 4, 116, 4, 117),
        (21, ECLevel::MEDIUM) => (26, 17, 42, 0, 0),
        (21, ECLevel::QUARTILE) => (28, 17, 22, 6, 23),
        (21, ECLevel::HIGH) => (30, 19, 16, 6, 17),
        (22, ECLevel::LOW) => (28, 2, 111, 7, 112),
        (22, ECLevel::MEDIUM) => (28, 17, 46, 0, 0),
        (22, ECLevel::QUARTILE) => (30, 7, 24, 16, 25),
        (22, ECLevel::HIGH) => (24, 34, 13, 0, 0),
        (23, ECLevel::LOW) => (30, 4, 121, 5, 122),
        (23, ECLevel::MEDIUM) => (28, 4, 47, 14, 48),
        (23, ECLevel::QUARTILE) => (30, 11, 24, 14, 25),
        (23, ECLevel::HIGH) => (30, 16, 15, 14, 16),
        (24, ECLevel::LOW) => (30, 6, 117, 4, 118),
        (24, ECLevel::MEDIUM) => (28, 6, 45, 14, 46),
        (24, ECLevel::QUARTILE) => (30, 11, 24, 16, 25),
        (24, ECLevel::HIGH) => (30, 30, 16, 2, 17),
        (25, ECLevel::LOW) => (26, 8, 106, 4, 107),
        (25, ECLevel::MEDIUM) => (28, 8, 47, 13, 48),
        (25, ECLevel::QUARTILE) => (30, 7, 24, 22, 25),
        (25, ECLevel::HIGH) => (30, 22, 15, 13, 16),
        (26, ECLevel::LOW) => (28, 10, 114, 2, 115),
        (26, ECLevel::MEDIUM) => (28, 19, 46, 4, 47),
        (26, ECLevel::QUARTILE) => (28, 28, 22, 6, 23),
        (26, ECLevel::HIGH) => (30, 33, 16, 4, 17),
        (27, ECLevel::LOW) => (30, 8, 122, 4, 123),
        (27, ECLevel::MEDIUM) => (28, 22, 45, 3, 46),
        (27, ECLevel::QUARTILE) => (30, 8, 23, 26, 24),
        (27, ECLevel::HIGH) => (30, 12, 15, 28, 16),
        (28, ECLevel::LOW) => (30, 3, 117, 10, 118),
        (28, ECLevel::MEDIUM) => (28, 3, 45, 23, 46),
        (28, ECLevel::QUARTILE) => (30, 4, 24, 31, 25),
        (28, ECLevel::HIGH) => (30, 11, 15, 31, 16),
        (29, ECLevel::LOW) => (30, 7, 116, 7, 117),
        (29, ECLevel::MEDIUM) => (28, 21, 45, 7, 46),
        (29, ECLevel::QUARTILE) => (30, 1, 23, 37, 24),
        (29, ECLevel::HIGH) => (30, 19, 15, 26, 16),
        (30, ECLevel::LOW) => (30, 5, 115, 10, 116),
        (30, ECLevel::MEDIUM) => (28, 19, 47, 10, 48),
        (30, ECLevel::QUARTILE) => (30, 15, 24, 25, 25),
        (30, ECLevel::HIGH) => (30, 23, 15, 25, 16),
        (31, ECLevel::LOW) => (30, 13, 115, 3, 116),
        (31, ECLevel::MEDIUM) => (28, 2, 46, 29, 47),
        (31, ECLevel::QUARTILE) => (30, 42, 24, 1, 25),
        (31, ECLevel::HIGH) => (30, 23, 15, 28, 16),
        (32, ECLevel::LOW) => (30, 17, 115, 0, 0),
        (32, ECLevel::MEDIUM) => (28, 10, 46, 23, 47),
        (32, ECLevel::QUARTILE) => (30, 10, 24, 35, 25),
        (32, ECLevel::HIGH) => (30, 19, 15, 35, 16),
        (33, ECLevel::LOW) => (30, 17, 115, 1, 116),
        (33, ECLevel::MEDIUM) => (28, 14, 46, 21, 47),
        (33, ECLevel::QUARTILE) => (30, 29, 24, 19, 25),
        (33, ECLevel::HIGH) => (30, 11, 15, 46, 16),
        (34, ECLevel::LOW) => (30, 13, 115, 6, 116),
        (34, ECLevel::MEDIUM) => (28, 14, 46, 23, 47),
        (34, ECLevel::QUARTILE) => (30, 44, 24, 7, 25),
        (34, ECLevel::HIGH) => (30, 59, 16, 1, 17),
        (35, ECLevel::LOW) => (30, 12, 121, 7, 122),
        (35, ECLevel::MEDIUM) => (28, 12, 47, 26, 48),
        (35, ECLevel::QUARTILE) => (30, 39, 24, 14, 25),
        (35, ECLevel::HIGH) => (30, 22, 15, 41, 16),
        (36, ECLevel::LOW) => (30, 6, 121, 14, 122),
        (36, ECLevel::MEDIUM) => (28, 6, 47, 34, 48),
        (36, ECLevel::QUARTILE) => (30, 46, 24, 10, 25),
        (36, ECLevel::HIGH) => (30, 2, 15, 64, 16),
        (37, ECLevel::LOW) => (30, 17, 122, 4, 123),
        (37, ECLevel::MEDIUM) => (28, 29, 46, 14, 47),
        (37, ECLevel::QUARTILE) => (30, 49, 24, 10, 25),
        (37, ECLevel::HIGH) => (30, 24, 15, 46, 16),
        (38, ECLevel::LOW) => (30, 4, 122, 18, 123),
        (38, ECLevel::MEDIUM) => (28, 13, 46, 32, 47),
        (38, ECLevel::QUARTILE) => (30, 48, 24, 14, 25),
        (38, ECLevel::HIGH) => (30, 42, 15, 32, 16),
        (39, ECLevel::LOW) => (30, 20, 117, 4, 118),
        (39, ECLevel::MEDIUM) => (28, 40, 47, 7, 48),
        (39, ECLevel::QUARTILE) => (30, 43, 24, 22, 25),
        (39, ECLevel::HIGH) => (30, 10, 15, 67, 16),
        (40, ECLevel::LOW) => (30, 19, 118, 6, 119),
        (40, ECLevel::MEDIUM) => (28, 18, 47, 31, 48),
        (40, ECLevel::QUARTILE) => (30, 34, 24, 34, 25),
        (40, ECLevel::HIGH) => (30, 20, 15, 61, 16),
        _ => (0, 0, 0, 0, 0),
    }
}

/// Total codeword capacity of a version, per the standard table.
pub open spec fn total_codewords_spec(version: u32) -> int {
    match version {
        1 => 26,
        2 => 44,
        3 => 70,
        4 => 100,
        5 => 134,
        6 => 172,
        7 => 196,
        8 => 242,
        9 => 292,
        10 => 346,
        11 => 404,
        12 => 466,
        13 => 532,
        14 => 581,
        15 => 655,
        16 => 733,
        17 => 815,
        18 => 901,
        19 => 991,
        20 => 1085,
        21 => 1156,
        22 => 1258,
        23 => 1364,
        24 => 1474,
        25 => 1588,
        26 => 1706,
        27 => 1828,
        28 => 1921,
        29 => 2051,
        30 => 2185,
        31 => 2323,
        32 => 2465,
        33 => 2611,
        34 => 2761,
        35 => 2876,
        36 => 3034,
        37 => 3196,
        38 => 3362,
        39 => 3532,
        40 => 3706,
        _ => 0,
    }
}

/// Data codeword capacity of a (version, level), per the standard table.
pub open spec fn data_codewords_spec(version: u32, level: ECLevel) -> int {
    match (version, level) {
        (1, ECLevel::LOW) => 19,
        (1, ECLevel::MEDIUM) => 16,
        (1, ECLevel::QUARTILE) => 13,
        (1, ECLevel::HIGH) => 9,
        (2, ECLevel::LOW) => 34,
        (2, ECLevel::MEDIUM) => 28,
        (2, ECLevel::QUARTILE) => 22,
        (2, ECLevel::HIGH) => 16,
        (3, ECLevel::LOW) => 55,
        (3, ECLevel::MEDIUM) => 44,
        (3, ECLevel::QUARTILE) => 34,
        (3, ECLevel::HIGH) => 26,
        (4, ECLevel::LOW) => 80,
        (4, ECLevel::MEDIUM) => 64,
        (4, ECLevel::QUARTILE) => 48,
        (4, ECLevel::HIGH) => 36,
        (5, ECLevel::LOW) => 108,
        (5, ECLevel::MEDIUM) => 86,
        (5, ECLevel::QUARTILE) => 62,
        (5, ECLevel::HIGH) => 46,
        (6, ECLevel::LOW) => 136,
        (6, ECLevel::MEDIUM) => 108,
        (6, ECLevel::QUARTILE) => 76,
        (6, ECLevel::HIGH) => 60,
        (7, ECLevel::LOW) => 156,
        (7, ECLevel::MEDIUM) => 124,
        (7, ECLevel::QUARTILE) => 88,
        (7, ECLevel::HIGH) => 66,
        (8, ECLevel::LOW) => 194,
        (8, ECLevel::MEDIUM) => 154,
        (8, ECLevel::QUARTILE) => 110,
        (8, ECLevel::HIGH) => 86,
        (9, ECLevel::LOW) => 232,
        (9, ECLevel::MEDIUM) => 182,
        (9, ECLevel::QUARTILE) => 132,
        (9, ECLevel::HIGH) => 100,
        (10, ECLevel::LOW) => 274,
        (10, ECLevel::MEDIUM) => 216,
        (10, ECLevel::QUARTILE) => 154,
        (10, ECLevel::HIGH) => 122,
        (11, ECLevel::LOW) => 324,
        (11, ECLevel::MEDIUM) => 254,
        (11, ECLevel::QUARTILE) => 180,
        (11, ECLevel::HIGH) => 140,
        (12, ECLevel::LOW) => 370,
        (12, ECLevel::MEDIUM) => 290,
        (12, ECLevel::QUARTILE) => 206,
        (12, ECLevel::HIGH) => 158,
        (13, ECLevel::LOW) => 428,
        (13, ECLevel::MEDIUM) => 334,
        (13, ECLevel::QUARTILE) => 244,
        (13, ECLevel::HIGH) => 180,
        (14, ECLevel::LOW) => 461,
        (14, ECLevel::MEDIUM) => 365,
        (14, ECLevel::QUARTILE) => 261,
        (14, ECLevel::HIGH) => 197,
        (15, ECLevel::LOW) => 523,
        (15, ECLevel::MEDIUM) => 415,
        (15, ECLevel::QUARTILE) => 295,
        (15, ECLevel::HIGH) => 223,
        (16, ECLevel::LOW) => 589,
        (16, ECLevel::MEDIUM) => 453,
        (16, ECLevel::QUARTILE) => 325,
        (16, ECLevel::HIGH) => 253,
        (17, ECLevel::LOW) => 647,
        (17, ECLevel::MEDIUM) => 507,
        (17, ECLevel::QUARTILE) => 367,
        (17, ECLevel::HIGH) => 283,
        (18, ECLevel::LOW) => 721,
        (18, ECLevel::MEDIUM) => 563,
        (18, ECLevel::QUARTILE) => 397,
        (18, ECLevel::HIGH) => 313,
        (19, ECLevel::LOW) => 795,
        (19, ECLevel::MEDIUM) => 627,
        (19, ECLevel::QUARTILE) => 445,
        (19, ECLevel::HIGH) => 341,
        (20, ECLevel::LOW) => 861,
        (20, ECLevel::MEDIUM) => 669,
        (20, ECLevel::QUARTILE) => 485,
        (20, ECLevel::HIGH) => 385,
        (21, ECLevel::LOW) => 932,
        (21, ECLevel::MEDIUM) => 714,
        (21, ECLevel::QUARTILE) => 512,
        (21, ECLevel::HIGH) => 406,
        (22, ECLevel::LOW) => 1006,
        (22, ECLevel::MEDIUM) => 782,
        (22, ECLevel::QUARTILE) => 568,
        (22, ECLevel::HIGH) => 442,
        (23, ECLevel::LOW) => 1094,
        (23, ECLevel::MEDIUM) => 860,
        (23, ECLevel::QUARTILE) => 614,
        (23, ECLevel::HIGH) => 464,
        (24, ECLevel::LOW) => 1174,
        (24, ECLevel::MEDIUM) => 914,
        (24, ECLevel::QUARTILE) => 664,
        (24, ECLevel::HIGH) => 514,
        (25, ECLevel::LOW) => 1276,
        (25, ECLevel::MEDIUM) => 1000,
        (25, ECLevel::QUARTILE) => 718,
        (25, ECLevel::HIGH) => 538,
        (26, ECLevel::LOW) => 1370,
        (26, ECLevel::MEDIUM) => 1062,
        (26, ECLevel::QUARTILE) => 754,
        (26, ECLevel::HIGH) => 596,
        (27, ECLevel::LOW) => 1468,
        (27, ECLevel::MEDIUM) => 1128,
        (27, ECLevel::QUARTILE) => 808,
        (27, ECLevel::HIGH) => 628,
        (28, ECLevel::LOW) => 1531,
        (28, ECLevel::MEDIUM) => 1193,
        (28, ECLevel::QUARTILE) => 871,
        (28, ECLevel::HIGH) => 661,
        (29, ECLevel::LOW) => 1631,
        (29, ECLevel::MEDIUM) => 1267,
        (29, ECLevel::QUARTILE) => 911,
        (29, ECLevel::HIGH) => 701,
        (30, ECLevel::LOW) => 1735,
        (30, ECLevel::MEDIUM) => 1373,
        (30, ECLevel::QUARTILE) => 985,
        (30, ECLevel::HIGH) => 745,
        (31, ECLevel::LOW) => 1843,
        (31, ECLevel::MEDIUM) => 1455,
        (31, ECLevel::QUARTILE) => 1033,
        (31, ECLevel::HIGH) => 793,
        (32, ECLevel::LOW) => 1955,
        (32, ECLevel::MEDIUM) => 1541,
        (32, ECLevel::QUARTILE) => 1115,
        (32, ECLevel::HIGH) => 845,
        (33, ECLevel::LOW) => 2071,
        (33, ECLevel::MEDIUM) => 1631,
        (33, ECLevel::QUARTILE) => 1171,
        (33, ECLevel::HIGH) => 901,
        (34, ECLevel::LOW) => 2191,
        (34, ECLevel::MEDIUM) => 1725,
        (34, ECLevel::QUARTILE) => 1231,
        (34, ECLevel::HIGH) => 961,
        (35, ECLevel::LOW) => 2306,
        (35, ECLevel::MEDIUM) => 1812,
        (35, ECLevel::QUARTILE) => 1286,
        (35, ECLevel::HIGH) => 986,
        (36, ECLevel::LOW) => 2434,
        (36, ECLevel::MEDIUM) => 1914,
        (36, ECLevel::QUARTILE) => 1354,
        (36, ECLevel::HIGH) => 1054,
        (37, ECLevel::LOW) => 2566,
        (37, ECLevel::MEDIUM) => 1992,
        (37, ECLevel::QUARTILE) => 1426,
        (37, ECLevel::HIGH) => 1096,
        (38, ECLevel::LOW) => 2702,
        (38, ECLevel::MEDIUM) => 2102,
        (38, ECLevel::QUARTILE) => 1502,
        (38, ECLevel::HIGH) => 1142,
        (39, ECLevel::LOW) => 2812,
        (39, ECLevel::MEDIUM) => 2216,
        (39, ECLevel::QUARTILE) => 1582,
        (39, ECLevel::HIGH) => 1222,
        (40, ECLevel::LOW) => 2956,
        (40, ECLevel::MEDIUM) => 2334,
        (40, ECLevel::QUARTILE) => 1666,
        (40, ECLevel::HIGH) => 1276,
        _ => 0,
    }
}

/// Whether the (version, level) has an odd count of EC codewords per
/// block, leaving one codeword beside the `2 * ec_cap` that correction
/// uses.
pub open spec fn ec_odd(version: u32, level: ECLevel) -> bool {
    (version == 1 && level != ECLevel::MEDIUM) || (version == 3 && level == ECLevel::LOW)
}

/// The ordered per-block structure of a (version, level): every block of
/// the first group, then every block of the second.
pub open spec fn block_info_seq(version: u32, level: ECLevel) -> Seq<BlockInfo> {
    let (ec, c1, d1, c2, d2) = layout_spec(version, level);
    Seq::new(
        (c1 + c2) as nat,
        |i: int|
            BlockInfo {
                block_count: (c1 + c2) as u8,
                total_per: if i < c1 { (d1 + ec) as u8 } else { (d2 + ec) as u8 },
                data_per: if i < c1 { d1 } else { d2 },
                ec_cap: (ec / 2) as u8,
            },
    )
}

/// Sum of the data codeword counts over the first `j` entries of a block
/// sequence.
pub open spec fn sum_data_to(s: Seq<BlockInfo>, j: int) -> int
    decreases j,
{
    if j <= 0 {
        0
    } else {
        sum_data_to(s, j - 1) + s[j - 1].data_per
    }
}

/// Sum of the data codeword counts over a block sequence.
pub open spec fn sum_data(s: Seq<BlockInfo>) -> int {
    sum_data_to(s, s.len() as int)
}

/// Sum of the total codeword counts over the first `j` entries of a block
/// sequence.
pub open spec fn sum_total_to(s: Seq<BlockInfo>, j: int) -> int
    decreases j,
{
    if j <= 0 {
        0
    } else {
        sum_total_to(s, j - 1) + s[j - 1].total_per
    }
}

/// Sum of the total codeword counts over a block sequence.
pub open spec fn sum_total(s: Seq<BlockInfo>) -> int {
    sum_total_to(s, s.len() as int)
}

/// Sums of a sequence whose first `c1` entries repeat one block shape and
/// whose remainder repeats another.
proof fn lemma_sum_groups(s: Seq<BlockInfo>, c1: int, d1: int, d2: int, t1: int, t2: int, j: int)
    requires
        0 <= c1 <= s.len(),
        0 <= j <= s.len(),
        forall|i: int| 0 <= i < c1 ==> (#[trigger] s[i]).data_per == d1 && s[i].total_per == t1,
        forall|i: int| c1 <= i < s.len() ==> (#[trigger] s[i]).data_per == d2 && s[i].total_per == t2,
    ensures
        j <= c1 ==> sum_data_to(s, j) == j * d1 && sum_total_to(s, j) == j * t1,
        j > c1 ==> sum_data_to(s, j) == c1 * d1 + (j - c1) * d2 && sum_total_to(s, j) == c1 * t1 + (
        j - c1) * t2,
    decreases j,
{
    if j <= 0 {
        assert(0 * d1 == 0 && 0 * t1 == 0) by (nonlinear_arith);
    } else {
        lemma_sum_groups(s, c1, d1, d2, t1, t2, j - 1);
        if j <= c1 {
            assert((j - 1) * d1 + d1 == j * d1) by (nonlinear_arith);
            assert((j - 1) * t1 + t1 == j * t1) by (nonlinear_arith);
        } else if j == c1 + 1 {
            assert(c1 * d1 + 1 * d2 == c1 * d1 + d2 && c1 * t1 + 1 * t2 == c1 * t1 + t2)
                by (nonlinear_arith);
        } else {
            assert((j - 1 - c1) * d2 + d2 == (j - c1) * d2) by (nonlinear_arith);
            assert((j - 1 - c1) * t2 + t2 == (j - c1) * t2) by (nonlinear_arith);
        }
    }
}

/// The block structure of a (version, level), straight from the table.
#[verifier::rlimit(100)]
fn block_layout(version: u32, level: &ECLevel) -> (r: (u8, u8, u8, u8, u8))
    ensures
        r == layout_spec(version, *level),
        1 <= version <= 40 ==> ({
            &&& 2 <= r.0 <= 30
            &&& r.1 >= 1 && r.2 >= 1
            &&& r.2 as int + r.0 as int <= 255
            &&& (r.3 == 0 ==> r.4 == 0)
            &&& (r.3 > 0 ==> r.4 == r.2 + 1 && r.4 as int + r.0 as int <= 255)
            &&& r.1 as int + r.3 as int <= 81
            &&& (r.1 as int) * (r.2 as int) + (r.3 as int) * (r.4 as int)
                == data_codewords_spec(version, *level)
            &&& (r.1 as int + r.3 as int) * (r.0 as int)
                + data_codewords_spec(version, *level) == total_codewords_spec(version)
            &&& r.0 as int % 2 == (if ec_odd(version, *level) { 1int } else { 0int })
        }),
{
    match (version, *level) {
        (1, ECLevel::LOW) => (7, 1, 19, 0, 0),
        (1, ECLevel::MEDIUM) => (10, 1, 16, 0, 0),
        (1, ECLevel::QUARTILE) => (13, 1, 13, 0, 0),
        (1, ECLevel::HIGH) => (17, 1, 9, 0, 0),
        (2, ECLevel::LOW) => (10, 1, 34, 0, 0),
        (2, ECLevel::MEDIUM) => (16, 1, 28, 0, 0),
        (2, ECLevel::QUARTILE) => (22, 1, 22, 0, 0),
        (2, ECLevel::HIGH) => (28, 1, 16, 0, 0),
        (3, ECLevel::LOW) => (15, 1, 55, 0, 0),
        (3, ECLevel::MEDIUM) => (26, 1, 44, 0, 0),
        (3, ECLevel::QUARTILE) => (18, 2, 17, 0, 0),
        (3, ECLevel::HIGH) => (22, 2, 13, 0, 0),
        (4, ECLevel::LOW) => (20, 1, 80, 0, 0),
        (4, ECLevel::MEDIUM) => (18, 2, 32, 0, 0),
        (4, ECLevel::QUARTILE) => (26, 2, 24, 0, 0),
        (4, ECLevel::HIGH) => (16, 4, 9, 0, 0),
        (5, ECLevel::LOW) => (26, 1, 108, 0, 0),
        (5, ECLevel::MEDIUM) => (24, 2, 43, 0, 0),
        (5, ECLevel::QUARTILE) => (18, 2, 15, 2, 16),
        (5, ECLevel::HIGH) => (22, 2, 11, 2, 12),
        (6, ECLevel::LOW) => (18, 2, 68, 0, 0),
        (6, ECLevel::MEDIUM) => (16, 4, 27, 0, 0),
        (6, ECLevel::QUARTILE) => (24, 4, 19, 0, 0),
        (6, ECLevel::HIGH) => (28, 4, 15, 0, 0),
        (7, ECLevel::LOW) => (20, 2, 78, 0, 0),
        (7, ECLevel::MEDIUM) => (18, 4, 31, 0, 0),
        (7, ECLevel::QUARTILE) => (18, 2, 14, 4, 15),
        (7, ECLevel::HIGH) => (26, 4, 13, 1, 14),
        (8, ECLevel::LOW) => (24, 2, 97, 0, 0),
        (8, ECLevel::MEDIUM) => (22, 2, 38, 2, 39),
        (8, ECLevel::QUARTILE) => (22, 4, 18, 2, 19),
        (8, ECLevel::HIGH) => (26, 4, 14, 2, 15),
        (9, ECLevel::LOW) => (30, 2, 116, 0, 0),
        (9, ECLevel::MEDIUM) => (22, 3, 36, 2, 37),
        (9, ECLevel::QUARTILE) => (20, 4, 16, 4, 17),
        (9, ECLevel::HIGH) => (24, 4, 12, 4, 13),
        (10, ECLevel::LOW) => (18, 2, 68, 2, 69),
        (10, ECLevel::MEDIUM) => (26, 4, 43, 1, 44),
        (10, ECLevel::QUARTILE) => (24, 6, 19, 2, 20),
        (10, ECLevel::HIGH) => (28, 6, 15, 2, 16),
        (11, ECLevel::LOW) => (20, 4, 81, 0, 0),
        (11, ECLevel::MEDIUM) => (30, 1, 50, 4, 51),
        (11, ECLevel::QUARTILE) => (28, 4, 22, 4, 23),
        (11, ECLevel::HIGH) => (24, 3, 12, 8, 13),
        (12, ECLevel::LOW) => (24, 2, 92, 2, 93),
        (12, ECLevel::MEDIUM) => (22, 6, 36, 2, 37),
        (12, ECLevel::QUARTILE) => (26, 4, 20, 6, 21),
        (12, ECLevel::HIGH) => (28, 7, 14, 4, 15),
        (13, ECLevel::LOW) => (26, 4, 107, 0, 0),
        (13, ECLevel::MEDIUM) => (22, 8, 37, 1, 38),
        (13, ECLevel::QUARTILE) => (24, 8, 20, 4, 21),
        (13, ECLevel::HIGH) => (22, 12, 11, 4, 12),
        (14, ECLevel::LOW) => (30, 3, 115, 1, 116),
        (14, ECLevel::MEDIUM) => (24, 4, 40, 5, 41),
        (14, ECLevel::QUARTILE) => (20, 11, 16, 5, 17),
        (14, ECLevel::HIGH) => (24, 11, 12, 5, 13),
        (15, ECLevel::LOW) => (22, 5, 87, 1, 88),
        (15, ECLevel::MEDIUM) => (24, 5, 41, 5, 42),
        (15, ECLevel::QUARTILE) => (30, 5, 24, 7, 25),
        (15, ECLevel::HIGH) => (24, 11, 12, 7, 13),
        (16, ECLevel::LOW) => (24, 5, 98, 1, 99),
        (16, ECLevel::MEDIUM) => (28, 7, 45, 3, 46),
        (16, ECLevel::QUARTILE) => (24, 15, 19, 2, 20),
        (16, ECLevel::HIGH) => (30, 3, 15, 13, 16),
        (17, ECLevel::LOW) => (28, 1, 107, 5, 108),
        (17, ECLevel::MEDIUM) => (28, 10, 46, 1, 47),
        (17, ECLevel::QUARTILE) => (28, 1, 22, 15, 23),
        (17, ECLevel::HIGH) => (28, 2, 14, 17, 15),
        (18, ECLevel::LOW) => (30, 5, 120, 1, 121),
        (18, ECLevel::MEDIUM) => (26, 9, 43, 4, 44),
        (18, ECLevel::QUARTILE) => (28, 17, 22, 1, 23),
        (18, ECLevel::HIGH) => (28, 2, 14, 19, 15),
        (19, ECLevel::LOW) => (28, 3, 113, 4, 114),
        (19, ECLevel::MEDIUM) => (26, 3, 44, 11, 45),
        (19, ECLevel::QUARTILE) => (26, 17, 21, 4, 22),
        (19, ECLevel::HIGH) => (26, 9, 13, 16, 14),
        (20, ECLevel::LOW) => (28, 3, 107, 5, 108),
        (20, ECLevel::MEDIUM) => (26, 3, 41, 13, 42),
        (20, ECLevel::QUARTILE) => (30, 15, 24, 5, 25),
        (20, ECLevel::HIGH) => (28, 15, 15, 10, 16),
        (21, ECLevel::LOW) => (28, 4, 116, 4, 117),
        (21, ECLevel::MEDIUM) => (26, 17, 42, 0, 0),
        (21, ECLevel::QUARTILE) => (28, 17, 22, 6, 23),
        (21, ECLevel::HIGH) => (30, 19, 16, 6, 17),
        (22, ECLevel::LOW) => (28, 2, 111, 7, 112),
        (22, ECLevel::MEDIUM) => (28, 17, 46, 0, 0),
        (22, ECLevel::QUARTILE) => (30, 7, 24, 16, 25),
        (22, ECLevel::HIGH) => (24, 34, 13, 0, 0),
        (23, ECLevel::LOW) => (30, 4, 121, 5, 122),
        (23, ECLevel::MEDIUM) => (28, 4, 47, 14, 48),
        (23, ECLevel::QUARTILE) => (30, 11, 24, 14, 25),
        (23, ECLevel::HIGH) => (30, 16, 15, 14, 16),
        (24, ECLevel::LOW) => (30, 6, 117, 4, 118),
        (24, ECLevel::MEDIUM) => (28, 6, 45, 14, 46),
        (24, ECLevel::QUARTILE) => (30, 11, 24, 16, 25),
        (24, ECLevel::HIGH) => (30, 30, 16, 2, 17),
        (25, ECLevel::LOW) => (26, 8, 106, 4, 107),
        (25, ECLevel::MEDIUM) => (28, 8, 47, 13, 48),
        (25, ECLevel::QUARTILE) => (30, 7, 24, 22, 25),
        (25, ECLevel::HIGH) => (30, 22, 15, 13, 16),
        (26, ECLevel::LOW) => (28, 10, 114, 2, 115),
        (26, ECLevel::MEDIUM) => (28, 19, 46, 4, 47),
        (26, ECLevel::QUARTILE) => (28, 28, 22, 6, 23),
        (26, ECLevel::HIGH) => (30, 33, 16, 4, 17),
        (27, ECLevel::LOW) => (30, 8, 122, 4, 123),
        (27, ECLevel::MEDIUM) => (28, 22, 45, 3, 46),
        (27, ECLevel::QUARTILE) => (30, 8, 23, 26, 24),
        (27, ECLevel::HIGH) => (30, 12, 15, 28, 16),
        (28, ECLevel::LOW) => (30, 3, 117, 10, 118),
        (28, ECLevel::MEDIUM) => (28, 3, 45, 23, 46),
        (28, ECLevel::QUARTILE) => (30, 4, 24, 31, 25),
        (28, ECLevel::HIGH) => (30, 11, 15, 31, 16),
        (29, ECLevel::LOW) => (30, 7, 116, 7, 117),
        (29, ECLevel::MEDIUM) => (28, 21, 45, 7, 46),
        (29, ECLevel::QUARTILE) => (30, 1, 23, 37, 24),
        (29, ECLevel::HIGH) => (30, 19, 15, 26, 16),
        (30, ECLevel::LOW) => (30, 5, 115, 10, 116),
        (30, ECLevel::MEDIUM) => (28, 19, 47, 10, 48),
        (30, ECLevel::QUARTILE) => (30, 15, 24, 25, 25),
        (30, ECLevel::HIGH) => (30, 23, 15, 25, 16),
        (31, ECLevel::LOW) => (30, 13, 115, 3, 116),
        (31, ECLevel::MEDIUM) => (28, 2, 46, 29, 47),
        (31, ECLevel::QUARTILE) => (30, 42, 24, 1, 25),
        (31, ECLevel::HIGH) => (30, 23, 15, 28, 16),
        (32, ECLevel::LOW) => (30, 17, 115, 0, 0),
        (32, ECLevel::MEDIUM) => (28, 10, 46, 23, 47),
        (32, ECLevel::QUARTILE) => (30, 10, 24, 35, 25),
        (32, ECLevel::HIGH) => (30, 19, 15, 35, 16),
        (33, ECLevel::LOW) => (30, 17, 115, 1, 116),
        (33, ECLevel::MEDIUM) => (28, 14, 46, 21, 47),
        (33, ECLevel::QUARTILE) => (30, 29, 24, 19, 25),
        (33, ECLevel::HIGH) => (30, 11, 15, 46, 16),
        (34, ECLevel::LOW) => (30, 13, 115, 6, 116),
        (34, ECLevel::MEDIUM) => (28, 14, 46, 23, 47),
        (34, ECLevel::QUARTILE) => (30, 44, 24, 7, 25),
        (34, ECLevel::HIGH) => (30, 59, 16, 1, 17),
        (35, ECLevel::LOW) => (30, 12, 121, 7, 122),
        (35, ECLevel::MEDIUM) => (28, 12, 47, 26, 48),
        (35, ECLevel::QUARTILE) => (30, 39, 24, 14, 25),
        (35, ECLevel::HIGH) => (30, 22, 15, 41, 16),
        (36, ECLevel::LOW) => (30, 6, 121, 14, 122),
        (36, ECLevel::MEDIUM) => (28, 6, 47, 34, 48),
        (36, ECLevel::QUARTILE) => (30, 46, 24, 10, 25),
        (36, ECLevel::HIGH) => (30, 2, 15, 64, 16),
        (37, ECLevel::LOW) => (30, 17, 122, 4, 123),
        (37, ECLevel::MEDIUM) => (28, 29, 46, 14, 47),
        (37, ECLevel::QUARTILE) => (30, 49, 24, 10, 25),
        (37, ECLevel::HIGH) => (30, 24, 15, 46, 16),
        (38, ECLevel::LOW) => (30, 4, 122, 18, 123),
        (38, ECLevel::MEDIUM) => (28, 13, 46, 32, 47),
        (38, ECLevel::QUARTILE) => (30, 48, 24, 14, 25),
        (38, ECLevel::HIGH) => (30, 42, 15, 32, 16),
        (39, ECLevel::LOW) => (30, 20, 117, 4, 118),
        (39, ECLevel::MEDIUM) => (28, 40, 47, 7, 48),
        (39, ECLevel::QUARTILE) => (30, 43, 24, 22, 25),
        (39, ECLevel::HIGH) => (30, 10, 15, 67, 16),
        (40, ECLevel::LOW) => (30, 19, 118, 6, 119),
        (40, ECLevel::MEDIUM) => (28, 18, 47, 31, 48),
        (40, ECLevel::QUARTILE) => (30, 34, 24, 34, 25),
        (40, ECLevel::HIGH) => (30, 20, 15, 61, 16),
        _ => (0, 0, 0, 0, 0),
    }
}

/// The ordered Reed-Solomon block structure of a symbol: one entry per
/// block, first group then second. Versions outside 1..=40 are refused.
/// The sums over the result restate the standard capacity tables: the
/// data codewords of a (version, level) and the total codewords of a
/// version; and each entry's total codeword count exceeds its data
/// codeword count by the 2 * ec_cap codewords that correction consumes,
/// plus one left-over codeword exactly where the table assigns an odd EC
/// count.
pub fn block_info(version: u32, level: &ECLevel) -> (r: Result<Vec<BlockInfo>, QRError>)
    ensures
        r is Ok <==> 1 <= version <= 40,
        r is Ok ==> ({
            let s = block_info_seq(version, *level);
            &&& r->Ok_0@ == s
            &&& 1 <= s.len() <= 81
            &&& sum_data(s) == data_codewords_spec(version, *level)
            &&& sum_total(s) == total_codewords_spec(version)
            &&& forall|i: int|
                0 <= i < s.len() ==> (#[trigger] s[i]).total_per as int == s[i].data_per as int
                    + 2 * (s[i].ec_cap as int) + (if ec_odd(version, *level) {
                    1int
                } else {
                    0int
                })
            &&& forall|i: int|
                0 <= i < s.len() ==> (#[trigger] s[i]).ec_cap == s[0].ec_cap && s[i].ec_cap >= 1
                    && s[i].data_per >= 1 && s[i].block_count as int == s.len()
        }),
{
    if version < 1 || version > 40 {
        return Err(QRError { msg: String::from_str("unknown version") });
    }
    let (ec, c1, d1, c2, d2) = block_layout(version, level);
    let bc = c1 + c2;
    let ecc = ec / 2;
    let ghost s = block_info_seq(version, *level);
    let mut out: Vec<BlockInfo> = Vec::new();
    let mut i: u8 = 0;
    while i < c1
        invariant
            i <= c1,
            out@.len() == i as int,
            forall|k: int| 0 <= k < i as int ==> out@[k] == s[k],
            (ec, c1, d1, c2, d2) == layout_spec(version, *level),
            bc == c1 + c2,
            ecc == ec / 2,
            d1 as int + ec as int <= 255,
            c1 as int + c2 as int <= 81,
            s == block_info_seq(version, *level),
        decreases c1 - i,
    {
        out.push(BlockInfo { block_count: bc, total_per: d1 + ec, data_per: d1, ec_cap: ecc });
        i = i + 1;
    }
    let mut j: u8 = 0;
    while j < c2
        invariant
            j <= c2,
            out@.len() == c1 as int + j as int,
            forall|k: int| 0 <= k < c1 as int + j as int ==> out@[k] == s[k],
            (ec, c1, d1, c2, d2) == layout_spec(version, *level),
            bc == c1 + c2,
            ecc == ec / 2,
            c2 > 0 ==> d2 as int + ec as int <= 255,
            c1 as int + c2 as int <= 81,
            s == block_info_seq(version, *level),
        decreases c2 - j,
    {
        out.push(BlockInfo { block_count: bc, total_per: d2 + ec, data_per: d2, ec_cap: ecc });
        j = j + 1;
    }
    proof {
        assert(out@ =~= s);
        lemma_sum_groups(
            s,
            c1 as int,
            d1 as int,
            d2 as int,
            d1 as int + ec as int,
            d2 as int + ec as int,
            s.len() as int,
        );
        assert((c1 as int) * (d1 as int + ec as int) + (c2 as int) * (d2 as int + ec as int)
            == (c1 as int) * (d1 as int) + (c2 as int) * (d2 as int) + (c1 as int + c2 as int) * (
        ec as int)) by (nonlinear_arith);
    }
    Ok(out)
}

} // verus!
