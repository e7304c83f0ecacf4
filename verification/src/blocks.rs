//! Codeword extraction from a sampled QR module grid: the zig-zag walk
//! over the data modules, the reserved-region predicate, the alignment
//! pattern coordinates, and the de-interleaving of the codeword stream
//! into its Reed-Solomon blocks.

use vstd::prelude::*;
use vstd::string::*;

use crate::block_info::block_info;
use crate::block_info::block_info_seq;
use crate::block_info::BlockInfo;
use crate::format::masked_bit;
use crate::format::QRMask;
use crate::qr::qr_side;
use crate::qr::ECLevel;
use crate::qr::QRData;
use crate::qr::QRError;

verus! {

/// Where the alignment patterns of a version sit: the first center after
/// the one at 6 is at `start`, and further centers follow every `step`
/// modules. Versions whose patterns do not repeat carry a step (and for
/// version 1, a start) far beyond any coordinate.
#[derive(Clone, Copy, Debug, PartialEq, Eq, Structural)]
pub struct AlignmentLocation {
    pub start: u32,
    pub step: u32,
}

impl AlignmentLocation {
    pub open spec fn wf(&self) -> bool {
        self.start >= 18 && self.step >= 16
    }

    pub fn new(start: u32, step: u32) -> (r: AlignmentLocation)
        ensures
            r.start == start,
            r.step == step,
    {
        AlignmentLocation { start, step }
    }
}

/// The (start, step) of the alignment pattern grid of a version, from the
/// table of ISO/IEC 18004 Annex E. Versions outside 1..=40 map to (0, 0).
pub open spec fn alignment_location_spec(version: u32) -> (u32, u32) {
    match version {
        1 => (1000, 1000),
        2 => (18, 1000),
        3 => (22, 1000),
        4 => (26, 1000),
        5 => (30, 1000),
        6 => (34, 1000),
        7 => (22, 16),
        8 => (24, 18),
        9 => (26, 20),
        10 => (28, 22),
        11 => (30, 24),
        12 => (32, 26),
        13 => (34, 28),
        14 => (26, 20),
        15 => (26, 22),
        16 => (26, 24),
        17 => (30, 24),
        18 => (30, 26),
        19 => (30, 28),
        20 => (34, 28),
        21 => (28, 22),
        22 => (26, 24),
        23 => (30, 24),
        24 => (28, 26),
        25 => (32, 26),
        26 => (30, 28),
        27 => (34, 28),
        28 => (26, 24),
        29 => (30, 24),
        30 => (26, 26),
        31 => (30, 26),
        32 => (34, 26),
        33 => (30, 28),
        34 => (34, 28),
        35 => (30, 24),
        36 => (24, 26),
        37 => (28, 26),
        38 => (32, 26),
        39 => (26, 28),
        40 => (30, 28),
        _ => (0, 0),
    }
}

/// The alignment pattern grid of a version. Versions outside 1..=40 are
/// refused.
pub fn alignment_location(version: u32) -> (r: Result<AlignmentLocation, QRError>)
    ensures
        r is Ok <==> 1 <= version <= 40,
        r is Ok ==> (r->Ok_0.start, r->Ok_0.step) == alignment_location_spec(version)
            && r->Ok_0.wf(),
{
    if version < 1 || version > 40 {
        return Err(QRError { msg: String::from_str("unknown version") });
    }
    let (start, step) = match version {
        1 => (1000, 1000),
        2 => (18, 1000),
        3 => (22, 1000),
        4 => (26, 1000),
        5 => (30, 1000),
        6 => (34, 1000),
        7 => (22, 16),
        8 => (24, 18),
        9 => (26, 20),
        10 => (28, 22),
        11 => (30, 24),
        12 => (32, 26),
        13 => (34, 28),
        14 => (26, 20),
        15 => (26, 22),
        16 => (26, 24),
        17 => (30, 24),
        18 => (30, 26),
        19 => (30, 28),
        20 => (34, 28),
        21 => (28, 22),
        22 => (26, 24),
        23 => (30, 24),
        24 => (28, 26),
        25 => (32, 26),
        26 => (30, 28),
        27 => (34, 28),
        28 => (26, 24),
        29 => (30, 24),
        30 => (26, 26),
        31 => (30, 26),
        32 => (34, 26),
        33 => (30, 28),
        34 => (34, 28),
        35 => (30, 24),
        36 => (24, 26),
        37 => (28, 26),
        38 => (32, 26),
        39 => (26, 28),
        _ => (30, 28),
    };
    Ok(AlignmentLocation::new(start, step))
}

/// Whether a coordinate falls on the five-module span of a finder pattern
/// row or column (coordinates 4..=8) or of an alignment pattern of the
/// given grid: each alignment center `c` covers `c - 2 ..= c + 2`, and the
/// centers after 6 sit at `start`, `start + step`, and so on.
pub open spec fn is_alignment_coord_spec(start: int, step: int, coord: int) -> bool {
    (4 <= coord <= 8) || (coord >= start - 2 && (coord - (start - 2)) % step <= 4)
}

/// Whether a coordinate falls within the span of a finder pattern or of
/// an alignment pattern of the given grid.
pub fn is_alignment_coord(loc: &AlignmentLocation, coord: u32) -> (r: bool)
    requires
        loc.wf(),
    ensures
        r == is_alignment_coord_spec(loc.start as int, loc.step as int, coord as int),
{
    if coord >= 4 && coord <= 8 {
        return true;
    }
    if coord < loc.start - 2 {
        return false;
    }
    (coord - (loc.start - 2)) % loc.step <= 4
}

/// Whether the module at (x, y) carries a data bit: it lies on none of
/// the reserved structures of the symbol (timing patterns, the three
/// finder corners with their separators and format strips, version
/// information for versions 7 and up, and alignment patterns), where the
/// single format-strip cell beside each of the lower-left and upper-right
/// finders at index `side - 9` does carry data.
pub open spec fn is_data_spec(version: int, side: int, start: int, step: int, x: int, y: int) -> bool {
    if x == 6 || y == 6 {
        false
    } else if x < 9 && y < 9 {
        false
    } else if x > side - 9 && y < 9 {
        false
    } else if x < 9 && y > side - 9 {
        false
    } else if version >= 7 && x > side - 12 && y < 6 {
        false
    } else if version >= 7 && y > side - 12 && x < 6 {
        false
    } else if x == side - 9 && y < 9 {
        true
    } else if y == side - 9 && x < 9 {
        true
    } else if is_alignment_coord_spec(start, step, x) && is_alignment_coord_spec(start, step, y) {
        false
    } else {
        true
    }
}

/// Whether the module at (x, y) carries a data bit.
pub fn is_data(data: &QRData, loc: &AlignmentLocation, x: u32, y: u32) -> (r: bool)
    requires
        data.wf(),
        loc.wf(),
    ensures
        r == is_data_spec(
            data.version as int,
            data.side as int,
            loc.start as int,
            loc.step as int,
            x as int,
            y as int,
        ),
{
    // timing patterns
    if x == 6 || y == 6 {
        return false;
    }
    // top left finder pattern
    if x < 9 && y < 9 {
        return false;
    }
    // top right finder pattern
    if x > data.side - 9 && y < 9 {
        return false;
    }
    // bottom left finder pattern
    if x < 9 && y > data.side - 9 {
        return false;
    }
    // top right version info
    if data.version >= 7 && x > data.side - 12 && y < 6 {
        return false;
    }
    // bottom left version info
    if data.version >= 7 && y > data.side - 12 && x < 6 {
        return false;
    }
    if x == data.side - 9 && y < 9 {
        return true;
    }
    if y == data.side - 9 && x < 9 {
        return true;
    }
    if is_alignment_coord(loc, x) && is_alignment_coord(loc, y) {
        return false;
    }
    true
}

/// The lesser of two integers.
pub open spec fn min_i(a: int, b: int) -> int {
    if a < b {
        a
    } else {
        b
    }
}

/// Data codeword count of block `i`.
pub open spec fn dlen(bi: Seq<BlockInfo>, i: int) -> int {
    bi[i].data_per as int
}

/// Greatest data codeword count among the first `j` blocks.
pub open spec fn max_data(bi: Seq<BlockInfo>, j: int) -> int
    decreases j,
{
    if j <= 0 {
        0
    } else if dlen(bi, j - 1) > max_data(bi, j - 1) {
        dlen(bi, j - 1)
    } else {
        max_data(bi, j - 1)
    }
}

/// Codewords that the first `j` blocks receive in the data rounds before
/// round `n`: block `t` takes one codeword in each of its first
/// `dlen(t)` data rounds.
pub open spec fn row_start(bi: Seq<BlockInfo>, n: int, j: int) -> int
    decreases j,
{
    if j <= 0 {
        0
    } else {
        row_start(bi, n, j - 1) + min_i(dlen(bi, j - 1), n)
    }
}

/// How many of the first `j` blocks still take a data codeword in data
/// round `n`.
pub open spec fn count_gt(bi: Seq<BlockInfo>, n: int, j: int) -> int
    decreases j,
{
    if j <= 0 {
        0
    } else {
        count_gt(bi, n, j - 1) + if dlen(bi, j - 1) > n {
            1int
        } else {
            0int
        }
    }
}

/// Position in the interleaved codeword stream of codeword `n` of block
/// `i`: data codewords are distributed round-robin over the blocks that
/// still have data, then EC codewords round-robin over all blocks.
pub open spec fn stream_pos(bi: Seq<BlockInfo>, i: int, n: int) -> int {
    let b = bi.len() as int;
    let maxd = max_data(bi, b);
    if n < dlen(bi, i) {
        row_start(bi, n, b) + count_gt(bi, n, i)
    } else {
        row_start(bi, maxd, b) + (n - dlen(bi, i)) * b + i
    }
}

/// Codewords already distributed when the round-robin cursor stands at
/// round `r`, block `j`.
spec fn cursor_count(bi: Seq<BlockInfo>, r: int, j: int) -> int {
    let b = bi.len() as int;
    let maxd = max_data(bi, b);
    if r < maxd {
        row_start(bi, r, b) + count_gt(bi, r, j)
    } else {
        row_start(bi, maxd, b) + (r - maxd) * b + j
    }
}

/// Codewords that block `i` holds when the cursor stands at round `r`,
/// block `j`.
spec fn expected_len(bi: Seq<BlockInfo>, r: int, j: int, i: int) -> int {
    let maxd = max_data(bi, bi.len() as int);
    if r < maxd {
        min_i(dlen(bi, i), r) + if i < j && dlen(bi, i) > r {
            1int
        } else {
            0int
        }
    } else {
        dlen(bi, i) + (r - maxd) + if i < j {
            1int
        } else {
            0int
        }
    }
}

proof fn lemma_max_ge(bi: Seq<BlockInfo>, j: int, i: int)
    requires
        0 <= i < j,
    ensures
        dlen(bi, i) <= max_data(bi, j),
        max_data(bi, j) >= 0,
    decreases j,
{
    if i < j - 1 {
        lemma_max_ge(bi, j - 1, i);
    }
}

proof fn lemma_max_le(bi: Seq<BlockInfo>, j: int, bound: int)
    requires
        bound >= 0,
        forall|i: int| 0 <= i < j ==> dlen(bi, i) <= bound,
    ensures
        max_data(bi, j) <= bound,
    decreases j,
{
    if j > 0 {
        lemma_max_le(bi, j - 1, bound);
    }
}

proof fn lemma_row_start_succ(bi: Seq<BlockInfo>, n: int, j: int)
    requires
        0 <= j,
    ensures
        row_start(bi, n + 1, j) == row_start(bi, n, j) + count_gt(bi, n, j),
    decreases j,
{
    if j > 0 {
        lemma_row_start_succ(bi, n, j - 1);
    }
}

proof fn lemma_row_start_mono(bi: Seq<BlockInfo>, n1: int, n2: int, j: int)
    requires
        0 <= j,
        n1 <= n2,
    ensures
        row_start(bi, n1, j) <= row_start(bi, n2, j),
    decreases j,
{
    if j > 0 {
        lemma_row_start_mono(bi, n1, n2, j - 1);
    }
}

proof fn lemma_row_start_nonneg(bi: Seq<BlockInfo>, n: int, j: int)
    requires
        0 <= j,
        0 <= n,
        forall|i: int| 0 <= i < j ==> dlen(bi, i) >= 0,
    ensures
        row_start(bi, n, j) >= 0,
    decreases j,
{
    if j > 0 {
        lemma_row_start_nonneg(bi, n, j - 1);
    }
}

proof fn lemma_count_mono(bi: Seq<BlockInfo>, n: int, j1: int, j2: int)
    requires
        0 <= j1 <= j2,
    ensures
        count_gt(bi, n, j1) <= count_gt(bi, n, j2),
        count_gt(bi, n, j1) >= 0,
    decreases j2,
{
    if j1 < j2 {
        lemma_count_mono(bi, n, j1, j2 - 1);
    } else if j1 > 0 {
        lemma_count_mono(bi, n, j1 - 1, j1 - 1);
    }
}

/// With every block's data codewords at most `n` and every block's total
/// exceeding its data codewords by the same `e`, the first `j` totals sum
/// to the data sum plus `e` per block.
proof fn lemma_total_decomp(bi: Seq<BlockInfo>, n: int, e: int, j: int)
    requires
        0 <= j,
        forall|i: int| 0 <= i < j ==> dlen(bi, i) <= n,
        forall|i: int| 0 <= i < j ==> (#[trigger] bi[i].total_per) as int == dlen(bi, i) + e,
    ensures
        crate::block_info::sum_total_to(bi, j) == row_start(bi, n, j) + e * j,
    decreases j,
{
    if j <= 0 {
        assert(e * 0 == 0) by (nonlinear_arith);
    } else {
        lemma_total_decomp(bi, n, e, j - 1);
        assert(e * (j - 1) + e == e * j) by (nonlinear_arith);
    }
}

/// Moving the cursor past a block that takes no codeword in the current
/// data round neither changes the codeword count nor any block's length.
proof fn lemma_skip_neutral(bi: Seq<BlockInfo>, r: int, j: int)
    requires
        bi.len() >= 1,
        0 <= j < bi.len(),
        0 <= r < max_data(bi, bi.len() as int),
        dlen(bi, j) <= r,
    ensures
        j + 1 < bi.len() ==> cursor_count(bi, r, j + 1) == cursor_count(bi, r, j),
        j + 1 == bi.len() ==> cursor_count(bi, r + 1, 0) == cursor_count(bi, r, j),
        j + 1 < bi.len() ==> forall|i: int|
            0 <= i < bi.len() ==> #[trigger] expected_len(bi, r, j + 1, i) == expected_len(
                bi,
                r,
                j,
                i,
            ),
        j + 1 == bi.len() ==> forall|i: int|
            0 <= i < bi.len() ==> #[trigger] expected_len(bi, r + 1, 0, i) == expected_len(
                bi,
                r,
                j,
                i,
            ),
{
    let b = bi.len() as int;
    let maxd = max_data(bi, b);
    if j + 1 == b {
        lemma_row_start_succ(bi, r, b);
        if r + 1 < maxd {
        } else {
            lemma_row_start_mono(bi, r + 1, maxd, b);
            lemma_row_start_succ(bi, maxd - 1, b);
            // r + 1 == maxd here, since r < maxd <= r + 1
            assert(0 * b == 0) by (nonlinear_arith);
        }
        assert forall|i: int| 0 <= i < b implies #[trigger] expected_len(bi, r + 1, 0, i)
            == expected_len(bi, r, j, i) by {
            lemma_max_ge(bi, b, i);
        }
    } else {
        assert forall|i: int| 0 <= i < b implies #[trigger] expected_len(bi, r, j + 1, i)
            == expected_len(bi, r, j, i) by {
            lemma_max_ge(bi, b, i);
        }
    }
}

/// Handing the next codeword to the block under the cursor: the codeword
/// lands at the stream position the cursor counts, the count grows by
/// one, and only that block's length grows.
proof fn lemma_push_step(bi: Seq<BlockInfo>, r: int, j: int)
    requires
        bi.len() >= 1,
        0 <= j < bi.len(),
        0 <= r,
        r < max_data(bi, bi.len() as int) ==> dlen(bi, j) > r,
    ensures
        stream_pos(bi, j, expected_len(bi, r, j, j)) == cursor_count(bi, r, j),
        (if j + 1 < bi.len() {
            cursor_count(bi, r, j + 1)
        } else {
            cursor_count(bi, r + 1, 0)
        }) == cursor_count(bi, r, j) + 1,
        j + 1 < bi.len() ==> forall|i: int|
            0 <= i < bi.len() ==> #[trigger] expected_len(bi, r, j + 1, i) == expected_len(
                bi,
                r,
                j,
                i,
            ) + (if i == j {
                1int
            } else {
                0int
            }),
        j + 1 == bi.len() ==> forall|i: int|
            0 <= i < bi.len() ==> #[trigger] expected_len(bi, r + 1, 0, i) == expected_len(
                bi,
                r,
                j,
                i,
            ) + (if i == j {
                1int
            } else {
                0int
            }),
{
    let b = bi.len() as int;
    let maxd = max_data(bi, b);
    if r < maxd {
        // data round: the block under the cursor holds exactly r codewords
        assert(expected_len(bi, r, j, j) == r);
        lemma_count_mono(bi, r, j, j);
        if j + 1 == b {
            lemma_row_start_succ(bi, r, b);
            if r + 1 < maxd {
            } else {
                lemma_row_start_mono(bi, r + 1, maxd, b);
                lemma_row_start_succ(bi, maxd - 1, b);
                assert(0 * b == 0) by (nonlinear_arith);
            }
        }
        if j + 1 < b {
            assert forall|i: int| 0 <= i < b implies #[trigger] expected_len(bi, r, j + 1, i)
                == expected_len(bi, r, j, i) + (if i == j {
                1int
            } else {
                0int
            }) by {
                lemma_max_ge(bi, b, i);
                lemma_max_ge(bi, b, j);
            }
        } else {
            assert forall|i: int| 0 <= i < b implies #[trigger] expected_len(bi, r + 1, 0, i)
                == expected_len(bi, r, j, i) + (if i == j {
                1int
            } else {
                0int
            }) by {
                lemma_max_ge(bi, b, i);
                lemma_max_ge(bi, b, j);
            }
        }
    } else {
        // EC round: every block takes one codeword per round
        lemma_max_ge(bi, b, j);
        assert(expected_len(bi, r, j, j) == dlen(bi, j) + (r - maxd));
        assert((dlen(bi, j) + (r - maxd) - dlen(bi, j)) * b == (r - maxd) * b);
        if j + 1 == b {
            assert((r + 1 - maxd) * b == (r - maxd) * b + b) by (nonlinear_arith);
            assert forall|i: int| 0 <= i < b implies #[trigger] expected_len(bi, r + 1, 0, i)
                == expected_len(bi, r, j, i) + (if i == j {
                1int
            } else {
                0int
            }) by {
                lemma_max_ge(bi, b, i);
            }
        } else {
            assert forall|i: int| 0 <= i < b implies #[trigger] expected_len(bi, r, j + 1, i)
                == expected_len(bi, r, j, i) + (if i == j {
                1int
            } else {
                0int
            }) by {
                lemma_max_ge(bi, b, i);
            }
        }
    }
}

/// Round-robin distribution of a codeword stream over the Reed-Solomon
/// blocks of a symbol: data codewords first, skipping blocks whose data
/// is already full, then EC codewords over all blocks alike.
pub struct Blocks {
    block_info: Vec<BlockInfo>,
    blocks: Vec<Vec<u8>>,
    round: usize,
    max_data_round: usize,
    block: usize,
    data_blocks: bool,
    hist: Ghost<Seq<u8>>,
}

impl Blocks {
    /// The block structure this distributor was built over.
    pub closed spec fn bi_view(&self) -> Seq<BlockInfo> {
        self.block_info@
    }

    /// Every codeword pushed so far, in arrival order.
    pub closed spec fn hist_view(&self) -> Seq<u8> {
        self.hist@
    }

    /// The per-block codeword vectors distributed so far.
    pub closed spec fn blocks_view(&self) -> Seq<Seq<u8>> {
        Seq::new(self.blocks@.len() as nat, |i: int| self.blocks@[i]@)
    }

    /// The distributor is consistent: the cursor is in range, every
    /// block holds exactly the codewords the cursor position implies,
    /// and each held codeword is the pushed codeword whose stream
    /// position the interleaved layout assigns to it.
    pub closed spec fn wf(&self) -> bool {
        let bi = self.block_info@;
        let b = bi.len() as int;
        &&& 1 <= b <= 100
        &&& forall|i: int| 0 <= i < b ==> 1 <= (#[trigger] bi[i]).data_per
        &&& self.max_data_round == max_data(bi, b)
        &&& self.max_data_round <= 255
        &&& self.blocks@.len() == b
        &&& self.block < b
        &&& self.data_blocks == (self.round < self.max_data_round)
        &&& forall|i: int|
            0 <= i < b ==> (#[trigger] self.blocks@[i]@.len()) == expected_len(
                bi,
                self.round as int,
                self.block as int,
                i,
            )
        &&& self.hist@.len() == cursor_count(bi, self.round as int, self.block as int)
        &&& forall|i: int, n: int|
            0 <= i < b && 0 <= n < self.blocks@[i]@.len() ==> 0 <= stream_pos(bi, i, n)
                < self.hist@.len() && (#[trigger] self.blocks@[i]@[n]) == self.hist@[stream_pos(
                bi,
                i,
                n,
            )]
    }

    /// An empty distributor over the given block structure.
    pub fn new(block_info: Vec<BlockInfo>) -> (r: Blocks)
        requires
            1 <= block_info@.len() <= 100,
            forall|i: int|
                0 <= i < block_info@.len() ==> 1 <= (#[trigger] block_info@[i]).data_per,
        ensures
            r.wf(),
            r.bi_view() == block_info@,
            r.hist_view() == Seq::<u8>::empty(),
    {
        let ghost bi = block_info@;
        let mut blocks: Vec<Vec<u8>> = Vec::new();
        let mut max_data_round: usize = 0;
        let mut t: usize = 0;
        while t < block_info.len()
            invariant
                t <= block_info@.len(),
                block_info@.len() <= 100,
                blocks@.len() == t,
                forall|i: int| 0 <= i < t ==> (#[trigger] blocks@[i]@.len()) == 0,
                max_data_round == max_data(block_info@, t as int),
                max_data_round <= 255,
            decreases block_info@.len() - t,
        {
            let bi_t = block_info[t];
            if bi_t.data_per as usize > max_data_round {
                max_data_round = bi_t.data_per as usize;
            }
            blocks.push(Vec::new());
            t = t + 1;
        }
        let r = Blocks {
            block_info,
            blocks,
            round: 0,
            max_data_round,
            block: 0,
            data_blocks: true,
            hist: Ghost(Seq::empty()),
        };
        proof {
            lemma_max_ge(bi, bi.len() as int, 0);
            assert(r.hist@.len() == 0);
            assert(cursor_count(bi, 0, 0) == row_start(bi, 0, bi.len() as int) + count_gt(
                bi,
                0,
                0,
            ));
            lemma_row_start_mono(bi, 0, 0, bi.len() as int);
            assert(row_start(bi, 0, bi.len() as int) == 0) by {
                lemma_row_start_zero(bi, bi.len() as int);
            }
            assert forall|i: int| 0 <= i < bi.len() implies (#[trigger] r.blocks@[i]@.len())
                == expected_len(bi, 0, 0, i) by {
                lemma_max_ge(bi, bi.len() as int, i);
            }
        }
        r
    }

    /// Moves the cursor to the next block, wrapping to a new round at the
    /// last block and leaving the data phase once the deepest data round
    /// is done.
    fn inc_count(&mut self)
        requires
            old(self).block_info@.len() >= 1,
            old(self).block < old(self).block_info@.len(),
            old(self).round < 1000000,
        ensures
            final(self).block_info == old(self).block_info,
            final(self).blocks == old(self).blocks,
            final(self).hist == old(self).hist,
            final(self).max_data_round == old(self).max_data_round,
            old(self).block + 1 < old(self).block_info@.len() ==> final(self).block == old(self).block
                + 1 && final(self).round == old(self).round && final(self).data_blocks == old(self).data_blocks,
            old(self).block + 1 == old(self).block_info@.len() ==> final(self).block == 0
                && final(self).round == old(self).round + 1 && final(self).data_blocks == (old(self).data_blocks
                && final(self).round != final(self).max_data_round),
    {
        if self.block == self.block_info.len() - 1 {
            self.block = 0;
            self.round = self.round + 1;
            if self.round == self.max_data_round {
                self.data_blocks = false;
            }
        } else {
            self.block = self.block + 1;
        }
    }

    /// Hands the next codeword of the interleaved stream to the block it
    /// belongs to.
    pub fn push(&mut self, byte: u8)
        requires
            old(self).wf(),
            old(self).hist_view().len() < 100000,
        ensures
            final(self).wf(),
            final(self).bi_view() == old(self).bi_view(),
            final(self).hist_view() == old(self).hist_view().push(byte),
    {
        let ghost bi = self.block_info@;
        let ghost b = bi.len() as int;
        let ghost h0 = self.hist@;
        while self.data_blocks && self.round + 1 > self.block_info[self.block].data_per as usize
            invariant
                self.wf(),
                self.block_info@ == bi,
                b == bi.len() as int,
                self.blocks == old(self).blocks,
                self.hist@ == h0,
                h0.len() < 100000,
            decreases
                    max_data(bi, b) - self.round as int,
                    bi.len() - self.block as int,
        {
            let ghost r0 = self.round as int;
            let ghost j0 = self.block as int;
            proof {
                assert(dlen(bi, j0) == bi[j0].data_per as int);
                lemma_skip_neutral(bi, r0, j0);
            }
            self.inc_count();
            proof {
                assert(self.data_blocks == (self.round < self.max_data_round));
                assert(self.hist@.len() == cursor_count(bi, self.round as int, self.block as int));
                assert forall|i: int| 0 <= i < b implies (#[trigger] self.blocks@[i]@.len())
                    == expected_len(bi, self.round as int, self.block as int, i) by {
                    assert(self.blocks@[i]@.len() == expected_len(bi, r0, j0, i));
                    assert(expected_len(bi, self.round as int, self.block as int, i)
                        == expected_len(bi, r0, j0, i));
                }
                assert forall|i: int, n: int|
                    0 <= i < b && 0 <= n < self.blocks@[i]@.len() implies 0 <= #[trigger] stream_pos(
                    bi,
                    i,
                    n,
                ) < self.hist@.len() by {
                    let _v: u8 = self.blocks@[i]@[n];
                    assert(self.blocks@[i]@.len() == expected_len(bi, r0, j0, i));
                    assert(0 <= stream_pos(bi, i, n) < h0.len());
                }
            }
        }
        let ghost r1 = self.round as int;
        let ghost j1 = self.block as int;
        proof {
            lemma_push_step(bi, r1, j1);
            if !(r1 < max_data(bi, b)) {
                // EC round: bound the round from the codeword count
                lemma_row_start_nonneg(bi, max_data(bi, b), b);
                assert((r1 - max_data(bi, b)) * b >= (r1 - max_data(bi, b)) * 1)
                    by (nonlinear_arith)
                    requires
                        b >= 1,
                        r1 >= max_data(bi, b),
                ;
            }
        }
        let j = self.block;
        let ghost ln = self.blocks@[j1]@.len() as int;
        proof {
            assert(ln == expected_len(bi, r1, j1, j1));
            assert(stream_pos(bi, j1, ln) == cursor_count(bi, r1, j1));
            assert(stream_pos(bi, j1, ln) == h0.len() as int);
        }
        self.blocks[j].push(byte);
        self.hist = Ghost(h0.push(byte));
        self.inc_count();
        proof {
            let r2 = self.round as int;
            let j2 = self.block as int;
            assert(self.data_blocks == (self.round < self.max_data_round));
            assert(self.hist@.len() == cursor_count(bi, r2, j2));
            assert forall|i: int| 0 <= i < b implies (#[trigger] self.blocks@[i]@.len())
                == expected_len(bi, r2, j2, i) by {
                assert(old(self).blocks@[i]@.len() == expected_len(bi, r1, j1, i));
                assert(expected_len(bi, r2, j2, i) == expected_len(bi, r1, j1, i) + (if i == j1 {
                    1int
                } else {
                    0int
                }));
            }
            assert forall|i: int, n: int|
                0 <= i < b && 0 <= n < self.blocks@[i]@.len() implies 0 <= stream_pos(bi, i, n)
                < self.hist@.len() && (#[trigger] self.blocks@[i]@[n]) == self.hist@[stream_pos(
                bi,
                i,
                n,
            )] by {
                assert(old(self).blocks@[i]@.len() == expected_len(bi, r1, j1, i));
                if i == j1 && n == ln {
                    assert(stream_pos(bi, i, n) == h0.len() as int);
                    assert(self.blocks@[i]@[n] == byte);
                } else {
                    assert(self.blocks@[i]@[n] == old(self).blocks@[i]@[n]);
                    assert(0 <= stream_pos(bi, i, n) < h0.len());
                }
            }
            assert forall|i: int, n: int|
                0 <= i < b && 0 <= n < self.blocks@[i]@.len() implies 0 <= #[trigger] stream_pos(
                bi,
                i,
                n,
            ) < self.hist@.len() by {
                assert(old(self).blocks@[i]@.len() == expected_len(bi, r1, j1, i));
                if i == j1 && n == ln {
                    assert(stream_pos(bi, i, n) == h0.len() as int);
                } else {
                    let _v: u8 = old(self).blocks@[i]@[n];
                    assert(0 <= stream_pos(bi, i, n) < h0.len());
                }
            }
        }
    }

}

/// The value of a bit sequence read most-significant first.
pub open spec fn bits_to_byte(s: Seq<u8>) -> int
    decreases s.len(),
{
    if s.len() == 0 {
        0
    } else {
        2 * bits_to_byte(s.drop_last()) + s.last()
    }
}

/// Two to the `k`-th power.
pub open spec fn pow2s(k: nat) -> int
    decreases k,
{
    if k == 0 {
        1
    } else {
        2 * pow2s((k - 1) as nat)
    }
}

/// The bytes packed out of a bit sequence, most significant bit first;
/// bits beyond the last full byte are left over.
pub open spec fn bytes_of_bits(s: Seq<u8>) -> Seq<u8> {
    Seq::new((s.len() / 8) as nat, |i: int| bits_to_byte(s.subrange(8 * i, 8 * i + 8)) as u8)
}

/// The bits of the last, still unfinished byte.
spec fn partial_bits(s: Seq<u8>) -> Seq<u8> {
    s.subrange(s.len() - s.len() % 8, s.len() as int)
}

proof fn lemma_pow2_mono(a: nat, b: nat)
    requires
        a <= b,
    ensures
        1 <= pow2s(a) <= pow2s(b),
    decreases b,
{
    if a < b {
        lemma_pow2_mono(a, (b - 1) as nat);
    } else if b > 0 {
        lemma_pow2_mono((a - 1) as nat, (b - 1) as nat);
    }
}

proof fn lemma_bits_bound(s: Seq<u8>)
    requires
        forall|i: int| 0 <= i < s.len() ==> s[i] <= 1,
    ensures
        0 <= bits_to_byte(s) < pow2s(s.len()),
    decreases s.len(),
{
    if s.len() > 0 {
        lemma_bits_bound(s.drop_last());
    }
}

/// Appending a bit that does not finish a byte leaves the packed bytes
/// unchanged.
proof fn lemma_bytes_stable(s: Seq<u8>, b: u8)
    requires
        s.len() % 8 < 7,
    ensures
        bytes_of_bits(s.push(b)) == bytes_of_bits(s),
{
    let s2 = s.push(b);
    assert(s2.len() / 8 == s.len() / 8);
    assert forall|i: int| 0 <= i < s.len() / 8 implies bytes_of_bits(s2)[i] == bytes_of_bits(
        s,
    )[i] by {
        assert(s2.subrange(8 * i, 8 * i + 8) =~= s.subrange(8 * i, 8 * i + 8));
    }
    assert(bytes_of_bits(s2) =~= bytes_of_bits(s));
}

/// Appending the eighth bit of a byte appends that byte to the packed
/// bytes.
proof fn lemma_bytes_snoc(s: Seq<u8>, b: u8)
    requires
        s.len() % 8 == 7,
    ensures
        bytes_of_bits(s.push(b)) == bytes_of_bits(s).push(
            bits_to_byte(partial_bits(s).push(b)) as u8,
        ),
{
    let s2 = s.push(b);
    let q = s.len() as int / 8;
    assert(s2.len() / 8 == q + 1);
    assert forall|i: int| 0 <= i < q implies bytes_of_bits(s2)[i] == bytes_of_bits(s)[i] by {
        assert(s2.subrange(8 * i, 8 * i + 8) =~= s.subrange(8 * i, 8 * i + 8));
    }
    assert(s2.subrange(8 * q, 8 * q + 8) =~= partial_bits(s).push(b));
    assert(bytes_of_bits(s2) =~= bytes_of_bits(s).push(
        bits_to_byte(partial_bits(s).push(b)) as u8,
    ));
}

/// Packs the bits of the codeword stream into bytes, most significant
/// first, and hands each full byte on to the round-robin block
/// distributor.
pub struct Codewords {
    current_byte: u8,
    bit_count: u8,
    blocks: Blocks,
    bits: Ghost<Seq<u8>>,
}

impl Codewords {
    /// The block structure this accumulator distributes over.
    pub closed spec fn bi_view(&self) -> Seq<BlockInfo> {
        self.blocks.bi_view()
    }

    /// Every bit pushed so far, in arrival order.
    pub closed spec fn bits_view(&self) -> Seq<u8> {
        self.bits@
    }

    /// The per-block codeword vectors distributed so far.
    pub closed spec fn blocks_seq(&self) -> Seq<Seq<u8>> {
        self.blocks.blocks_view()
    }

    /// The accumulator is consistent: the distributor below it is, the
    /// unfinished byte mirrors the bits after the last full byte, and
    /// the distributor has been handed exactly the full bytes.
    pub closed spec fn wf(&self) -> bool {
        &&& self.blocks.wf()
        &&& forall|i: int| 0 <= i < self.bits@.len() ==> self.bits@[i] <= 1
        &&& self.bit_count as int == self.bits@.len() % 8
        &&& self.current_byte as int == bits_to_byte(partial_bits(self.bits@))
        &&& self.blocks.hist_view() == bytes_of_bits(self.bits@)
    }

    /// An empty accumulator over the given block structure.
    pub fn new(block_info: Vec<BlockInfo>) -> (r: Codewords)
        requires
            1 <= block_info@.len() <= 100,
            forall|i: int|
                0 <= i < block_info@.len() ==> 1 <= (#[trigger] block_info@[i]).data_per,
        ensures
            r.wf(),
            r.bi_view() == block_info@,
            r.bits_view() == Seq::<u8>::empty(),
    {
        let blocks = Blocks::new(block_info);
        let r = Codewords { current_byte: 0, bit_count: 0, blocks, bits: Ghost(Seq::empty()) };
        proof {
            assert(partial_bits(r.bits@) =~= Seq::<u8>::empty());
            assert(bytes_of_bits(r.bits@) =~= Seq::<u8>::empty());
        }
        r
    }

    /// Takes the next bit of the codeword stream.
    pub fn add_bit(&mut self, bit: u8)
        requires
            old(self).wf(),
            bit <= 1,
            old(self).bits_view().len() < 500000,
        ensures
            final(self).wf(),
            final(self).bi_view() == old(self).bi_view(),
            final(self).bits_view() == old(self).bits_view().push(bit),
    {
        let ghost bits0 = self.bits@;
        proof {
            lemma_bits_bound(partial_bits(bits0));
            assert(partial_bits(bits0).len() == bits0.len() % 8);
            lemma_pow2_mono((bits0.len() % 8) as nat, 7);
            reveal_with_fuel(pow2s, 9);
            assert(pow2s(7) == 128);
        }
        self.current_byte = self.current_byte * 2;
        self.current_byte = self.current_byte + bit;
        self.bit_count = self.bit_count + 1;
        self.bits = Ghost(bits0.push(bit));
        proof {
            assert(partial_bits(bits0).push(bit).drop_last() =~= partial_bits(bits0));
            assert(self.current_byte as int == bits_to_byte(partial_bits(bits0).push(bit)));
        }
        if self.bit_count == 8 {
            proof {
                lemma_bytes_snoc(bits0, bit);
                assert(self.blocks.hist_view().len() == bits0.len() / 8);
            }
            let full = self.current_byte;
            self.blocks.push(full);
            self.current_byte = 0;
            self.bit_count = 0;
            proof {
                assert(self.bits@.len() % 8 == 0);
                assert(partial_bits(self.bits@) =~= Seq::<u8>::empty());
            }
        } else {
            proof {
                lemma_bytes_stable(bits0, bit);
                assert(partial_bits(self.bits@) =~= partial_bits(bits0).push(bit));
            }
        }
    }

    /// Gives up the distributed blocks.
    pub fn blocks(self) -> (r: Vec<Vec<u8>>)
        requires
            self.wf(),
        ensures
            r@.len() == self.bi_view().len(),
            forall|i: int| 0 <= i < r@.len() ==> (#[trigger] r@[i]@) == self.blocks_seq()[i],
    {
        self.blocks.blocks
    }
}

proof fn lemma_row_start_zero(bi: Seq<BlockInfo>, j: int)
    requires
        0 <= j,
    ensures
        row_start(bi, 0, j) == 0,
        count_gt(bi, 0, j) >= 0,
    decreases j,
{
    if j > 0 {
        lemma_row_start_zero(bi, j - 1);
    }
}


/// The column pair processed after the pair at `x`: two columns further
/// left, skipping the vertical timing column at 6.
pub open spec fn next_col(x: int) -> int {
    if x - 2 == 6 {
        5
    } else {
        x - 2
    }
}

/// Positions of the column pair at `x` in visiting order: for each row of
/// the pair in row order, first the right column, then the left.
pub open spec fn col_positions(x: int, side: int) -> Seq<(u32, u32)> {
    Seq::new(
        (2 * side) as nat,
        |k: int|
            (
                if k % 2 == 0 {
                    x as u32
                } else {
                    (x - 1) as u32
                },
                y_seq_spec(x, side)[k / 2],
            ),
    )
}

/// Positions of the zig-zag walk from the column pair at `x` leftward to
/// the pair at 1.
pub open spec fn zigzag_positions(x: int, side: int) -> Seq<(u32, u32)>
    decreases x,
{
    if x <= 1 {
        col_positions(x, side)
    } else {
        col_positions(x, side) + zigzag_positions(next_col(x), side)
    }
}

/// The data bits that the walk collects over the given positions: every
/// position that carries a data module contributes its masked bit.
pub open spec fn bits_of_positions(
    data: QRData,
    start: int,
    step: int,
    id: int,
    ps: Seq<(u32, u32)>,
) -> Seq<u8>
    decreases ps.len(),
{
    if ps.len() == 0 {
        Seq::empty()
    } else {
        bits_of_positions(data, start, step, id, ps.drop_last()) + (if is_data_spec(
            data.version as int,
            data.side as int,
            start,
            step,
            ps.last().0 as int,
            ps.last().1 as int,
        ) {
            seq![masked_bit(data, id, ps.last().0 as int, ps.last().1 as int)]
        } else {
            Seq::<u8>::empty()
        })
    }
}

/// The interleaved codeword stream of a masked grid: the data bits of
/// the zig-zag walk, packed into bytes most significant bit first.
pub open spec fn codeword_stream(data: QRData, id: int) -> Seq<u8> {
    let (start, step) = alignment_location_spec(data.version);
    bytes_of_bits(
        bits_of_positions(
            data,
            start as int,
            step as int,
            id,
            zigzag_positions(data.side as int - 1, data.side as int),
        ),
    )
}

proof fn lemma_bits_len_le(data: QRData, start: int, step: int, id: int, ps: Seq<(u32, u32)>)
    ensures
        bits_of_positions(data, start, step, id, ps).len() <= ps.len(),
    decreases ps.len(),
{
    if ps.len() > 0 {
        lemma_bits_len_le(data, start, step, id, ps.drop_last());
    }
}

proof fn lemma_zigzag_len(x: int, side: int)
    requires
        0 <= x,
        1 <= side,
    ensures
        zigzag_positions(x, side).len() <= 2 * side * (x + 1),
    decreases x,
{
    if x <= 1 {
        assert(2 * side <= 2 * side * (x + 1)) by (nonlinear_arith)
            requires
                1 <= side && 0 <= x,
        ;
    } else {
        lemma_zigzag_len(next_col(x), side);
        assert(2 * side + 2 * side * (next_col(x) + 1) <= 2 * side * (x + 1)) by (nonlinear_arith)
            requires
                1 <= side && 2 <= x && 0 <= next_col(x) <= x - 2,
        ;
    }
}

/// With the codeword count at the cursor equal to the full symbol
/// capacity, every block holds exactly its total codeword count.
proof fn lemma_count_full(bi: Seq<BlockInfo>, e: int, r: int, j: int)
    requires
        1 <= bi.len(),
        0 <= j < bi.len(),
        0 <= r,
        forall|i: int| 0 <= i < bi.len() ==> 1 <= (#[trigger] bi[i]).data_per,
        forall|i: int|
            0 <= i < bi.len() ==> (#[trigger] bi[i]).total_per as int == dlen(bi, i) + e,
        e >= 2,
        cursor_count(bi, r, j) == crate::block_info::sum_total(bi),
    ensures
        forall|i: int|
            0 <= i < bi.len() ==> #[trigger] expected_len(bi, r, j, i) == bi[i].total_per as int,
{
    let b = bi.len() as int;
    let maxd = max_data(bi, b);
    assert forall|i: int| 0 <= i < b implies dlen(bi, i) <= maxd by {
        lemma_max_ge(bi, b, i);
    }
    lemma_total_decomp(bi, maxd, e, b);
    lemma_row_start_nonneg(bi, maxd, b);
    if r < maxd {
        lemma_count_mono(bi, r, j, b);
        lemma_row_start_succ(bi, r, b);
        lemma_row_start_mono(bi, r + 1, maxd, b);
        assert(e * b >= 2) by (nonlinear_arith)
            requires
                e >= 2 && b >= 1,
        ;
        assert(false);
    } else {
        assert((r - maxd) * b + j == e * b);
        assert(r - maxd == e && j == 0) by (nonlinear_arith)
            requires
                (r - maxd) * b + j == e * b,
                0 <= j < b,
                b >= 1,
                r - maxd >= 0,
                e >= 0,
        ;
    }
}

/// With every block holding exactly its total codeword count, the
/// codeword count at the cursor equals the full symbol capacity.
proof fn lemma_full_count(bi: Seq<BlockInfo>, e: int, r: int, j: int)
    requires
        1 <= bi.len(),
        0 <= j < bi.len(),
        0 <= r,
        forall|i: int| 0 <= i < bi.len() ==> 1 <= (#[trigger] bi[i]).data_per,
        forall|i: int|
            0 <= i < bi.len() ==> (#[trigger] bi[i]).total_per as int == dlen(bi, i) + e,
        e >= 2,
        forall|i: int|
            0 <= i < bi.len() ==> #[trigger] expected_len(bi, r, j, i) == bi[i].total_per as int,
    ensures
        cursor_count(bi, r, j) == crate::block_info::sum_total(bi),
{
    let b = bi.len() as int;
    let maxd = max_data(bi, b);
    assert forall|i: int| 0 <= i < b implies dlen(bi, i) <= maxd by {
        lemma_max_ge(bi, b, i);
    }
    lemma_total_decomp(bi, maxd, e, b);
    if r < maxd {
        assert(expected_len(bi, r, j, 0) == bi[0].total_per as int);
        assert(min_i(dlen(bi, 0), r) <= dlen(bi, 0));
        assert(false);
    } else {
        assert(expected_len(bi, r, j, b - 1) == bi[b - 1].total_per as int);
        assert(r - maxd == e);
        if j > 0 {
            assert(expected_len(bi, r, j, 0) == bi[0].total_per as int);
            assert(false);
        }
        assert((r - maxd) * b == e * b);
    }
}

/// The order in which the zig-zag walk visits the rows of the column pair
/// at `x`: bottom to top where the pair's distance from the right edge is
/// a multiple of four column pairs, else top to bottom.
pub open spec fn y_seq_spec(x: int, side: int) -> Seq<u32> {
    let xx = if x < 6 {
        x + 1
    } else {
        x
    };
    if (side - 1 - xx) % 4 == 0 {
        Seq::new(side as nat, |i: int| (side - 1 - i) as u32)
    } else {
        Seq::new(side as nat, |i: int| i as u32)
    }
}

/// The rows of the column pair at `x`, in visiting order.
pub fn y_range(x: u32, side: u32) -> (r: Vec<u32>)
    requires
        x < side,
        21 <= side <= 177,
    ensures
        r@ == y_seq_spec(x as int, side as int),
        r@.len() == side,
{
    let xx = if x < 6 {
        x + 1
    } else {
        x
    };
    let mut r: Vec<u32> = Vec::new();
    let ghost target = y_seq_spec(x as int, side as int);
    if (side - 1 - xx) % 4 == 0 {
        let mut y = side;
        while y > 0
            invariant
                y <= side,
                r@.len() == side - y,
                forall|k: int| 0 <= k < r@.len() ==> r@[k] == side - 1 - k,
            decreases y,
        {
            y = y - 1;
            r.push(y);
        }
    } else {
        let mut y: u32 = 0;
        while y < side
            invariant
                y <= side,
                r@.len() == y,
                forall|k: int| 0 <= k < r@.len() ==> r@[k] == k,
            decreases side - y,
        {
            r.push(y);
            y = y + 1;
        }
    }
    proof {
        assert(r@ =~= target);
    }
    r
}

/// Reads the interleaved codeword stream out of a masked module grid and
/// de-interleaves it into the symbol's Reed-Solomon blocks. The walk
/// succeeds exactly when the grid yields the codeword capacity of the
/// (version, level); each returned block then holds its total codeword
/// count, and codeword `n` of block `i` is the stream byte whose position
/// the interleaved layout assigns to it.
#[verifier::loop_isolation(false)]
#[verifier::rlimit(100)]
pub fn blocks(data: &QRData, level: &ECLevel, mask: &QRMask) -> (r: Result<Vec<Vec<u8>>, QRError>)
    requires
        data.wf(),
        mask.wf(),
    ensures
        ({
            let bi = block_info_seq(data.version, *level);
            let stream = codeword_stream(*data, mask.id as int);
            &&& (r is Ok <==> stream.len() == crate::block_info::sum_total(bi))
            &&& r is Ok ==> r->Ok_0@.len() == bi.len()
            &&& r is Ok ==> forall|i: int|
                0 <= i < bi.len() ==> (#[trigger] r->Ok_0@[i]@).len() == bi[i].total_per as int
            &&& r is Ok ==> forall|i: int, n: int|
                0 <= i < bi.len() && 0 <= n < bi[i].total_per as int ==> (
                #[trigger] r->Ok_0@[i]@[n]) == stream[stream_pos(bi, i, n)]
            &&& r is Ok ==> Seq::new(bi.len(), |i: int| r->Ok_0@[i]@) == deinterleave_spec(
                bi,
                bi[0].total_per - bi[0].data_per,
                stream,
            )
        }),
{
    let ghost biq = block_info_seq(data.version, *level);
    let bi = match block_info(data.version, level) {
        Ok(b) => b,
        Err(e) => { return Err(e) },
    };
    let loc = match alignment_location(data.version) {
        Ok(l) => l,
        Err(e) => { return Err(e) },
    };
    let ghost start = loc.start as int;
    let ghost step = loc.step as int;
    let ghost id = mask.id as int;
    let ghost side = data.side as int;
    let ghost full = zigzag_positions(side - 1, side);
    proof {
        lemma_zigzag_len(side - 1, side);
    }
    let mut codewords = Codewords::new(bi);
    let mut x = data.side - 1;
    let ghost mut done: Seq<(u32, u32)> = Seq::empty();
    proof {
        assert(bits_of_positions(*data, start, step, id, done) =~= Seq::<u8>::empty());
        assert(full == done + zigzag_positions(x as int, side));
    }
    let mut running = true;
    while running
        invariant
            codewords.wf(),
            codewords.bi_view() == biq,
            running ==> codewords.bits_view() == bits_of_positions(*data, start, step, id, done),
            running ==> (x % 2 == 0 && 8 <= x < data.side) || (x % 2 == 1 && 1 <= x <= 5),
            running ==> full == done + zigzag_positions(x as int, side),
            !running ==> codewords.bits_view() == bits_of_positions(*data, start, step, id, full),
        decreases (if running {
            x as int + 1
        } else {
            0int
        }),
    {
        let ys = y_range(x, data.side);
        let ghost col = col_positions(x as int, side);
        let mut idx: usize = 0;
        proof {
            assert(done + col.take(0) =~= done);
        }
        while idx < data.side as usize
            invariant
                idx <= side,
                codewords.wf(),
                codewords.bi_view() == biq,
                codewords.bits_view() == bits_of_positions(
                    *data,
                    start,
                    step,
                    id,
                    done + col.take(2 * idx as int),
                ),
            decreases side - idx,
        {
            let y = ys[idx];
            let ghost before = done + col.take(2 * idx as int);
            proof {
                lemma_bits_len_le(*data, start, step, id, before);
                assert(before.len() <= full.len());
                assert(full.len() <= 2 * side * side);
                assert(2 * side * side <= 2 * 177 * 177) by (nonlinear_arith)
                    requires
                        0 <= side <= 177,
                ;
                assert((done + col.take(2 * idx as int + 1)) =~= before.push(
                    (x, y_seq_spec(x as int, side)[idx as int]),
                ));
                assert((done + col.take(2 * idx as int + 2)) =~= before.push(
                    (x, y_seq_spec(x as int, side)[idx as int]),
                ).push(((x - 1) as u32, y_seq_spec(x as int, side)[idx as int])));
            }
            if is_data(data, &loc, x, y) {
                let b0 = mask.apply(data, x, y);
                codewords.add_bit(b0);
            }
            proof {
                let p0 = before.push((x, y_seq_spec(x as int, side)[idx as int]));
                assert(p0.drop_last() =~= before);
                assert(codewords.bits_view() == bits_of_positions(*data, start, step, id, p0));
            }
            if is_data(data, &loc, x - 1, y) {
                let b1 = mask.apply(data, x - 1, y);
                codewords.add_bit(b1);
            }
            proof {
                let p0 = before.push((x, y_seq_spec(x as int, side)[idx as int]));
                let p1 = p0.push(((x - 1) as u32, y_seq_spec(x as int, side)[idx as int]));
                assert(p1.drop_last() =~= p0);
                assert(codewords.bits_view() == bits_of_positions(*data, start, step, id, p1));
            }
            idx = idx + 1;
        }
        proof {
            assert(col.take(2 * side) =~= col);
            done = done + col;
        }
        if x == 1 {
            proof {
                assert(zigzag_positions(1, side) == col);
                assert(full =~= done);
            }
            running = false;
        } else {
            proof {
                assert(zigzag_positions(x as int, side) == col + zigzag_positions(
                    next_col(x as int),
                    side,
                ));
                assert(full =~= done + zigzag_positions(next_col(x as int), side));
            }
            x = x - 2;
            if x == 6 {
                x = 5;
            }
        }
    }
    let ghost cw = codewords;
    let blocks = codewords.blocks();
    let bi = match block_info(data.version, level) {
        Ok(b) => b,
        Err(e) => { return Err(e) },
    };
    let ghost stream = codeword_stream(*data, mask.id as int);
    let ghost e = biq[0].total_per as int - biq[0].data_per as int;
    proof {
        assert(stream == cw.blocks.hist_view());
        assert(forall|i: int|
            0 <= i < biq.len() ==> (#[trigger] biq[i]).total_per as int == dlen(biq, i) + e);
    }
    if blocks.len() != bi.len() {
        proof {
            assert(false);
        }
        return Err(QRError { msg: String::from_str("block count mismatch") });
    }
    let mut i: usize = 0;
    while i < blocks.len()
        invariant
            i <= blocks@.len(),
            forall|k: int|
                0 <= k < i as int ==> (#[trigger] blocks@[k]@).len() == biq[k].total_per as int,
        decreases blocks@.len() - i,
    {
        if bi[i].total_per as usize != blocks[i].len() {
            proof {
                let r0 = cw.blocks.round as int;
                let j0 = cw.blocks.block as int;
                if stream.len() == crate::block_info::sum_total(biq) {
                    lemma_count_full(biq, e, r0, j0);
                    assert(expected_len(biq, r0, j0, i as int) == biq[i as int].total_per as int);
                    assert(false);
                }
            }
            return Err(QRError { msg: String::from_str("codeword count mismatch") });
        }
        i = i + 1;
    }
    proof {
        let r0 = cw.blocks.round as int;
        let j0 = cw.blocks.block as int;
        assert forall|k: int| 0 <= k < biq.len() implies #[trigger] expected_len(biq, r0, j0, k)
            == biq[k].total_per as int by {
            assert(blocks@[k]@.len() == biq[k].total_per as int);
        }
        lemma_full_count(biq, e, r0, j0);
        assert forall|ii: int, n: int|
            0 <= ii < biq.len() && 0 <= n < biq[ii].total_per as int implies (
        #[trigger] blocks@[ii]@[n]) == stream[stream_pos(biq, ii, n)] by {
            let _v: u8 = cw.blocks.blocks@[ii]@[n];
            assert(blocks@[ii]@ == cw.blocks.blocks_view()[ii]);
        }
        let packed = Seq::new(biq.len(), |ii: int| blocks@[ii]@);
        let dspec = deinterleave_spec(biq, e, stream);
        assert forall|ii: int| 0 <= ii < biq.len() implies packed[ii] == dspec[ii] by {
            assert(blocks@[ii]@.len() == biq[ii].total_per as int);
            assert(packed[ii] =~= dspec[ii]);
        }
        assert(packed =~= dspec);
    }
    Ok(blocks)
}

/// The alignment centers a (start, step) grid generates within a symbol:
/// the center at 6, then every `step` modules from `start` up to the
/// last center at `side - 7`.
pub open spec fn gen_centers(start: int, step: int, side: int) -> Seq<int> {
    seq![6int] + centers_from(start, step, side)
}

/// The arithmetic run of centers from `c` on, up to `side - 7`.
pub open spec fn centers_from(c: int, step: int, side: int) -> Seq<int>
    decreases side - c,
    when step >= 1 && c >= 0
{
    if c > side - 7 {
        Seq::empty()
    } else if c + step > side - 7 {
        seq![c]
    } else {
        seq![c] + centers_from(c + step, step, side)
    }
}

/// The alignment pattern center coordinates of a version, from the table
/// of ISO/IEC 18004 Annex E.
pub open spec fn standard_centers(version: u32) -> Seq<int> {
    match version {
        1 => Seq::empty(),
        2 => seq![6int, 18int],
        3 => seq![6int, 22int],
        4 => seq![6int, 26int],
        5 => seq![6int, 30int],
        6 => seq![6int, 34int],
        7 => seq![6int, 22int, 38int],
        8 => seq![6int, 24int, 42int],
        9 => seq![6int, 26int, 46int],
        10 => seq![6int, 28int, 50int],
        11 => seq![6int, 30int, 54int],
        12 => seq![6int, 32int, 58int],
        13 => seq![6int, 34int, 62int],
        14 => seq![6int, 26int, 46int, 66int],
        15 => seq![6int, 26int, 48int, 70int],
        16 => seq![6int, 26int, 50int, 74int],
        17 => seq![6int, 30int, 54int, 78int],
        18 => seq![6int, 30int, 56int, 82int],
        19 => seq![6int, 30int, 58int, 86int],
        20 => seq![6int, 34int, 62int, 90int],
        21 => seq![6int, 28int, 50int, 72int, 94int],
        22 => seq![6int, 26int, 50int, 74int, 98int],
        23 => seq![6int, 30int, 54int, 78int, 102int],
        24 => seq![6int, 28int, 54int, 80int, 106int],
        25 => seq![6int, 32int, 58int, 84int, 110int],
        26 => seq![6int, 30int, 58int, 86int, 114int],
        27 => seq![6int, 34int, 62int, 90int, 118int],
        28 => seq![6int, 26int, 50int, 74int, 98int, 122int],
        29 => seq![6int, 30int, 54int, 78int, 102int, 126int],
        30 => seq![6int, 26int, 52int, 78int, 104int, 130int],
        31 => seq![6int, 30int, 56int, 82int, 108int, 134int],
        32 => seq![6int, 34int, 60int, 86int, 112int, 138int],
        33 => seq![6int, 30int, 58int, 86int, 114int, 142int],
        34 => seq![6int, 34int, 62int, 90int, 118int, 146int],
        35 => seq![6int, 30int, 54int, 78int, 102int, 126int, 150int],
        36 => seq![6int, 24int, 50int, 76int, 102int, 128int, 154int],
        37 => seq![6int, 28int, 54int, 80int, 106int, 132int, 158int],
        38 => seq![6int, 32int, 58int, 84int, 110int, 136int, 162int],
        39 => seq![6int, 26int, 54int, 82int, 110int, 138int, 166int],
        40 => seq![6int, 30int, 58int, 86int, 114int, 142int, 170int],
        _ => Seq::empty(),
    }
}

/// For every version from 2 up, the (start, step) table generates
/// exactly the standard alignment pattern centers of the symbol.
#[verifier::rlimit(60)]
pub proof fn lemma_alignment_centers(version: u32)
    requires
        2 <= version <= 40,
    ensures
        ({
            let (start, step) = alignment_location_spec(version);
            gen_centers(start as int, step as int, qr_side(version as int)) == standard_centers(
                version,
            )
        }),
{
    reveal_with_fuel(centers_from, 10);
    if version == 2 {
        assert(gen_centers(18, 1000, 25) =~= standard_centers(2));
    }
    if version == 3 {
        assert(gen_centers(22, 1000, 29) =~= standard_centers(3));
    }
    if version == 4 {
        assert(gen_centers(26, 1000, 33) =~= standard_centers(4));
    }
    if version == 5 {
        assert(gen_centers(30, 1000, 37) =~= standard_centers(5));
    }
    if version == 6 {
        assert(gen_centers(34, 1000, 41) =~= standard_centers(6));
    }
    if version == 7 {
        assert(gen_centers(22, 16, 45) =~= standard_centers(7));
    }
    if version == 8 {
        assert(gen_centers(24, 18, 49) =~= standard_centers(8));
    }
    if version == 9 {
        assert(gen_centers(26, 20, 53) =~= standard_centers(9));
    }
    if version == 10 {
        assert(gen_centers(28, 22, 57) =~= standard_centers(10));
    }
    if version == 11 {
        assert(gen_centers(30, 24, 61) =~= standard_centers(11));
    }
    if version == 12 {
        assert(gen_centers(32, 26, 65) =~= standard_centers(12));
    }
    if version == 13 {
        assert(gen_centers(34, 28, 69) =~= standard_centers(13));
    }
    if version == 14 {
        assert(gen_centers(26, 20, 73) =~= standard_centers(14));
    }
    if version == 15 {
        assert(gen_centers(26, 22, 77) =~= standard_centers(15));
    }
    if version == 16 {
        assert(gen_centers(26, 24, 81) =~= standard_centers(16));
    }
    if version == 17 {
        assert(gen_centers(30, 24, 85) =~= standard_centers(17));
    }
    if version == 18 {
        assert(gen_centers(30, 26, 89) =~= standard_centers(18));
    }
    if version == 19 {
        assert(gen_centers(30, 28, 93) =~= standard_centers(19));
    }
    if version == 20 {
        assert(gen_centers(34, 28, 97) =~= standard_centers(20));
    }
    if version == 21 {
        assert(gen_centers(28, 22, 101) =~= standard_centers(21));
    }
    if version == 22 {
        assert(gen_centers(26, 24, 105) =~= standard_centers(22));
    }
    if version == 23 {
        assert(gen_centers(30, 24, 109) =~= standard_centers(23));
    }
    if version == 24 {
        assert(gen_centers(28, 26, 113) =~= standard_centers(24));
    }
    if version == 25 {
        assert(gen_centers(32, 26, 117) =~= standard_centers(25));
    }
    if version == 26 {
        assert(gen_centers(30, 28, 121) =~= standard_centers(26));
    }
    if version == 27 {
        assert(gen_centers(34, 28, 125) =~= standard_centers(27));
    }
    if version == 28 {
        assert(gen_centers(26, 24, 129) =~= standard_centers(28));
    }
    if version == 29 {
        assert(gen_centers(30, 24, 133) =~= standard_centers(29));
    }
    if version == 30 {
        assert(gen_centers(26, 26, 137) =~= standard_centers(30));
    }
    if version == 31 {
        assert(gen_centers(30, 26, 141) =~= standard_centers(31));
    }
    if version == 32 {
        assert(gen_centers(34, 26, 145) =~= standard_centers(32));
    }
    if version == 33 {
        assert(gen_centers(30, 28, 149) =~= standard_centers(33));
    }
    if version == 34 {
        assert(gen_centers(34, 28, 153) =~= standard_centers(34));
    }
    if version == 35 {
        assert(gen_centers(30, 24, 157) =~= standard_centers(35));
    }
    if version == 36 {
        assert(gen_centers(24, 26, 161) =~= standard_centers(36));
    }
    if version == 37 {
        assert(gen_centers(28, 26, 165) =~= standard_centers(37));
    }
    if version == 38 {
        assert(gen_centers(32, 26, 169) =~= standard_centers(38));
    }
    if version == 39 {
        assert(gen_centers(26, 28, 173) =~= standard_centers(39));
    }
    if version == 40 {
        assert(gen_centers(30, 28, 177) =~= standard_centers(40));
    }
}

/// One data round of re-interleaving, from block `j` on: every block
/// that still has data in round `r` contributes its codeword `r`.
pub open spec fn round_data(bi: Seq<BlockInfo>, blocks: Seq<Seq<u8>>, r: int, j: int) -> Seq<u8>
    decreases bi.len() - j,
{
    if j < 0 || j >= bi.len() {
        Seq::empty()
    } else {
        (if dlen(bi, j) > r {
            seq![blocks[j][r]]
        } else {
            Seq::<u8>::empty()
        }) + round_data(bi, blocks, r, j + 1)
    }
}

/// The data rounds of re-interleaving, from round `r` up to the deepest
/// data round.
pub open spec fn data_rounds(bi: Seq<BlockInfo>, blocks: Seq<Seq<u8>>, r: int) -> Seq<u8>
    decreases max_data(bi, bi.len() as int) - r,
{
    if r < 0 || r >= max_data(bi, bi.len() as int) {
        Seq::empty()
    } else {
        round_data(bi, blocks, r, 0) + data_rounds(bi, blocks, r + 1)
    }
}

/// One EC round of re-interleaving, from block `j` on: every block
/// contributes EC codeword `m`.
pub open spec fn round_ec(bi: Seq<BlockInfo>, blocks: Seq<Seq<u8>>, m: int, j: int) -> Seq<u8>
    decreases bi.len() - j,
{
    if j < 0 || j >= bi.len() {
        Seq::empty()
    } else {
        seq![blocks[j][dlen(bi, j) + m]] + round_ec(bi, blocks, m, j + 1)
    }
}

/// The EC rounds of re-interleaving, from round `m` up to `e` rounds.
pub open spec fn ec_rounds(bi: Seq<BlockInfo>, e: int, blocks: Seq<Seq<u8>>, m: int) -> Seq<u8>
    decreases e - m,
{
    if m < 0 || m >= e {
        Seq::empty()
    } else {
        round_ec(bi, blocks, m, 0) + ec_rounds(bi, e, blocks, m + 1)
    }
}

/// Re-interleaving a family of blocks whose EC parts are `e` codewords
/// long: the data rounds, then the EC rounds.
pub open spec fn interleave_spec(bi: Seq<BlockInfo>, e: int, blocks: Seq<Seq<u8>>) -> Seq<u8> {
    data_rounds(bi, blocks, 0) + ec_rounds(bi, e, blocks, 0)
}

/// De-interleaving a codeword stream: block `i` holds `dlen(i) + e`
/// codewords, its `n`-th taken from the stream position the interleaved
/// layout assigns to it.
pub open spec fn deinterleave_spec(bi: Seq<BlockInfo>, e: int, x: Seq<u8>) -> Seq<Seq<u8>> {
    Seq::new(
        bi.len(),
        |i: int| Seq::new((dlen(bi, i) + e) as nat, |n: int| x[stream_pos(bi, i, n)]),
    )
}

proof fn lemma_subrange_concat(x: Seq<u8>, a: int, b2: int, c: int)
    requires
        0 <= a <= b2 <= c <= x.len(),
    ensures
        x.subrange(a, b2) + x.subrange(b2, c) == x.subrange(a, c),
{
    assert(x.subrange(a, b2) + x.subrange(b2, c) =~= x.subrange(a, c));
}

proof fn lemma_round_data_subrange(bi: Seq<BlockInfo>, e: int, x: Seq<u8>, r: int, j: int)
    requires
        1 <= bi.len(),
        0 <= e,
        forall|i: int| 0 <= i < bi.len() ==> 1 <= (#[trigger] bi[i]).data_per,
        x.len() == row_start(bi, max_data(bi, bi.len() as int), bi.len() as int) + e * bi.len(),
        0 <= r < max_data(bi, bi.len() as int),
        0 <= j <= bi.len(),
    ensures
        round_data(bi, deinterleave_spec(bi, e, x), r, j) == x.subrange(
            row_start(bi, r, bi.len() as int) + count_gt(bi, r, j),
            row_start(bi, r, bi.len() as int) + count_gt(bi, r, bi.len() as int),
        ),
    decreases bi.len() - j,
{
    let b = bi.len() as int;
    let maxd = max_data(bi, b);
    let rs = row_start(bi, r, b);
    let blocks = deinterleave_spec(bi, e, x);
    lemma_count_mono(bi, r, j, b);
    lemma_row_start_succ(bi, r, b);
    lemma_row_start_mono(bi, r + 1, maxd, b);
    lemma_row_start_nonneg(bi, r, b);
    assert(e * b >= 0) by (nonlinear_arith)
        requires
            e >= 0 && b >= 0,
    ;
    if j == b {
        assert(round_data(bi, blocks, r, j) =~= x.subrange(
            rs + count_gt(bi, r, b),
            rs + count_gt(bi, r, b),
        ));
    } else {
        lemma_round_data_subrange(bi, e, x, r, j + 1);
        lemma_count_mono(bi, r, j + 1, b);
        lemma_count_mono(bi, r, j, j + 1);
        let a1 = rs + count_gt(bi, r, j);
        let a2 = rs + count_gt(bi, r, j + 1);
        let a3 = rs + count_gt(bi, r, b);
        if dlen(bi, j) > r {
            assert(blocks[j][r] == x[stream_pos(bi, j, r)]);
            assert(stream_pos(bi, j, r) == a1);
            assert(a2 == a1 + 1);
            assert(round_data(bi, blocks, r, j) =~= x.subrange(a1, a3));
        } else {
            assert(a2 == a1);
            assert(round_data(bi, blocks, r, j) =~= x.subrange(a1, a3));
        }
    }
}

proof fn lemma_data_rounds_subrange(bi: Seq<BlockInfo>, e: int, x: Seq<u8>, r: int)
    requires
        1 <= bi.len(),
        0 <= e,
        forall|i: int| 0 <= i < bi.len() ==> 1 <= (#[trigger] bi[i]).data_per,
        x.len() == row_start(bi, max_data(bi, bi.len() as int), bi.len() as int) + e * bi.len(),
        0 <= r <= max_data(bi, bi.len() as int),
    ensures
        data_rounds(bi, deinterleave_spec(bi, e, x), r) == x.subrange(
            row_start(bi, r, bi.len() as int),
            row_start(bi, max_data(bi, bi.len() as int), bi.len() as int),
        ),
    decreases max_data(bi, bi.len() as int) - r,
{
    let b = bi.len() as int;
    let maxd = max_data(bi, b);
    let blocks = deinterleave_spec(bi, e, x);
    lemma_row_start_nonneg(bi, r, b);
    lemma_row_start_mono(bi, r, maxd, b);
    assert(e * b >= 0) by (nonlinear_arith)
        requires
            e >= 0 && b >= 0,
    ;
    if r == maxd {
        assert(data_rounds(bi, blocks, r) =~= x.subrange(
            row_start(bi, maxd, b),
            row_start(bi, maxd, b),
        ));
    } else {
        lemma_round_data_subrange(bi, e, x, r, 0);
        lemma_data_rounds_subrange(bi, e, x, r + 1);
        lemma_row_start_succ(bi, r, b);
        lemma_row_start_mono(bi, r + 1, maxd, b);
        lemma_count_mono(bi, r, 0, b);
        assert(count_gt(bi, r, 0) == 0);
        assert(round_data(bi, blocks, r, 0) == x.subrange(
            row_start(bi, r, b),
            row_start(bi, r, b) + count_gt(bi, r, b),
        ));
        assert(data_rounds(bi, blocks, r + 1) == x.subrange(
            row_start(bi, r + 1, b),
            row_start(bi, maxd, b),
        ));
        assert(data_rounds(bi, blocks, r) == round_data(bi, blocks, r, 0) + data_rounds(
            bi,
            blocks,
            r + 1,
        ));
        lemma_subrange_concat(
            x,
            row_start(bi, r, b),
            row_start(bi, r + 1, b),
            row_start(bi, maxd, b),
        );
    }
}

proof fn lemma_round_ec_subrange(bi: Seq<BlockInfo>, e: int, x: Seq<u8>, m: int, j: int)
    requires
        1 <= bi.len(),
        0 <= m < e,
        forall|i: int| 0 <= i < bi.len() ==> 1 <= (#[trigger] bi[i]).data_per,
        x.len() == row_start(bi, max_data(bi, bi.len() as int), bi.len() as int) + e * bi.len(),
        0 <= j <= bi.len(),
    ensures
        round_ec(bi, deinterleave_spec(bi, e, x), m, j) == x.subrange(
            row_start(bi, max_data(bi, bi.len() as int), bi.len() as int) + m * bi.len() + j,
            row_start(bi, max_data(bi, bi.len() as int), bi.len() as int) + m * bi.len()
                + bi.len(),
        ),
    decreases bi.len() - j,
{
    let b = bi.len() as int;
    let maxd = max_data(bi, b);
    let sumd = row_start(bi, maxd, b);
    let blocks = deinterleave_spec(bi, e, x);
    lemma_row_start_nonneg(bi, maxd, b);
    assert(m * b >= 0 && (m + 1) * b == m * b + b && (m + 1) * b <= e * b) by (nonlinear_arith)
        requires
            0 <= m < e && b >= 1,
    ;
    if j == b {
        assert(round_ec(bi, blocks, m, j) =~= x.subrange(
            sumd + m * b + b,
            sumd + m * b + b,
        ));
    } else {
        lemma_round_ec_subrange(bi, e, x, m, j + 1);
        lemma_max_ge(bi, b, j);
        assert(blocks[j][dlen(bi, j) + m] == x[stream_pos(bi, j, dlen(bi, j) + m)]);
        assert(stream_pos(bi, j, dlen(bi, j) + m) == sumd + m * b + j);
        assert(round_ec(bi, blocks, m, j) =~= x.subrange(
            sumd + m * b + j,
            sumd + m * b + b,
        ));
    }
}

proof fn lemma_ec_rounds_subrange(bi: Seq<BlockInfo>, e: int, x: Seq<u8>, m: int)
    requires
        1 <= bi.len(),
        0 <= m <= e,
        forall|i: int| 0 <= i < bi.len() ==> 1 <= (#[trigger] bi[i]).data_per,
        x.len() == row_start(bi, max_data(bi, bi.len() as int), bi.len() as int) + e * bi.len(),
    ensures
        ec_rounds(bi, e, deinterleave_spec(bi, e, x), m) == x.subrange(
            row_start(bi, max_data(bi, bi.len() as int), bi.len() as int) + m * bi.len(),
            x.len() as int,
        ),
    decreases e - m,
{
    let b = bi.len() as int;
    let maxd = max_data(bi, b);
    let sumd = row_start(bi, maxd, b);
    let blocks = deinterleave_spec(bi, e, x);
    lemma_row_start_nonneg(bi, maxd, b);
    assert(m * b >= 0 && (m + 1) * b == m * b + b && m * b <= e * b) by (nonlinear_arith)
        requires
            0 <= m <= e && b >= 1,
    ;
    if m == e {
        assert(ec_rounds(bi, e, blocks, m) =~= x.subrange(x.len() as int, x.len() as int));
    } else {
        lemma_round_ec_subrange(bi, e, x, m, 0);
        lemma_ec_rounds_subrange(bi, e, x, m + 1);
        assert(round_ec(bi, blocks, m, 0) == x.subrange(
            sumd + m * b + 0,
            sumd + m * b + b,
        ));
        assert(ec_rounds(bi, e, blocks, m + 1) == x.subrange(
            sumd + (m + 1) * b,
            x.len() as int,
        ));
        assert(ec_rounds(bi, e, blocks, m) == round_ec(bi, blocks, m, 0) + ec_rounds(
            bi,
            e,
            blocks,
            m + 1,
        ));
        assert((m + 1) * b <= e * b) by (nonlinear_arith)
            requires
                0 <= m < e && b >= 1,
        ;
        lemma_subrange_concat(x, sumd + m * b, sumd + (m + 1) * b, x.len() as int);
    }
}

/// De-interleaving is a bijection: re-interleaving the blocks that a
/// codeword stream of the right length de-interleaves into yields the
/// stream again.
pub proof fn lemma_interleave_roundtrip(bi: Seq<BlockInfo>, e: int, x: Seq<u8>)
    requires
        1 <= bi.len(),
        0 <= e,
        forall|i: int| 0 <= i < bi.len() ==> 1 <= (#[trigger] bi[i]).data_per,
        x.len() == row_start(bi, max_data(bi, bi.len() as int), bi.len() as int) + e * bi.len(),
    ensures
        interleave_spec(bi, e, deinterleave_spec(bi, e, x)) == x,
{
    let b = bi.len() as int;
    let maxd = max_data(bi, b);
    lemma_max_ge(bi, b, 0);
    lemma_row_start_zero(bi, b);
    lemma_data_rounds_subrange(bi, e, x, 0);
    lemma_ec_rounds_subrange(bi, e, x, 0);
    assert(0 * b == 0) by (nonlinear_arith);
    lemma_row_start_nonneg(bi, maxd, b);
    assert(e * b >= 0) by (nonlinear_arith)
        requires
            e >= 0 && b >= 0,
    ;
    assert(interleave_spec(bi, e, deinterleave_spec(bi, e, x)) =~= x);
}

/// One where the module at (x, y) carries data, zero elsewhere.
pub open spec fn data_flag(data: QRData, start: int, step: int, x: int, y: int) -> nat {
    if is_data_spec(data.version as int, data.side as int, start, step, x, y) {
        1
    } else {
        0
    }
}

/// Number of data modules in column `x` among the rows below `y`.
pub open spec fn col_data_count(data: QRData, start: int, step: int, x: int, y: int) -> nat
    decreases y,
{
    if y <= 0 {
        0
    } else {
        col_data_count(data, start, step, x, y - 1) + data_flag(data, start, step, x, y - 1)
    }
}

/// Number of data modules among the first `x` columns of the grid.
pub open spec fn grid_data_count(data: QRData, start: int, step: int, x: int) -> nat
    decreases x,
{
    if x <= 0 {
        0
    } else {
        grid_data_count(data, start, step, x - 1) + col_data_count(
            data,
            start,
            step,
            x - 1,
            data.side as int,
        )
    }
}

/// Number of data modules among a sequence of positions.
pub open spec fn pos_flags(data: QRData, start: int, step: int, ps: Seq<(u32, u32)>) -> nat
    decreases ps.len(),
{
    if ps.len() == 0 {
        0
    } else {
        pos_flags(data, start, step, ps.drop_last()) + data_flag(
            data,
            start,
            step,
            ps.last().0 as int,
            ps.last().1 as int,
        )
    }
}

proof fn lemma_bits_len_is_flags(data: QRData, start: int, step: int, id: int, ps: Seq<(u32, u32)>)
    ensures
        bits_of_positions(data, start, step, id, ps).len() == pos_flags(data, start, step, ps),
    decreases ps.len(),
{
    if ps.len() > 0 {
        lemma_bits_len_is_flags(data, start, step, id, ps.drop_last());
    }
}

proof fn lemma_flags_concat(data: QRData, start: int, step: int, a: Seq<(u32, u32)>, b: Seq<(u32, u32)>)
    ensures
        pos_flags(data, start, step, a + b) == pos_flags(data, start, step, a) + pos_flags(
            data,
            start,
            step,
            b,
        ),
    decreases b.len(),
{
    if b.len() == 0 {
        assert(a + b =~= a);
    } else {
        assert((a + b).drop_last() =~= a + b.drop_last());
        lemma_flags_concat(data, start, step, a, b.drop_last());
    }
}

/// The flag sum of a column pair's positions over the first `m` rows of
/// its visiting order.
proof fn lemma_col_pair_prefix(data: QRData, start: int, step: int, x: int, m: int)
    requires
        1 <= x < data.side,
        0 <= m <= data.side,
    ensures
        pos_flags(data, start, step, col_positions(x, data.side as int).take(2 * m)) == ypair_sum(
            data,
            start,
            step,
            x,
            m,
        ),
    decreases m,
{
    let side = data.side as int;
    let col = col_positions(x, side);
    if m == 0 {
        assert(col.take(0) =~= Seq::<(u32, u32)>::empty());
    } else {
        lemma_col_pair_prefix(data, start, step, x, m - 1);
        let a = col.take(2 * (m - 1));
        let ys = y_seq_spec(x, side);
        let p0 = (x as u32, ys[m - 1]);
        let p1 = ((x - 1) as u32, ys[m - 1]);
        assert(col[2 * m - 2] == p0);
        assert(col[2 * m - 1] == p1);
        assert(col.take(2 * m) =~= a.push(p0).push(p1));
        assert(a.push(p0).push(p1).drop_last() =~= a.push(p0));
        assert(a.push(p0).drop_last() =~= a);
        assert(pos_flags(data, start, step, a.push(p0)) == pos_flags(data, start, step, a)
            + data_flag(data, start, step, x, ys[m - 1] as int));
        assert(pos_flags(data, start, step, col.take(2 * m)) == pos_flags(data, start, step, a)
            + data_flag(data, start, step, x, ys[m - 1] as int) + data_flag(
            data,
            start,
            step,
            x - 1,
            ys[m - 1] as int,
        ));
    }
}

/// The flag sum of the first `m` visited rows of the column pair at `x`.
pub open spec fn ypair_sum(data: QRData, start: int, step: int, x: int, m: int) -> nat
    decreases m,
{
    if m <= 0 {
        0
    } else {
        let y = y_seq_spec(x, data.side as int)[m - 1] as int;
        ypair_sum(data, start, step, x, m - 1) + data_flag(data, start, step, x, y) + data_flag(
            data,
            start,
            step,
            x - 1,
            y,
        )
    }
}

/// The flag sum of both columns of a pair over the rows `lo` up to `hi`.
pub open spec fn pair_range(data: QRData, start: int, step: int, x: int, lo: int, hi: int) -> nat
    decreases hi - lo,
{
    if hi <= lo {
        0
    } else {
        pair_range(data, start, step, x, lo, hi - 1) + data_flag(data, start, step, x, hi - 1)
            + data_flag(data, start, step, x - 1, hi - 1)
    }
}

/// A visiting order that ascends sums the same flags as the row range.
proof fn lemma_ypair_ascending(data: QRData, start: int, step: int, x: int, m: int)
    requires
        1 <= x < data.side,
        0 <= m <= data.side,
        y_seq_spec(x, data.side as int) == Seq::new(
            data.side as nat,
            |i: int| i as u32,
        ),
    ensures
        ypair_sum(data, start, step, x, m) == pair_range(data, start, step, x, 0, m),
    decreases m,
{
    if m > 0 {
        lemma_ypair_ascending(data, start, step, x, m - 1);
    }
}

/// A visiting order that descends sums the same flags as the row range
/// it has reached from the top.
proof fn lemma_ypair_descending(data: QRData, start: int, step: int, x: int, m: int)
    requires
        1 <= x < data.side,
        0 <= m <= data.side,
        y_seq_spec(x, data.side as int) == Seq::new(
            data.side as nat,
            |i: int| (data.side as int - 1 - i) as u32,
        ),
    ensures
        ypair_sum(data, start, step, x, m) == pair_range(
            data,
            start,
            step,
            x,
            data.side as int - m,
            data.side as int,
        ),
    decreases m,
{
    if m > 0 {
        let side = data.side as int;
        lemma_ypair_descending(data, start, step, x, m - 1);
        lemma_pair_range_split(data, start, step, x, side - m, side - m + 1, side);
        assert(y_seq_spec(x, side)[m - 1] == Seq::new(
            data.side as nat,
            |i: int| (side - 1 - i) as u32,
        )[m - 1]);
        assert(y_seq_spec(x, side)[m - 1] == (side - m) as u32);
        let y = y_seq_spec(x, side)[m - 1] as int;
        assert(y == side - m);
        assert(pair_range(data, start, step, x, side - m, side - m) == 0);
        assert(pair_range(data, start, step, x, side - m, side - m + 1) == data_flag(
            data,
            start,
            step,
            x,
            side - m,
        ) + data_flag(data, start, step, x - 1, side - m));
    }
}

/// A row range's flag sum splits at any inner row.
proof fn lemma_pair_range_split(data: QRData, start: int, step: int, x: int, lo: int, mid: int, hi: int)
    requires
        lo <= mid <= hi,
    ensures
        pair_range(data, start, step, x, lo, hi) == pair_range(data, start, step, x, lo, mid)
            + pair_range(data, start, step, x, mid, hi),
    decreases hi - mid,
{
    if mid < hi {
        lemma_pair_range_split(data, start, step, x, lo, mid, hi - 1);
    } else {
        lemma_pair_range_empty(data, start, step, x, mid, hi);
    }
}

proof fn lemma_pair_range_empty(data: QRData, start: int, step: int, x: int, lo: int, hi: int)
    requires
        hi <= lo,
    ensures
        pair_range(data, start, step, x, lo, hi) == 0,
{
}

/// A full row range of a pair counts both whole columns.
proof fn lemma_pair_is_cols(data: QRData, start: int, step: int, x: int, hi: int)
    requires
        0 <= hi,
    ensures
        pair_range(data, start, step, x, 0, hi) == col_data_count(data, start, step, x, hi)
            + col_data_count(data, start, step, x - 1, hi),
    decreases hi,
{
    if hi > 0 {
        lemma_pair_is_cols(data, start, step, x, hi - 1);
    }
}

/// The flag sum of a whole column pair counts both of its columns.
proof fn lemma_col_pair_total(data: QRData, start: int, step: int, x: int)
    requires
        1 <= x < data.side,
    ensures
        pos_flags(data, start, step, col_positions(x, data.side as int)) == col_data_count(
            data,
            start,
            step,
            x,
            data.side as int,
        ) + col_data_count(data, start, step, x - 1, data.side as int),
{
    let side = data.side as int;
    let col = col_positions(x, side);
    lemma_col_pair_prefix(data, start, step, x, side);
    assert(col.take(2 * side) =~= col);
    let ys = y_seq_spec(x, side);
    let xx: int = if x < 6 {
        x + 1
    } else {
        x
    };
    if (side - 1 - xx) % 4 == 0 {
        assert(ys =~= Seq::new(data.side as nat, |i: int| (side - 1 - i) as u32));
        lemma_ypair_descending(data, start, step, x, side);
        assert(pair_range(data, start, step, x, side - side, side) == pair_range(
            data,
            start,
            step,
            x,
            0,
            side,
        ));
    } else {
        assert(ys =~= Seq::new(data.side as nat, |i: int| i as u32));
        lemma_ypair_ascending(data, start, step, x, side);
    }
    lemma_pair_is_cols(data, start, step, x, side);
}

/// The timing column at 6 carries no data modules.
proof fn lemma_col6_empty(data: QRData, start: int, step: int, y: int)
    requires
        0 <= y,
    ensures
        col_data_count(data, start, step, 6, y) == 0,
    decreases y,
{
    if y > 0 {
        lemma_col6_empty(data, start, step, y - 1);
    }
}

/// The zig-zag walk from column pair `x` counts exactly the data
/// modules of the columns up to `x`, the timing column contributing
/// none.
proof fn lemma_zigzag_counts(data: QRData, start: int, step: int, x: int)
    requires
        data.wf(),
        (x % 2 == 0 && 8 <= x < data.side) || (x % 2 == 1 && 1 <= x <= 5),
    ensures
        pos_flags(data, start, step, zigzag_positions(x, data.side as int)) == grid_data_count(
            data,
            start,
            step,
            x + 1,
        ),
    decreases x,
{
    let side = data.side as int;
    lemma_col_pair_total(data, start, step, x);
    if x == 1 {
        assert(zigzag_positions(1, side) == col_positions(1, side));
        assert(grid_data_count(data, start, step, 2) == grid_data_count(data, start, step, 1)
            + col_data_count(data, start, step, 1, side));
        assert(grid_data_count(data, start, step, 1) == grid_data_count(data, start, step, 0)
            + col_data_count(data, start, step, 0, side));
    } else {
        let nx = next_col(x);
        assert(zigzag_positions(x, side) == col_positions(x, side) + zigzag_positions(nx, side));
        lemma_flags_concat(
            data,
            start,
            step,
            col_positions(x, side),
            zigzag_positions(nx, side),
        );
        lemma_zigzag_counts(data, start, step, nx);
        assert(grid_data_count(data, start, step, x + 1) == grid_data_count(data, start, step, x)
            + col_data_count(data, start, step, x, side));
        assert(grid_data_count(data, start, step, x) == grid_data_count(data, start, step, x - 1)
            + col_data_count(data, start, step, x - 1, side));
        if x == 8 {
            lemma_col6_empty(data, start, step, side);
            assert(grid_data_count(data, start, step, 7) == grid_data_count(data, start, step, 6)
                + col_data_count(data, start, step, 6, side));
        }
    }
}

/// The zig-zag walk reads every data module of the grid once: the bits
/// it collects number exactly the grid's data modules.
pub proof fn lemma_walk_covers_grid(data: QRData, start: int, step: int, id: int)
    requires
        data.wf(),
    ensures
        bits_of_positions(
            data,
            start,
            step,
            id,
            zigzag_positions(data.side as int - 1, data.side as int),
        ).len() == grid_data_count(data, start, step, data.side as int),
{
    let side = data.side as int;
    lemma_bits_len_is_flags(
        data,
        start,
        step,
        id,
        zigzag_positions(side - 1, side),
    );
    lemma_zigzag_counts(data, start, step, side - 1);
}

/// The interleaved codeword stream holds one byte for every eight data
/// modules of the grid: eight times its length is the grid's data module
/// count, less the remainder bits that fill no byte.
pub proof fn lemma_stream_length(data: QRData, id: int)
    requires
        data.wf(),
    ensures
        ({
            let (start, step) = alignment_location_spec(data.version);
            let d = grid_data_count(data, start as int, step as int, data.side as int) as int;
            8 * codeword_stream(data, id).len() == d - d % 8
        }),
{
    let (start, step) = alignment_location_spec(data.version);
    lemma_walk_covers_grid(data, start as int, step as int, id);
}

} // verus!
