//! Reed-Solomon error correction of one codeword block over GF(2^8):
//! syndrome computation, error location by solving for the error locator
//! polynomial and searching its roots, error magnitudes from the
//! syndrome equations, and the final syndrome re-check.

use vstd::prelude::*;
use vstd::string::*;

use crate::block_info::BlockInfo;
use crate::galois::alpha_pow;
use crate::galois::gf_mul;
use crate::galois::gf_pow;
use crate::galois::popcount;
use crate::galois::popcount_u8;
use crate::galois::GF8;
use crate::qr::QRError;

verus! {

/// The syndrome of a block at `base`: the block read as a polynomial,
/// highest coefficient first, evaluated at `base`.
pub open spec fn syndrome_spec(s: Seq<u8>, base: u8) -> u8
    decreases s.len(),
{
    if s.len() == 0 {
        0
    } else {
        gf_mul(gf_pow(base, (s.len() - 1) as nat), s[0]) ^ syndrome_spec(
            s.subrange(1, s.len() as int),
            base,
        )
    }
}

/// All `2 * ec_cap` syndromes of a block are zero: the block is a valid
/// codeword as far as correction can tell.
pub open spec fn all_syndromes_zero(s: Seq<u8>, ec_cap: int) -> bool {
    forall|j: int| 0 <= j < 2 * ec_cap ==> #[trigger] syndrome_spec(s, gf_pow(2, j as nat)) == 0
}

/// The total count of bit positions where two equal-length blocks differ.
pub open spec fn diff_bits(a: Seq<u8>, b: Seq<u8>) -> nat
    decreases a.len(),
{
    if a.len() == 0 {
        0
    } else {
        popcount(a[0] ^ b[0]) + diff_bits(a.subrange(1, a.len() as int), b.subrange(1, b.len() as int))
    }
}

proof fn lemma_popcount_zero()
    ensures
        popcount(0) == 0,
{
    assert(0u8 >> 1 == 0) by (bit_vector);
    assert(0u8 & 1 == 0) by (bit_vector);
    reveal_with_fuel(crate::galois::popcount_rec, 10);
}

/// The number of byte positions where two equal-length blocks differ.
pub open spec fn count_changed(a: Seq<u8>, b: Seq<u8>) -> nat
    decreases a.len(),
{
    if a.len() == 0 {
        0
    } else {
        (if a[0] == b[0] {
            0nat
        } else {
            1nat
        }) + count_changed(a.subrange(1, a.len() as int), b.subrange(1, b.len() as int))
    }
}

proof fn lemma_count_changed_refl(a: Seq<u8>, b: Seq<u8>)
    requires
        a.len() == b.len(),
        forall|i: int| 0 <= i < a.len() ==> a[i] == b[i],
    ensures
        count_changed(a, b) == 0,
    decreases a.len(),
{
    if a.len() > 0 {
        lemma_count_changed_refl(a.subrange(1, a.len() as int), b.subrange(1, b.len() as int));
    }
}

/// Updating one byte raises the changed-position count by at most one.
proof fn lemma_count_changed_update(a: Seq<u8>, b: Seq<u8>, k: int, v: u8)
    requires
        a.len() == b.len(),
        0 <= k < b.len(),
    ensures
        count_changed(a, b.update(k, v)) <= count_changed(a, b) + 1,
    decreases a.len(),
{
    let b2 = b.update(k, v);
    if k == 0 {
        assert(b2.subrange(1, b2.len() as int) =~= b.subrange(1, b.len() as int));
    } else {
        lemma_count_changed_update(
            a.subrange(1, a.len() as int),
            b.subrange(1, b.len() as int),
            k - 1,
            v,
        );
        assert(b2.subrange(1, b2.len() as int) =~= b.subrange(1, b.len() as int).update(k - 1, v));
    }
}

proof fn lemma_diff_bits_refl(a: Seq<u8>, b: Seq<u8>)
    requires
        a.len() == b.len(),
        forall|i: int| 0 <= i < a.len() ==> a[i] == b[i],
    ensures
        diff_bits(a, b) == 0,
    decreases a.len(),
{
    if a.len() > 0 {
        let x = a[0];
        let y = b[0];
        assert(x == y ==> x ^ y == 0) by (bit_vector);
        lemma_popcount_zero();
        lemma_diff_bits_refl(a.subrange(1, a.len() as int), b.subrange(1, b.len() as int));
    }
}

/// Updating one byte of `b` moves the difference count by the popcount
/// change at that position.
proof fn lemma_diff_bits_update(a: Seq<u8>, b: Seq<u8>, k: int, v: u8)
    requires
        a.len() == b.len(),
        0 <= k < b.len(),
    ensures
        diff_bits(a, b.update(k, v)) == diff_bits(a, b) + popcount(a[k] ^ v) - popcount(
            a[k] ^ b[k],
        ),
    decreases a.len(),
{
    let b2 = b.update(k, v);
    if k == 0 {
        assert(b2.subrange(1, b2.len() as int) =~= b.subrange(1, b.len() as int));
    } else {
        lemma_diff_bits_update(
            a.subrange(1, a.len() as int),
            b.subrange(1, b.len() as int),
            k - 1,
            v,
        );
        assert(b2.subrange(1, b2.len() as int) =~= b.subrange(1, b.len() as int).update(k - 1, v));
    }
}

/// Computes the syndrome of a block at `base`: walks the block from its
/// last codeword backward, accumulating codeword * base^distance.
pub fn syndrome(block: &[u8], base: GF8) -> (r: GF8)
    ensures
        r.0 == syndrome_spec(block@, base.0),
{
    let mut synd = GF8(0);
    let mut alpha = GF8(1);
    let ghost s = block@;
    let mut i: usize = block.len();
    proof {
        assert(s.subrange(i as int, s.len() as int) =~= Seq::<u8>::empty());
    }
    while i > 0
        invariant
            i <= s.len(),
            block@ == s,
            alpha.0 == gf_pow(base.0, (s.len() - i) as nat),
            synd.0 == syndrome_spec(s.subrange(i as int, s.len() as int), base.0),
        decreases i,
    {
        i = i - 1;
        let c = block[i];
        let ghost synd0 = synd.0;
        let ghost rest = s.subrange(i as int + 1, s.len() as int);
        synd = synd.gf_add(alpha.gf_mul(GF8(c)));
        alpha = base.gf_mul(alpha);
        proof {
            let cur = s.subrange(i as int, s.len() as int);
            assert(cur.subrange(1, cur.len() as int) =~= rest);
            assert(cur[0] == s[i as int]);
            let m = gf_mul(gf_pow(base.0, (cur.len() - 1) as nat), c);
            assert(syndrome_spec(cur, base.0) == m ^ syndrome_spec(rest, base.0));
            let rr = syndrome_spec(rest, base.0);
            assert(rr ^ m == m ^ rr) by (bit_vector);
        }
    }
    proof {
        assert(s.subrange(0, s.len() as int) =~= s);
    }
    synd
}

/// Computes every syndrome of a block for the given structure: syndrome
/// `j` is taken at alpha^j for `j` up to `2 * ec_cap`, and the first
/// component tells whether all of them are zero.
pub fn calculate_syndromes(block: &[u8], block_info: &BlockInfo) -> (r: (bool, Vec<GF8>))
    ensures
        r.1@.len() == 2 * block_info.ec_cap,
        forall|j: int|
            0 <= j < 2 * block_info.ec_cap ==> (#[trigger] r.1@[j]).0 == syndrome_spec(
                block@,
                gf_pow(2, j as nat),
            ),
        r.0 <==> all_syndromes_zero(block@, block_info.ec_cap as int),
{
    let count = 2 * block_info.ec_cap as u32;
    let mut syndromes: Vec<GF8> = Vec::new();
    let mut all_fine = true;
    let mut j: u32 = 0;
    while j < count
        invariant
            j <= count,
            count == 2 * block_info.ec_cap,
            syndromes@.len() == j,
            forall|k: int|
                0 <= k < j as int ==> (#[trigger] syndromes@[k]).0 == syndrome_spec(
                    block@,
                    gf_pow(2, k as nat),
                ),
            all_fine <==> (forall|k: int|
                0 <= k < j as int ==> #[trigger] syndrome_spec(block@, gf_pow(2, k as nat)) == 0),
        decreases count - j,
    {
        let base = alpha_pow(j);
        let sy = syndrome(block, base);
        proof {
            assert(sy.0 == syndrome_spec(block@, gf_pow(2, j as nat)));
        }
        if sy.0 != 0 {
            all_fine = false;
        }
        syndromes.push(sy);
        j = j + 1;
        proof {
            if all_fine {
                assert forall|k: int| 0 <= k < j as int implies #[trigger] syndrome_spec(
                    block@,
                    gf_pow(2, k as nat),
                ) == 0 by {
                    if k == j - 1 {
                        assert(syndrome_spec(block@, gf_pow(2, (j - 1) as nat)) == 0);
                    }
                }
            } else {
                if sy.0 != 0 {
                    assert(syndrome_spec(block@, gf_pow(2, (j - 1) as nat)) != 0);
                }
            }
        }
    }
    (all_fine, syndromes)
}

/// The rows of a matrix of field elements, as sequences.
pub open spec fn rows_view(eq: Seq<Vec<GF8>>) -> Seq<Seq<GF8>> {
    Seq::new(eq.len(), |i: int| eq[i]@)
}

/// A row divided by its entry in column `i`, from column `i` on.
pub open spec fn norm_row(row: Seq<GF8>, i: int) -> Seq<GF8> {
    Seq::new(
        row.len(),
        |j: int|
            if j >= i {
                GF8(crate::galois::gf_div(row[j].0, row[i].0))
            } else {
                row[j]
            },
    )
}

/// A row with its column-`i` multiple of the pivot row removed, from
/// column `i` on.
pub open spec fn elim_row(row: Seq<GF8>, piv: Seq<GF8>, i: int) -> Seq<GF8> {
    Seq::new(
        row.len(),
        |k: int|
            if k >= i {
                GF8(row[k].0 ^ gf_mul(row[i].0, piv[k].0))
            } else {
                row[k]
            },
    )
}

/// One forward elimination step: row `i` is normalised to a unit pivot,
/// and every row below it has its column-`i` entry cleared.
pub open spec fn fwd_step(m: Seq<Seq<GF8>>, i: int) -> Seq<Seq<GF8>> {
    let ni = norm_row(m[i], i);
    Seq::new(
        m.len(),
        |t: int|
            if t == i {
                ni
            } else if t > i {
                elim_row(m[t], ni, i)
            } else {
                m[t]
            },
    )
}

/// The matrix after the first `i` forward elimination steps.
pub open spec fn fwd_phase(m: Seq<Seq<GF8>>, i: int) -> Seq<Seq<GF8>>
    decreases i,
{
    if i <= 0 {
        m
    } else {
        fwd_step(fwd_phase(m, i - 1), i - 1)
    }
}

/// Whether one of the first `i` forward steps leaves `one` as the
/// reduced right-hand side of its row, the sign of a rank-deficient
/// system.
pub open spec fn rank_failed(m: Seq<Seq<GF8>>, one: GF8, i: int) -> bool
    decreases i,
{
    if i <= 0 {
        false
    } else {
        rank_failed(m, one, i - 1) || fwd_phase(m, i)[i - 1][m.len() as int].0 == one.0
    }
}

/// The right-hand side of row `r` of a reduced matrix after the
/// contributions of columns `r + 1` up to `j` are subtracted back out.
pub open spec fn back_acc(m: Seq<Seq<GF8>>, sol: Seq<GF8>, r: int, j: int) -> GF8
    decreases j - r,
{
    if j <= r + 1 {
        m[r][m.len() as int]
    } else {
        GF8(back_acc(m, sol, r, j - 1).0 ^ gf_mul(m[r][j - 1].0, sol[j - 1].0))
    }
}

/// The solution vector after back-substituting rows `r` and below of a
/// reduced matrix; rows above `r` still hold `zero`.
pub open spec fn back_state(m: Seq<Seq<GF8>>, zero: GF8, r: int) -> Seq<GF8>
    decreases m.len() - r,
{
    if r >= m.len() {
        Seq::new(m.len(), |t: int| zero)
    } else {
        let prev = back_state(m, zero, r + 1);
        prev.update(r, back_acc(m, prev, r, m.len() as int))
    }
}

/// What Gaussian elimination computes for an n x (n+1) system: the
/// forward phase in row order, the rank check against `one` when asked
/// for, then back substitution from the last row up. An empty system has
/// no solution to read off.
pub open spec fn solve_spec(m: Seq<Seq<GF8>>, zero: GF8, one: GF8, fail_on_rank: bool) -> Option<
    Seq<GF8>,
> {
    if m.len() == 0 {
        None
    } else if fail_on_rank && rank_failed(m, one, m.len() as int) {
        None
    } else {
        Some(back_state(fwd_phase(m, m.len() as int), zero, 0))
    }
}

proof fn lemma_rank_mono(m: Seq<Seq<GF8>>, one: GF8, i: int, j: int)
    requires
        0 <= i <= j,
        rank_failed(m, one, i),
    ensures
        rank_failed(m, one, j),
    decreases j,
{
    if i < j {
        lemma_rank_mono(m, one, i, j - 1);
    }
}

proof fn lemma_fwd_lens(m: Seq<Seq<GF8>>, w: int, i: int)
    requires
        0 <= i,
        forall|t: int| 0 <= t < m.len() ==> (#[trigger] m[t]).len() == w,
    ensures
        fwd_phase(m, i).len() == m.len(),
        forall|t: int| 0 <= t < m.len() ==> (#[trigger] fwd_phase(m, i)[t]).len() == w,
    decreases i,
{
    if i > 0 {
        lemma_fwd_lens(m, w, i - 1);
    }
}

/// Solves a linear system over GF(2^8) by Gaussian elimination, each row
/// holding the coefficients and, last, the right-hand side. The result
/// is pinned to the elimination itself (`solve_spec`): forward steps in
/// row order, the rank check when asked for, and back substitution.
/// Rows without a usable pivot are driven through the zero-division
/// convention of `gf_div`; the callers re-check the syndromes of
/// whatever correction comes out.
#[verifier::rlimit(100)]
pub fn solve(eq: Vec<Vec<GF8>>, zero: GF8, one: GF8, fail_on_rank: bool) -> (r: Option<Vec<GF8>>)
    requires
        forall|i: int| 0 <= i < eq@.len() ==> (#[trigger] eq@[i]@).len() == eq@.len() + 1,
    ensures
        r is Some <==> solve_spec(rows_view(eq@), zero, one, fail_on_rank) is Some,
        r is Some ==> r->0@ == solve_spec(rows_view(eq@), zero, one, fail_on_rank)->0,
        r is Some ==> r->0@.len() == eq@.len(),
        eq@.len() == 0 ==> r is None,
        (eq@.len() > 0 && !fail_on_rank) ==> r is Some,
{
    let ghost m0 = rows_view(eq@);
    let num_eq = eq.len();
    let mut work = eq;
    if num_eq == 0 {
        return None;
    }
    let num_coeff = work[0].len();
    let mut i: usize = 0;
    let mut failed = false;
    proof {
        assert(rows_view(work@) =~= fwd_phase(m0, 0));
    }
    while i < num_eq
        invariant
            i <= num_eq,
            work@.len() == num_eq,
            num_coeff == num_eq + 1,
            m0.len() == num_eq,
            forall|t: int| 0 <= t < work@.len() ==> (#[trigger] work@[t]@).len() == num_coeff,
            forall|t: int| 0 <= t < m0.len() ==> (#[trigger] m0[t]).len() == num_coeff,
            rows_view(work@) == fwd_phase(m0, i as int),
            fail_on_rank ==> failed == rank_failed(m0, one, i as int),
            !fail_on_rank ==> !failed,
        decreases num_eq - i,
    {
        let ghost mcur = fwd_phase(m0, i as int);
        let ghost orig_row = work@[i as int]@;
        // normalise the row: divide by its pivot so that it becomes one
        let pivot = work[i][i];
        let mut jj: usize = num_coeff;
        while jj > i
            invariant
                i < num_eq,
                i <= jj <= num_coeff,
                work@.len() == num_eq,
                num_coeff == num_eq + 1,
                forall|t: int| 0 <= t < work@.len() ==> (#[trigger] work@[t]@).len() == num_coeff,
                forall|t: int| 0 <= t < work@.len() && t != i as int ==> (#[trigger] work@[t]@)
                    == mcur[t],
                orig_row == mcur[i as int],
                orig_row.len() == num_coeff,
                pivot == orig_row[i as int],
                work@[i as int]@ == Seq::new(
                    num_coeff as nat,
                    |j: int|
                        if j >= jj {
                            GF8(crate::galois::gf_div(orig_row[j].0, orig_row[i as int].0))
                        } else {
                            orig_row[j]
                        },
                ),
            decreases jj,
        {
            jj = jj - 1;
            let v = work[i][jj].gf_div(pivot);
            work[i][jj] = v;
            proof {
                assert(work@[i as int]@ =~= Seq::new(
                    num_coeff as nat,
                    |j: int|
                        if j >= jj {
                            GF8(crate::galois::gf_div(orig_row[j].0, orig_row[i as int].0))
                        } else {
                            orig_row[j]
                        },
                ));
            }
        }
        let ghost ni = norm_row(orig_row, i as int);
        proof {
            assert(work@[i as int]@ =~= ni);
        }
        // eliminate the pivot column from the rows below
        let mut t: usize = i + 1;
        while t < num_eq
            invariant
                i < num_eq,
                i + 1 <= t <= num_eq,
                work@.len() == num_eq,
                num_coeff == num_eq + 1,
                m0.len() == num_eq,
                forall|u: int| 0 <= u < work@.len() ==> (#[trigger] work@[u]@).len() == num_coeff,
                forall|u: int| 0 <= u < m0.len() ==> (#[trigger] m0[u]).len() == num_coeff,
                mcur == fwd_phase(m0, i as int),
                ni == norm_row(mcur[i as int], i as int),
                work@[i as int]@ == ni,
                forall|u: int| 0 <= u < (i as int) ==> (#[trigger] work@[u]@) == mcur[u],
                forall|u: int| (i as int) < u < (t as int) ==> (#[trigger] work@[u]@) == elim_row(
                    mcur[u],
                    ni,
                    i as int,
                ),
                forall|u: int| (t as int) <= u < num_eq ==> (#[trigger] work@[u]@) == mcur[u],
            decreases num_eq - t,
        {
            let ghost orow = work@[t as int]@;
            let ghost rows0 = work@;
            let factor = work[t][i];
            let mut k: usize = num_coeff;
            while k > i
                invariant
                    i < num_eq,
                    t < num_eq,
                    i < t,
                    i <= k <= num_coeff,
                    work@.len() == num_eq,
                    rows0.len() == num_eq,
                    num_coeff == num_eq + 1,
                    forall|u: int| 0 <= u < work@.len() ==> (#[trigger] work@[u]@).len() == num_coeff,
                    forall|u: int|
                        0 <= u < work@.len() && u != t as int ==> (#[trigger] work@[u]) == rows0[u],
                    work@[i as int]@ == ni,
                    ni.len() == num_coeff,
                    orow.len() == num_coeff,
                    factor == orow[i as int],
                    work@[t as int]@ == Seq::new(
                        num_coeff as nat,
                        |k2: int|
                            if k2 >= k {
                                GF8(orow[k2].0 ^ gf_mul(orow[i as int].0, ni[k2].0))
                            } else {
                                orow[k2]
                            },
                    ),
                decreases k,
            {
                k = k - 1;
                let v = work[t][k].gf_sub(factor.gf_mul(work[i][k]));
                work[t][k] = v;
                proof {
                    assert(work@[t as int]@ =~= Seq::new(
                        num_coeff as nat,
                        |k2: int|
                            if k2 >= k {
                                GF8(orow[k2].0 ^ gf_mul(orow[i as int].0, ni[k2].0))
                            } else {
                                orow[k2]
                            },
                    ));
                }
            }
            proof {
                assert(work@[t as int]@ =~= elim_row(orow, ni, i as int));
            }
            t = t + 1;
        }
        proof {
            assert(rows_view(work@) =~= fwd_step(mcur, i as int));
            assert(fwd_phase(m0, i as int + 1) == fwd_step(mcur, i as int));
            lemma_fwd_lens(m0, num_coeff as int, i as int + 1);
        }
        if fail_on_rank && work[i][num_coeff - 1].0 == one.0 {
            failed = true;
            proof {
                assert(rank_failed(m0, one, i as int + 1));
            }
        }
        i = i + 1;
    }
    if failed {
        return None;
    }
    let ghost mf = fwd_phase(m0, num_eq as int);
    let mut solution: Vec<GF8> = Vec::new();
    let mut s: usize = 0;
    while s < num_eq
        invariant
            solution@.len() == s,
            s <= num_eq,
            forall|t: int| 0 <= t < s as int ==> (#[trigger] solution@[t]) == zero,
        decreases num_eq - s,
    {
        solution.push(zero);
        s = s + 1;
    }
    proof {
        assert(solution@ =~= back_state(mf, zero, num_eq as int));
    }
    let mut r: usize = num_eq;
    while r > 0
        invariant
            r <= num_eq,
            solution@.len() == num_eq,
            work@.len() == num_eq,
            num_coeff == num_eq + 1,
            m0.len() == num_eq,
            mf == fwd_phase(m0, num_eq as int),
            rows_view(work@) == mf,
            forall|t: int| 0 <= t < work@.len() ==> (#[trigger] work@[t]@).len() == num_coeff,
            solution@ == back_state(mf, zero, r as int),
        decreases r,
    {
        r = r - 1;
        let ghost prev = back_state(mf, zero, r as int + 1);
        let mut acc = work[r][num_coeff - 1];
        proof {
            assert(work@[r as int]@ == mf[r as int]);
            assert(acc == back_acc(mf, prev, r as int, r as int + 1));
        }
        let mut j2: usize = r + 1;
        while j2 < num_coeff - 1
            invariant
                r < num_eq,
                r + 1 <= j2 <= num_coeff - 1,
                solution@.len() == num_eq,
                work@.len() == num_eq,
                num_coeff == num_eq + 1,
                m0.len() == num_eq,
                mf == fwd_phase(m0, num_eq as int),
                rows_view(work@) == mf,
                forall|t: int| 0 <= t < work@.len() ==> (#[trigger] work@[t]@).len() == num_coeff,
                solution@ == prev,
                prev == back_state(mf, zero, r as int + 1),
                acc == back_acc(mf, prev, r as int, j2 as int),
            decreases num_coeff - 1 - j2,
        {
            proof {
                assert(work@[r as int]@ == mf[r as int]);
            }
            acc = acc.gf_sub(work[r][j2].gf_mul(solution[j2]));
            j2 = j2 + 1;
        }
        solution[r] = acc;
        proof {
            assert(back_acc(mf, prev, r as int, num_eq as int) == acc);
            assert(solution@ =~= back_state(mf, zero, r as int));
        }
    }
    proof {
        assert(!(fail_on_rank && rank_failed(m0, one, num_eq as int)));
        assert(solve_spec(m0, zero, one, fail_on_rank) == Some(back_state(mf, zero, 0)));
    }
    Some(solution)
}

/// The error-locator system of a block: row `i` holds the syndromes
/// `i` through `i + ec_cap`, the last one the right-hand side.
pub open spec fn locator_system(syndromes: Seq<GF8>, z: int) -> Seq<Seq<GF8>> {
    Seq::new(z as nat, |i: int| syndromes.subrange(i, i + z + 1))
}

/// The Chien check sum of a locator polynomial at the candidate value
/// `e`, over coefficients up to index `k`.
pub open spec fn chien_sum(sigma: Seq<GF8>, e: u8, k: int) -> u8
    decreases k,
{
    if k <= 0 {
        sigma[0].0
    } else {
        chien_sum(sigma, e, k - 1) ^ gf_mul(gf_pow(e, k as nat), sigma[k].0)
    }
}

/// The Chien check value of candidate location `t`: the monic locator
/// polynomial with coefficients `sigma`, evaluated at alpha^t.
pub open spec fn chien_val(sigma: Seq<GF8>, t: int) -> u8 {
    let e = gf_pow(2, t as nat);
    chien_sum(sigma, e, sigma.len() as int - 1) ^ gf_pow(e, sigma.len())
}

/// The candidate locations a locator polynomial admits among the first
/// `t` positions: every position whose Chien check vanishes, ascending.
pub open spec fn chien_list(sigma: Seq<GF8>, t: int) -> Seq<usize>
    decreases t,
{
    if t <= 0 {
        Seq::empty()
    } else {
        chien_list(sigma, t - 1) + (if chien_val(sigma, t - 1) == 0 {
            seq![(t - 1) as usize]
        } else {
            Seq::<usize>::empty()
        })
    }
}

/// Finds the candidate error locations of a block: solves the syndrome
/// equations for the error locator polynomial sigma, and keeps exactly
/// the positions below the block length at which the monic polynomial
/// vanishes (the Chien search). The returned locations are therefore
/// strictly increasing and below the block's total codeword count; with
/// no correction capacity there is no system to solve and the search
/// fails.
pub fn find_locs(block_info: &BlockInfo, syndromes: &Vec<GF8>) -> (r: Result<Vec<usize>, QRError>)
    requires
        syndromes@.len() == 2 * block_info.ec_cap,
    ensures
        r is Ok <==> block_info.ec_cap > 0,
        r is Ok ==> ({
            let sigma = solve_spec(
                locator_system(syndromes@, block_info.ec_cap as int),
                GF8(0),
                GF8(1),
                false,
            );
            &&& sigma is Some
            &&& r->Ok_0@ == chien_list(sigma->0, block_info.total_per as int)
        }),
        r is Ok ==> ({
            let locs = r->Ok_0@;
            &&& locs.len() <= block_info.total_per
            &&& forall|a: int, b: int| 0 <= a < b < locs.len() ==> locs[a] < locs[b]
            &&& forall|a: int| 0 <= a < locs.len() ==> (#[trigger] locs[a]) < block_info.total_per
        }),
{
    let z = block_info.ec_cap as usize;
    let mut eq: Vec<Vec<GF8>> = Vec::new();
    let mut i: usize = 0;
    while i < z
        invariant
            i <= z,
            z == block_info.ec_cap,
            syndromes@.len() == 2 * z,
            eq@.len() == i,
            forall|t: int| 0 <= t < eq@.len() ==> (#[trigger] eq@[t]@).len() == z + 1,
            forall|t: int|
                0 <= t < eq@.len() ==> (#[trigger] eq@[t]@) == syndromes@.subrange(t, t + z + 1),
        decreases z - i,
    {
        let mut row: Vec<GF8> = Vec::new();
        let mut j: usize = 0;
        while j < z + 1
            invariant
                j <= z + 1,
                i < z,
                z == block_info.ec_cap,
                syndromes@.len() == 2 * z,
                row@.len() == j,
                forall|k: int| 0 <= k < j as int ==> (#[trigger] row@[k]) == syndromes@[i + k],
            decreases z + 1 - j,
        {
            row.push(syndromes[i + j]);
            j = j + 1;
        }
        proof {
            assert(row@ =~= syndromes@.subrange(i as int, i as int + z + 1));
        }
        eq.push(row);
        i = i + 1;
    }
    proof {
        assert(rows_view(eq@) =~= locator_system(syndromes@, z as int));
    }
    let sigma = match solve(eq, GF8(0), GF8(1), false) {
        Some(sg) => sg,
        None => {
            return Err(QRError { msg: String::from_str("could not calculate sigma") });
        },
    };
    let ghost sigspec = solve_spec(
        locator_system(syndromes@, block_info.ec_cap as int),
        GF8(0),
        GF8(1),
        false,
    );
    proof {
        assert(sigma@ == sigspec->0);
    }
    let mut locs: Vec<usize> = Vec::new();
    let mut t: usize = 0;
    while t < block_info.total_per as usize
        invariant
            t <= block_info.total_per,
            sigma@.len() == block_info.ec_cap as int,
            sigma@.len() >= 1,
            locs@.len() <= t,
            locs@ == chien_list(sigma@, t as int),
            forall|a: int, b: int| 0 <= a < b < locs@.len() ==> locs@[a] < locs@[b],
            forall|a: int| 0 <= a < locs@.len() ==> (#[trigger] locs@[a]) < t,
        decreases block_info.total_per - t,
    {
        let exp = alpha_pow(t as u32);
        let ghost e0 = exp.0;
        let mut x = exp;
        let mut check_value = if sigma.len() > 0 {
            sigma[0]
        } else {
            GF8(0)
        };
        proof {
            crate::galois::lemma_gf_mul_one(e0);
            assert(gf_pow(e0, 0) == 1);
            assert(gf_pow(e0, 1) == gf_mul(e0, 1));
            assert(x.0 == gf_pow(e0, 1));
            assert(check_value.0 == chien_sum(sigma@, e0, 0));
        }
        let mut si: usize = 1;
        while si < sigma.len()
            invariant
                1 <= si <= sigma@.len(),
                sigma@.len() >= 1,
                e0 == gf_pow(2, t as nat),
                exp.0 == e0,
                x.0 == gf_pow(e0, si as nat),
                check_value.0 == chien_sum(sigma@, e0, si as int - 1),
            decreases sigma@.len() - si,
        {
            let ghost x0 = x.0;
            let ghost c0 = check_value.0;
            check_value = check_value.gf_add(x.gf_mul(sigma[si]));
            x = exp.gf_mul(x);
            si = si + 1;
            proof {
                crate::galois::lemma_gf_pow_step(e0, si as nat);
                assert(chien_sum(sigma@, e0, si as int - 1) == chien_sum(sigma@, e0, si as int - 2)
                    ^ gf_mul(gf_pow(e0, (si - 1) as nat), sigma@[si as int - 1].0));
                assert(check_value.0 == chien_sum(sigma@, e0, si as int - 1));
                assert(exp.0 == e0);
                assert(x0 == gf_pow(e0, (si - 1) as nat));
                assert(x.0 == gf_mul(e0, x0));
                assert(gf_pow(e0, si as nat) == gf_mul(e0, gf_pow(e0, (si - 1) as nat)));
                assert(x.0 == gf_pow(e0, si as nat));
            }
        }
        check_value = check_value.gf_add(x);
        proof {
            assert(check_value.0 == chien_val(sigma@, t as int));
            assert(chien_list(sigma@, t as int + 1) == chien_list(sigma@, t as int) + (
            if chien_val(sigma@, t as int) == 0 {
                seq![t as usize]
            } else {
                Seq::<usize>::empty()
            }));
        }
        if check_value.0 == 0 {
            locs.push(t);
        } else {
            proof {
                assert(locs@ =~= chien_list(sigma@, t as int + 1));
            }
        }
        t = t + 1;
    }
    Ok(locs)
}

/// The magnitude system of spec: row `i` pairs the powers
/// alpha^(i * loc_j) with syndrome `i` as its right-hand side.
pub open spec fn magnitude_system(syndromes: Seq<GF8>, locs: Seq<usize>) -> Seq<Seq<GF8>> {
    Seq::new(
        locs.len(),
        |i: int|
            Seq::new(
                (locs.len() + 1) as nat,
                |j: int|
                    if j < locs.len() {
                        GF8(gf_pow(2, ((i * locs[j]) % 255) as nat))
                    } else {
                        syndromes[i]
                    },
            ),
    )
}

/// Solves for the error magnitudes at the given locations: Gaussian
/// elimination on the system pairing powers of alpha at the locations
/// with the syndromes. With no locations there is no system to solve.
pub fn calculate_distances(syndromes: &Vec<GF8>, locs: &Vec<usize>) -> (r: Option<Vec<GF8>>)
    requires
        locs@.len() <= syndromes@.len(),
        syndromes@.len() <= 510,
        forall|a: int| 0 <= a < locs@.len() ==> (#[trigger] locs@[a]) < 256,
    ensures
        r is Some <==> solve_spec(magnitude_system(syndromes@, locs@), GF8(0), GF8(1), false)
            is Some,
        r is Some ==> r->0@ == solve_spec(
            magnitude_system(syndromes@, locs@),
            GF8(0),
            GF8(1),
            false,
        )->0,
        r is Some ==> r->0@.len() == locs@.len(),
        r is Some <==> locs@.len() > 0,
{
    let n = locs.len();
    let ghost msys = magnitude_system(syndromes@, locs@);
    let mut eq: Vec<Vec<GF8>> = Vec::new();
    let mut i: usize = 0;
    while i < n
        invariant
            i <= n,
            n == locs@.len(),
            n <= syndromes@.len(),
            syndromes@.len() <= 510,
            msys == magnitude_system(syndromes@, locs@),
            forall|a: int| 0 <= a < locs@.len() ==> (#[trigger] locs@[a]) < 256,
            eq@.len() == i,
            forall|t: int| 0 <= t < eq@.len() ==> (#[trigger] eq@[t]@).len() == n + 1,
            forall|t: int| 0 <= t < eq@.len() ==> (#[trigger] eq@[t]@) == msys[t],
        decreases n - i,
    {
        let mut row: Vec<GF8> = Vec::new();
        let mut j: usize = 0;
        while j < n
            invariant
                j <= n,
                i < n,
                n == locs@.len(),
                n <= 510,
                forall|a: int| 0 <= a < locs@.len() ==> (#[trigger] locs@[a]) < 256,
                row@.len() == j,
                forall|k: int|
                    0 <= k < j as int ==> (#[trigger] row@[k]).0 == gf_pow(
                        2,
                        ((i as int * locs@[k]) % 255) as nat,
                    ),
            decreases n - j,
        {
            proof {
                assert(i * locs@[j as int] <= 510 * 255) by (nonlinear_arith)
                    requires
                        0 <= i < 510,
                        0 <= locs@[j as int] < 256,
                ;
            }
            let prod = (i * locs[j]) % 255;
            row.push(alpha_pow(prod as u32));
            j = j + 1;
        }
        row.push(syndromes[i]);
        proof {
            assert(row@ =~= msys[i as int]);
        }
        eq.push(row);
        i = i + 1;
    }
    proof {
        assert(rows_view(eq@) =~= msys);
    }
    solve(eq, GF8(0), GF8(1), false)
}

/// Corrects a block in place against its block structure and reports the
/// number of bit flips applied. A block whose syndromes are all zero
/// comes back unchanged with a zero count; a corrected block comes back
/// with a zero first syndrome and a count equal to the bit difference
/// from the input; a block that correction cannot repair is an error.
pub fn correct_with_error_count(block: Vec<u8>, block_info: &BlockInfo) -> (r: Result<
    (Vec<u8>, u32),
    QRError,
>)
    requires
        block@.len() == block_info.total_per,
    ensures
        all_syndromes_zero(block@, block_info.ec_cap as int) ==> r == Ok::<_, QRError>(
            (block, 0u32),
        ),
        r is Ok ==> ({
            let (b2, n) = r->Ok_0;
            &&& b2@.len() == block@.len()
            &&& n == diff_bits(block@, b2@)
            &&& n <= 8 * block@.len()
            &&& count_changed(block@, b2@) <= block_info.ec_cap
        }),
        r is Ok && block_info.ec_cap > 0 ==> syndrome_spec(r->Ok_0.0@, 1) == 0,
        !all_syndromes_zero(block@, block_info.ec_cap as int) && block_info.ec_cap == 0 ==> r
            is Err,
{
    let mut block = block;
    let ghost orig = block@;
    let (all_fine, syndromes) = calculate_syndromes(block.as_slice(), block_info);
    if all_fine {
        // all syndromes are zero: nothing to correct
        proof {
            lemma_diff_bits_refl(orig, block@);
            lemma_count_changed_refl(orig, block@);
            if block_info.ec_cap > 0 {
                assert(gf_pow(2, 0) == 1);
                assert(syndrome_spec(block@, gf_pow(2, 0)) == 0);
            }
        }
        return Ok((block, 0));
    }
    let locs = match find_locs(block_info, &syndromes) {
        Ok(l) => l,
        Err(e) => { return Err(e) },
    };
    if locs.len() > block_info.ec_cap as usize {
        // more candidate locations than the block's correction capacity:
        // the locator polynomial cannot have that many true roots
        return Err(QRError { msg: String::from_str("could not calculate error distances") });
    }
    let distance = match calculate_distances(&syndromes, &locs) {
        Some(d) => d,
        None => {
            return Err(QRError { msg: String::from_str("could not calculate error distances") });
        },
    };
    let mut error_count: u32 = 0;
    let mut i: usize = 0;
    proof {
        lemma_diff_bits_refl(orig, block@);
        lemma_count_changed_refl(orig, block@);
    }
    while i < locs.len()
        invariant
            block@.len() == orig.len(),
            orig.len() == block_info.total_per,
            locs@.len() <= block_info.total_per,
            distance@.len() == locs@.len(),
            i <= locs@.len(),
            forall|a: int, b: int| 0 <= a < b < locs@.len() ==> locs@[a] < locs@[b],
            forall|a: int| 0 <= a < locs@.len() ==> (#[trigger] locs@[a]) < block_info.total_per,
            error_count == diff_bits(orig, block@),
            error_count <= 8 * i,
            count_changed(orig, block@) <= i as nat,
            locs@.len() <= block_info.ec_cap,
            forall|k: int|
                0 <= k < orig.len() && (forall|a: int|
                    0 <= a < i as int ==> k != block_info.total_per - 1 - locs@[a]) ==> orig[k]
                    == #[trigger] block@[k],
        decreases locs@.len() - i,
    {
        let idx = block_info.total_per as usize - 1 - locs[i];
        let ghost before = block@;
        let d = distance[i].0;
        let old_byte = block[idx];
        let new_byte = old_byte ^ d;
        let flips = popcount_u8(d);
        proof {
            assert(before[idx as int] == orig[idx as int]) by {
                assert(forall|a: int|
                    0 <= a < i as int ==> locs@[a] < locs@[i as int]);
            }
            lemma_diff_bits_update(orig, before, idx as int, new_byte);
            lemma_count_changed_update(orig, before, idx as int, new_byte);
            let ob: u8 = orig[idx as int];
            assert(ob ^ (ob ^ d) == d) by (bit_vector);
            assert(ob ^ ob == 0) by (bit_vector);
            lemma_popcount_zero();
            assert(popcount(d) <= 8) by {
                crate::galois::lemma_popcount_le8(d);
            }
        }
        block[idx] = new_byte;
        error_count = error_count + flips;
        i = i + 1;
        proof {
            assert forall|k: int|
                0 <= k < orig.len() && (forall|a: int|
                    0 <= a < i as int ==> k != block_info.total_per - 1 - locs@[a]) implies orig[k]
                == #[trigger] block@[k] by {
                assert(k != idx as int);
            }
        }
    }
    let s0 = syndrome(block.as_slice(), GF8(1));
    if s0.0 != 0 {
        return Err(QRError { msg: String::from_str("error correcting did not fix corrupted data") });
    }
    proof {
        assert(gf_pow(1, 0) == 1);
    }
    Ok((block, error_count))
}

/// Corrects a block in place against its block structure. The corrected
/// codewords are those of `correct_with_error_count`, without the count.
pub fn correct(block: Vec<u8>, block_info: &BlockInfo) -> (r: Result<Vec<u8>, QRError>)
    requires
        block@.len() == block_info.total_per,
    ensures
        all_syndromes_zero(block@, block_info.ec_cap as int) ==> r == Ok::<_, QRError>(block),
        r is Ok ==> r->Ok_0@.len() == block@.len(),
        r is Ok ==> count_changed(block@, r->Ok_0@) <= block_info.ec_cap,
        r is Ok && block_info.ec_cap > 0 ==> syndrome_spec(r->Ok_0@, 1) == 0,
        !all_syndromes_zero(block@, block_info.ec_cap as int) && block_info.ec_cap == 0 ==> r
            is Err,
{
    match correct_with_error_count(block, block_info) {
        Ok((b, _)) => Ok(b),
        Err(e) => Err(e),
    }
}

/// A bytewise XOR of two equal-length blocks.
pub open spec fn xor_bytes(a: Seq<u8>, b: Seq<u8>) -> Seq<u8> {
    Seq::new(a.len(), |i: int| a[i] ^ b[i])
}

/// The total count of set bits over a block.
pub open spec fn popcount_bytes(e: Seq<u8>) -> nat
    decreases e.len(),
{
    if e.len() == 0 {
        0
    } else {
        popcount(e[0]) + popcount_bytes(e.subrange(1, e.len() as int))
    }
}

/// The error count that correction reports is the weight of the error
/// vector: whenever the corrected block is the codeword `c` that an
/// error vector `e` was XORed onto, the reported bit difference between
/// `c XOR e` and `c` is exactly the number of set bits of `e`.
pub proof fn lemma_error_count_is_flips(c: Seq<u8>, e: Seq<u8>)
    requires
        c.len() == e.len(),
    ensures
        diff_bits(xor_bytes(c, e), c) == popcount_bytes(e),
    decreases c.len(),
{
    if c.len() > 0 {
        let x = c[0];
        let y = e[0];
        assert((x ^ y) ^ x == y) by (bit_vector);
        assert(xor_bytes(c, e).subrange(1, c.len() as int) =~= xor_bytes(
            c.subrange(1, c.len() as int),
            e.subrange(1, e.len() as int),
        ));
        lemma_error_count_is_flips(c.subrange(1, c.len() as int), e.subrange(1, e.len() as int));
    }
}

} // verus!
