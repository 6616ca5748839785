//! The recursive (infinite-impulse-response) separable Gaussian blur engine.
//!
//! Each channel of an RGBA image is smoothed independently: the channel is
//! lifted into a Q32 fixed-point scratch buffer, swept along the rows, then
//! along the columns, and written back. The buffer holds one `FIX_ONE` per
//! 8-bit level; normalising intensities to `[0, 1]` would only rescale a
//! linear filter's input and output by the same factor, so the engine works
//! on whole levels and truncates back to bytes at the end. One sweep applies the first-order
//! recurrence of the recursive Gaussian approximation; `steps`
//! forward/backward sweep pairs per axis approximate a true Gaussian of
//! standard deviation `sigma` on that axis.
//!
//! For a spread `sigma` and step count `steps` the closed-form derivation
//! gives the per-axis coefficients
//! `lambda = sigma^2 / (2 * steps)` and
//! `dnu = (1 + 2*lambda - sqrt(1 + 4*lambda)) / (2*lambda)`,
//! and corrects the gain of the raw recurrence `buf[i] += dnu * buf[i-1]`
//! by the global factor
//! `post_scale = (sqrt(dnu_x * dnu_y) / sqrt(lambda_x * lambda_y)) ^ (2*steps)`.
//! Two algebraic identities shape the computation here. First,
//! `dnu = 2*lambda / (1 + 2*lambda + sqrt(1 + 4*lambda))` — the conjugate
//! form of the same expression, which stays accurate in fixed point where
//! the original suffers cancellation for small `lambda`. Second,
//! `lambda * (1 - dnu)^2 = dnu` (from the defining quadratic of `dnu`), so
//! `post_scale` equals `((1 - dnu_x) * (1 - dnu_y)) ^ (2*steps)`: one factor
//! `(1 - dnu)` per sweep. The engine folds exactly that factor into each
//! sweep, turning the recurrence into the convex blend
//! `buf[i] = (1 - dnu) * buf[i] + dnu * buf[i-1]`, which is the raw sweep
//! followed by its share of the gain correction. In exact arithmetic the
//! result equals the raw recurrence followed by the global `post_scale`;
//! in fixed point it also keeps every intermediate value at or below the
//! largest channel intensity, so the arithmetic provably never overflows,
//! for every `sigma` and `steps`.
use vstd::prelude::*;
use vstd::pervasive::VecAdditionalExecFns;

use crate::fixed::{spec_mix, spec_damp, sqrt_floor, isqrt, mix, damp, FIX_ONE, MAX_LEVEL};
use crate::image::{Image, CHANNELS};

verus! {

/// Cap on `lambda` in Q32, set by overflow headroom: the square-root
/// argument `(FIX_ONE + 4 * lambda) * FIX_ONE` must fit in a `u128`. The
/// cap bites only for spreads of at least `sqrt(2 * steps) * 2^16` pixels
/// (about 1.9e5 at four steps); from there on the feedback coefficient is
/// pinned at its value at the cap, about `FIX_ONE - 2^16`, slightly below
/// what the closed form would give for the larger spread.
pub const LAMBDA_CAP: u128 = 0x1_0000_0000_0000_0000;

/// The per-axis smoothing weight `lambda = sigma^2 / (2 * steps)` in Q32,
/// capped at `LAMBDA_CAP`; `sigma == 0` makes it zero, and with it the
/// feedback coefficient, which disables the axis.
pub open spec fn spec_lambda(sigma: u64, steps: usize) -> int {
    let raw = (sigma * sigma) / (2 * steps * FIX_ONE);
    if raw > LAMBDA_CAP {
        LAMBDA_CAP as int
    } else {
        raw
    }
}

/// The feedback coefficient `dnu` of the recursive Gaussian recurrence in
/// Q32, computed in the cancellation-free conjugate form
/// `2*lambda / (1 + 2*lambda + sqrt(1 + 4*lambda))`.
pub open spec fn spec_dnu(sigma: u64, steps: usize) -> int {
    let lam = spec_lambda(sigma, steps);
    let s = sqrt_floor(((FIX_ONE + 4 * lam) * FIX_ONE) as nat);
    (2 * lam * FIX_ONE) / (FIX_ONE + 2 * lam + s)
}

/// Whether the axis with spread `sigma` filters at all: a zero feedback
/// coefficient makes every sweep the identity, so such an axis is skipped.
pub open spec fn spec_active(sigma: u64, steps: usize) -> bool {
    spec_dnu(sigma, steps) > 0
}

/// Derives the feedback coefficient for one axis: `None` when the axis does
/// not filter, otherwise the Q32 coefficient `dnu`, always below one.
pub fn axis_coefficient(sigma: u64, steps: usize) -> (r: Option<u64>)
    requires
        steps >= 1,
    ensures
        match r {
            Some(d) => {
                &&& spec_active(sigma, steps)
                &&& d == spec_dnu(sigma, steps)
                &&& 0 < d < FIX_ONE
            },
            None => !spec_active(sigma, steps),
        },
{
    let one: u128 = FIX_ONE as u128;
    let denom: u128 = 2 * (steps as u128) * one;
    proof {
        assert((sigma as int) * (sigma as int) < u128::MAX) by (nonlinear_arith)
            requires
                sigma <= u64::MAX,
        ;
    }
    let raw: u128 = ((sigma as u128) * (sigma as u128)) / denom;
    let lam: u128 = if raw > LAMBDA_CAP {
        LAMBDA_CAP
    } else {
        raw
    };
    if lam == 0 {
        proof {
            assert(spec_dnu(sigma, steps) == 0) by {
                assert(spec_lambda(sigma, steps) == 0);
                assert(2 * spec_lambda(sigma, steps) * FIX_ONE == 0);
            }
        }
        return None;
    }
    proof {
        assert((one + 4 * lam) * one < u128::MAX) by (nonlinear_arith)
            requires
                one == 0x1_0000_0000u128,
                0 < lam <= LAMBDA_CAP,
                LAMBDA_CAP == 0x1_0000_0000_0000_0000u128,
        ;
    }
    let sq_arg: u128 = (one + 4 * lam) * one;
    let s: u64 = isqrt(sq_arg);
    let num: u128 = 2 * lam * one;
    let den: u128 = one + 2 * lam + (s as u128);
    let d128: u128 = num / den;
    proof {
        assert(num < den * one) by (nonlinear_arith)
            requires
                num == 2 * lam * one,
                den == one + 2 * lam + (s as u128),
                one == 0x1_0000_0000u128,
                lam >= 0,
                s >= 0,
        ;
        assert(d128 < one) by (nonlinear_arith)
            requires
                num < den * one,
                den > 0,
                d128 == num / den,
        ;
    }
    if d128 == 0 {
        None
    } else {
        Some(d128 as u64)
    }
}

/// The integer values of a fixed-point buffer.
pub open spec fn to_int_seq(s: Seq<u64>) -> Seq<int> {
    s.map_values(|x: u64| x as int)
}

/// Every element of the buffer is a channel intensity.
pub open spec fn all_levels(s: Seq<u64>) -> bool {
    forall|i: int| 0 <= i < s.len() ==> s[i] <= MAX_LEVEL
}

/// Element `i` after one forward sweep with coefficient `d`: the first
/// sample blends with a missing neighbour, every later one with the
/// already-swept sample to its left.
pub open spec fn fwd_at(line: Seq<int>, d: int, i: int) -> int
    decreases i,
{
    if i <= 0 {
        spec_damp(line[0], d)
    } else {
        spec_mix(line[i], fwd_at(line, d, i - 1), d)
    }
}

/// One forward (left-to-right) sweep.
pub open spec fn sweep_fwd(line: Seq<int>, d: int) -> Seq<int> {
    Seq::new(line.len(), |i: int| fwd_at(line, d, i))
}

/// Element `i` after one backward sweep: the mirror image of `fwd_at`.
pub open spec fn bwd_at(line: Seq<int>, d: int, i: int) -> int
    decreases line.len() - i,
{
    if i >= line.len() - 1 {
        spec_damp(line[line.len() - 1], d)
    } else {
        spec_mix(line[i], bwd_at(line, d, i + 1), d)
    }
}

/// One backward (right-to-left) sweep.
pub open spec fn sweep_bwd(line: Seq<int>, d: int) -> Seq<int> {
    Seq::new(line.len(), |i: int| bwd_at(line, d, i))
}

/// `steps` forward/backward sweep pairs along one line.
pub open spec fn filter_line(line: Seq<int>, d: int, steps: nat) -> Seq<int>
    decreases steps,
{
    if steps == 0 {
        line
    } else {
        sweep_bwd(sweep_fwd(filter_line(line, d, (steps - 1) as nat), d), d)
    }
}

/// Runs one forward sweep over the buffer, in place.
fn sweep_forward(v: &mut Vec<u64>, d: u64)
    requires
        old(v)@.len() > 0,
        d < FIX_ONE,
        all_levels(old(v)@),
    ensures
        final(v)@.len() == old(v)@.len(),
        to_int_seq(final(v)@) == sweep_fwd(to_int_seq(old(v)@), d as int),
        all_levels(final(v)@),
{
    let ghost orig = to_int_seq(old(v)@);
    let len = v.len();
    let first = damp(v[0], d);
    v.set(0, first);
    let mut x: usize = 1;
    while x < len
        invariant
            1 <= x <= len,
            len == v@.len(),
            len == orig.len(),
            d < FIX_ONE,
            forall|i: int| 0 <= i < x ==> v@[i] == fwd_at(orig, d as int, i),
            forall|i: int| x <= i < len ==> v@[i] == orig[i],
            all_levels(v@),
        decreases len - x,
    {
        let a = v[x];
        let b = v[x - 1];
        let val = mix(a, b, d);
        proof {
            assert(fwd_at(orig, d as int, x as int) == spec_mix(
                orig[x as int],
                fwd_at(orig, d as int, x as int - 1),
                d as int,
            ));
        }
        v.set(x, val);
        x += 1;
    }
    proof {
        assert(to_int_seq(v@) =~= sweep_fwd(orig, d as int));
    }
}

/// Runs one backward sweep over the buffer, in place.
fn sweep_backward(v: &mut Vec<u64>, d: u64)
    requires
        old(v)@.len() > 0,
        d < FIX_ONE,
        all_levels(old(v)@),
    ensures
        final(v)@.len() == old(v)@.len(),
        to_int_seq(final(v)@) == sweep_bwd(to_int_seq(old(v)@), d as int),
        all_levels(final(v)@),
{
    let ghost orig = to_int_seq(old(v)@);
    let len = v.len();
    let last = damp(v[len - 1], d);
    v.set(len - 1, last);
    let mut x: usize = len - 1;
    while x > 0
        invariant
            0 <= x <= len - 1,
            len == v@.len(),
            len == orig.len(),
            d < FIX_ONE,
            forall|i: int| x <= i < len ==> v@[i] == bwd_at(orig, d as int, i),
            forall|i: int| 0 <= i < x ==> v@[i] == orig[i],
            all_levels(v@),
        decreases x,
    {
        let a = v[x - 1];
        let b = v[x];
        let val = mix(a, b, d);
        proof {
            assert(bwd_at(orig, d as int, x as int - 1) == spec_mix(
                orig[x as int - 1],
                bwd_at(orig, d as int, x as int),
                d as int,
            ));
        }
        v.set(x - 1, val);
        x -= 1;
    }
    proof {
        assert(to_int_seq(v@) =~= sweep_bwd(orig, d as int));
    }
}

/// Recovers the coordinates of the cell `j == y * w + x` of a row-major
/// grid of width `w`.
pub proof fn lemma_grid_coords(j: int, w: int, x: int, y: int)
    requires
        w > 0,
        0 <= x < w,
        j == y * w + x,
    ensures
        j / w == y,
        j % w == x,
{
    vstd::arithmetic::div_mod::lemma_fundamental_div_mod_converse_div(j, w, y, x);
    vstd::arithmetic::div_mod::lemma_fundamental_div_mod_converse_mod(j, w, y, x);
}

/// Splits a cell index `j` of a row-major grid into its coordinates.
pub proof fn lemma_grid_decomp(j: int, w: int)
    requires
        w > 0,
        0 <= j,
    ensures
        j == (j / w) * w + (j % w),
        0 <= j % w < w,
        0 <= j / w,
{
    vstd::arithmetic::div_mod::lemma_fundamental_div_mod(j, w);
    vstd::arithmetic::div_mod::lemma_mod_bound(j, w);
    vstd::arithmetic::div_mod::lemma_div_pos_is_pos(j, w);
    vstd::arithmetic::mul::lemma_mul_is_commutative(j / w, w);
}

/// The coordinates of a cell of a `w` by `h` row-major grid lie inside the
/// grid.
pub proof fn lemma_grid_bounds(j: int, w: int, h: int)
    requires
        w > 0,
        h > 0,
        0 <= j < w * h,
    ensures
        j == (j / w) * w + (j % w),
        0 <= j % w < w,
        0 <= j / w < h,
{
    lemma_grid_decomp(j, w);
    if j / w >= h {
        assert((j / w) * w >= h * w) by (nonlinear_arith)
            requires
                j / w >= h,
                w > 0,
        ;
        assert(h * w == w * h) by (nonlinear_arith);
    }
}

/// A grid cell's index lies inside the row-major buffer.
pub proof fn lemma_cell_index(w: int, h: int, x: int, y: int)
    requires
        0 <= x < w,
        0 <= y < h,
    ensures
        0 <= y * w,
        y * w + x < w * h,
        (y + 1) * w == y * w + w,
{
    assert(0 <= y * w && y * w + x < w * h) by (nonlinear_arith)
        requires
            0 <= x < w,
            0 <= y < h,
    ;
    assert((y + 1) * w == y * w + w) by (nonlinear_arith);
}

/// Runs `steps` forward/backward sweep pairs over the buffer, in place.
fn run_line_filter(v: &mut Vec<u64>, d: u64, steps: usize)
    requires
        old(v)@.len() > 0,
        d < FIX_ONE,
        all_levels(old(v)@),
    ensures
        final(v)@.len() == old(v)@.len(),
        to_int_seq(final(v)@) == filter_line(to_int_seq(old(v)@), d as int, steps as nat),
        all_levels(final(v)@),
{
    let ghost orig = to_int_seq(old(v)@);
    let mut s: usize = 0;
    while s < steps
        invariant
            0 <= s <= steps,
            v@.len() == orig.len(),
            orig.len() > 0,
            d < FIX_ONE,
            to_int_seq(v@) == filter_line(orig, d as int, s as nat),
            all_levels(v@),
        decreases steps - s,
    {
        sweep_forward(v, d);
        sweep_backward(v, d);
        proof {
            assert(filter_line(orig, d as int, (s + 1) as nat) == sweep_bwd(
                sweep_fwd(filter_line(orig, d as int, s as nat), d as int),
                d as int,
            ));
        }
        s += 1;
    }
}

/// Row `y` of a row-major plane of width `w`.
pub open spec fn row_seq(p: Seq<int>, w: int, y: int) -> Seq<int> {
    Seq::new(w as nat, |x: int| p[y * w + x])
}

/// Column `x` of a row-major plane of width `w` and height `h`.
pub open spec fn col_seq(p: Seq<int>, w: int, h: int, x: int) -> Seq<int> {
    Seq::new(h as nat, |y: int| p[y * w + x])
}

/// The plane after every row is filtered along the horizontal axis.
pub open spec fn hfiltered(p: Seq<int>, w: int, d: int, steps: nat) -> Seq<int> {
    Seq::new(p.len(), |j: int| filter_line(row_seq(p, w, j / w), d, steps)[j % w])
}

/// The plane after every column is filtered along the vertical axis.
pub open spec fn vfiltered(p: Seq<int>, w: int, h: int, d: int, steps: nat) -> Seq<int> {
    Seq::new(p.len(), |j: int| filter_line(col_seq(p, w, h, j % w), d, steps)[j / w])
}

/// Copies row `y` of the plane into a fresh buffer.
fn copy_row(buf: &Vec<u64>, w: usize, h: usize, y: usize) -> (line: Vec<u64>)
    requires
        buf@.len() == w * h,
        w >= 1,
        y < h,
        all_levels(buf@),
    ensures
        line@.len() == w,
        to_int_seq(line@) == row_seq(to_int_seq(buf@), w as int, y as int),
        all_levels(line@),
{
    let n = buf.len();
    let mut line: Vec<u64> = Vec::new();
    let mut x: usize = 0;
    while x < w
        invariant
            x <= w,
            line@.len() == x,
            buf@.len() == w * h,
            n == w * h,
            w >= 1,
            y < h,
            all_levels(buf@),
            forall|i: int| 0 <= i < x ==> line@[i] == buf@[(y * w) as int + i],
        decreases w - x,
    {
        proof {
            lemma_cell_index(w as int, h as int, x as int, y as int);
        }
        line.push(buf[y * w + x]);
        x += 1;
    }
    proof {
        assert forall|i: int| 0 <= i < w implies #[trigger] line@[i] <= MAX_LEVEL by {
            lemma_cell_index(w as int, h as int, i, y as int);
            assert(line@[i] == buf@[(y * w) as int + i]);
        }
        assert forall|i: int| 0 <= i < w implies to_int_seq(line@)[i] == row_seq(
            to_int_seq(buf@),
            w as int,
            y as int,
        )[i] by {
            lemma_cell_index(w as int, h as int, i, y as int);
            assert(line@[i] == buf@[(y * w) as int + i]);
        }
        assert(to_int_seq(line@) =~= row_seq(to_int_seq(buf@), w as int, y as int));
    }
    line
}

/// Writes the buffer back as row `y` of the plane.
fn write_row(buf: &mut Vec<u64>, w: usize, h: usize, y: usize, line: &Vec<u64>)
    requires
        old(buf)@.len() == w * h,
        w >= 1,
        y < h,
        line@.len() == w,
    ensures
        final(buf)@.len() == w * h,
        forall|j: int|
            0 <= j < w * h ==> final(buf)@[j] == (if (y * w) as int <= j < (y * w) as int
                + w as int {
                line@[j - (y * w) as int]
            } else {
                old(buf)@[j]
            }),
{
    let n = buf.len();
    let mut x: usize = 0;
    while x < w
        invariant
            x <= w,
            buf@.len() == w * h,
            n == w * h,
            w >= 1,
            y < h,
            line@.len() == w,
            forall|j: int|
                0 <= j < w * h ==> buf@[j] == (if (y * w) as int <= j < (y * w) as int + x as int {
                    line@[j - (y * w) as int]
                } else {
                    old(buf)@[j]
                }),
        decreases w - x,
    {
        proof {
            lemma_cell_index(w as int, h as int, x as int, y as int);
        }
        buf.set(y * w + x, line[x]);
        x += 1;
    }
}

/// Copies column `x` of the plane into a fresh buffer.
fn copy_col(buf: &Vec<u64>, w: usize, h: usize, x: usize) -> (line: Vec<u64>)
    requires
        buf@.len() == w * h,
        h >= 1,
        x < w,
        all_levels(buf@),
    ensures
        line@.len() == h,
        to_int_seq(line@) == col_seq(to_int_seq(buf@), w as int, h as int, x as int),
        all_levels(line@),
{
    let n = buf.len();
    let mut line: Vec<u64> = Vec::new();
    let mut y: usize = 0;
    while y < h
        invariant
            y <= h,
            line@.len() == y,
            buf@.len() == w * h,
            n == w * h,
            h >= 1,
            x < w,
            all_levels(buf@),
            forall|i: int| 0 <= i < y ==> line@[i] == buf@[i * w + x as int],
        decreases h - y,
    {
        proof {
            lemma_cell_index(w as int, h as int, x as int, y as int);
        }
        line.push(buf[y * w + x]);
        y += 1;
    }
    proof {
        assert forall|i: int| 0 <= i < h implies #[trigger] line@[i] <= MAX_LEVEL by {
            lemma_cell_index(w as int, h as int, x as int, i);
            assert(line@[i] == buf@[i * w + x as int]);
        }
        assert forall|i: int| 0 <= i < h implies to_int_seq(line@)[i] == col_seq(
            to_int_seq(buf@),
            w as int,
            h as int,
            x as int,
        )[i] by {
            lemma_cell_index(w as int, h as int, x as int, i);
            assert(line@[i] == buf@[i * w + x as int]);
        }
        assert(to_int_seq(line@) =~= col_seq(to_int_seq(buf@), w as int, h as int, x as int));
    }
    line
}

/// Writes the buffer back as column `x` of the plane.
fn write_col(buf: &mut Vec<u64>, w: usize, h: usize, x: usize, line: &Vec<u64>)
    requires
        old(buf)@.len() == w * h,
        h >= 1,
        x < w,
        line@.len() == h,
    ensures
        final(buf)@.len() == w * h,
        forall|j: int|
            0 <= j < w * h ==> final(buf)@[j] == (if j % (w as int) == x as int {
                line@[j / (w as int)]
            } else {
                old(buf)@[j]
            }),
{
    let n = buf.len();
    let mut y: usize = 0;
    while y < h
        invariant
            y <= h,
            buf@.len() == w * h,
            n == w * h,
            h >= 1,
            x < w,
            line@.len() == h,
            forall|j: int|
                0 <= j < w * h ==> buf@[j] == (if j % (w as int) == x as int && j / (w as int)
                    < y as int {
                    line@[j / (w as int)]
                } else {
                    old(buf)@[j]
                }),
        decreases h - y,
    {
        proof {
            lemma_cell_index(w as int, h as int, x as int, y as int);
            lemma_grid_coords((y * w + x) as int, w as int, x as int, y as int);
        }
        buf.set(y * w + x, line[y]);
        proof {
            assert forall|j: int|
                0 <= j < w * h implies buf@[j] == (if j % (w as int) == x as int && j / (w as int)
                < y as int + 1 {
                line@[j / (w as int)]
            } else {
                old(buf)@[j]
            }) by {
                lemma_grid_decomp(j, w as int);
                if j % (w as int) == x as int && j / (w as int) == y as int {
                    assert(j == y * w + x);
                }
            }
        }
        y += 1;
    }
    proof {
        assert forall|j: int| 0 <= j < w * h implies #[trigger] buf@[j] == (if j % (w as int)
            == x as int {
            line@[j / (w as int)]
        } else {
            old(buf)@[j]
        }) by {
            lemma_grid_decomp(j, w as int);
            if j / (w as int) >= h as int {
                assert((j / (w as int)) * (w as int) >= (h as int) * (w as int))
                    by (nonlinear_arith)
                    requires
                        j / (w as int) >= h as int,
                        w >= 1,
                ;
                assert((h as int) * (w as int) == w * h) by (nonlinear_arith);
            }
        }
    }
}

/// Filters every row of the plane along the horizontal axis, in place.
fn horizontal_pass(buf: &mut Vec<u64>, w: usize, h: usize, d: u64, steps: usize)
    requires
        old(buf)@.len() == w * h,
        w >= 1,
        h >= 1,
        d < FIX_ONE,
        all_levels(old(buf)@),
    ensures
        final(buf)@.len() == w * h,
        to_int_seq(final(buf)@) == hfiltered(
            to_int_seq(old(buf)@),
            w as int,
            d as int,
            steps as nat,
        ),
        all_levels(final(buf)@),
{
    let ghost orig = to_int_seq(old(buf)@);
    let ghost target = hfiltered(orig, w as int, d as int, steps as nat);
    let mut y: usize = 0;
    while y < h
        invariant
            y <= h,
            buf@.len() == w * h,
            orig.len() == w * h,
            w >= 1,
            h >= 1,
            d < FIX_ONE,
            all_levels(buf@),
            target == hfiltered(orig, w as int, d as int, steps as nat),
            forall|j: int|
                0 <= j < w * h ==> buf@[j] == (if j / (w as int) < y as int {
                    target[j]
                } else {
                    orig[j]
                }),
        decreases h - y,
    {
        let mut line = copy_row(buf, w, h, y);
        proof {
            assert forall|i: int|
                0 <= i < w implies row_seq(to_int_seq(buf@), w as int, y as int)[i] == row_seq(
                orig,
                w as int,
                y as int,
            )[i] by {
                lemma_cell_index(w as int, h as int, i, y as int);
                lemma_grid_coords(y as int * w as int + i, w as int, i, y as int);
            }
            assert(row_seq(to_int_seq(buf@), w as int, y as int) =~= row_seq(
                orig,
                w as int,
                y as int,
            ));
        }
        run_line_filter(&mut line, d, steps);
        write_row(buf, w, h, y, &line);
        proof {
            assert forall|j: int|
                0 <= j < w * h implies buf@[j] == (if j / (w as int) < y as int + 1 {
                target[j]
            } else {
                orig[j]
            }) by {
                lemma_grid_bounds(j, w as int, h as int);
                if (y * w) as int <= j < (y * w) as int + w as int {
                    lemma_grid_coords(j, w as int, j - (y * w) as int, y as int);
                    assert(buf@[j] == line@[j - (y * w) as int]);
                    assert(j - (y * w) as int == j % (w as int));
                    assert(target[j] == filter_line(
                        row_seq(orig, w as int, j / (w as int)),
                        d as int,
                        steps as nat,
                    )[j % (w as int)]);
                } else {
                    assert(j / (w as int) != y as int) by {
                        if j / (w as int) == y as int {
                            assert(j == (j / (w as int)) * (w as int) + (j % (w as int)));
                            assert((y * w) as int <= j < (y * w) as int + w as int);
                        }
                    }
                }
            }
        }
        y += 1;
    }
    proof {
        assert forall|j: int| 0 <= j < w * h implies buf@[j] == target[j] by {
            lemma_grid_bounds(j, w as int, h as int);
        }
        assert(to_int_seq(buf@) =~= target);
    }
}

/// Filters every column of the plane along the vertical axis, in place.
fn vertical_pass(buf: &mut Vec<u64>, w: usize, h: usize, d: u64, steps: usize)
    requires
        old(buf)@.len() == w * h,
        w >= 1,
        h >= 1,
        d < FIX_ONE,
        all_levels(old(buf)@),
    ensures
        final(buf)@.len() == w * h,
        to_int_seq(final(buf)@) == vfiltered(
            to_int_seq(old(buf)@),
            w as int,
            h as int,
            d as int,
            steps as nat,
        ),
        all_levels(final(buf)@),
{
    let ghost orig = to_int_seq(old(buf)@);
    let ghost target = vfiltered(orig, w as int, h as int, d as int, steps as nat);
    let mut x: usize = 0;
    while x < w
        invariant
            x <= w,
            buf@.len() == w * h,
            orig.len() == w * h,
            w >= 1,
            h >= 1,
            d < FIX_ONE,
            all_levels(buf@),
            target == vfiltered(orig, w as int, h as int, d as int, steps as nat),
            forall|j: int|
                0 <= j < w * h ==> buf@[j] == (if j % (w as int) < x as int {
                    target[j]
                } else {
                    orig[j]
                }),
        decreases w - x,
    {
        let mut line = copy_col(buf, w, h, x);
        proof {
            assert forall|i: int|
                0 <= i < h implies col_seq(to_int_seq(buf@), w as int, h as int, x as int)[i]
                == col_seq(orig, w as int, h as int, x as int)[i] by {
                lemma_cell_index(w as int, h as int, x as int, i);
                lemma_grid_coords(i * w as int + x as int, w as int, x as int, i);
            }
            assert(col_seq(to_int_seq(buf@), w as int, h as int, x as int) =~= col_seq(
                orig,
                w as int,
                h as int,
                x as int,
            ));
        }
        run_line_filter(&mut line, d, steps);
        write_col(buf, w, h, x, &line);
        proof {
            assert forall|j: int|
                0 <= j < w * h implies buf@[j] == (if j % (w as int) < x as int + 1 {
                target[j]
            } else {
                orig[j]
            }) by {
                lemma_grid_bounds(j, w as int, h as int);
            }
            assert forall|j: int| 0 <= j < w * h implies #[trigger] buf@[j] <= MAX_LEVEL by {
                lemma_grid_bounds(j, w as int, h as int);
            }
        }
        x += 1;
    }
    proof {
        assert forall|j: int| 0 <= j < w * h implies buf@[j] == target[j] by {
            lemma_grid_decomp(j, w as int);
        }
        assert(to_int_seq(buf@) =~= target);
    }
}

/// The index of channel `c` of pixel `i` lies inside the interleaved data.
pub proof fn lemma_chan_index(n: int, i: int, c: int)
    requires
        0 <= i < n,
        0 <= c < CHANNELS,
    ensures
        0 <= i * CHANNELS + c < n * CHANNELS,
        (i * CHANNELS + c) / (CHANNELS as int) == i,
        (i * CHANNELS + c) % (CHANNELS as int) == c,
{
    lemma_cell_index(CHANNELS as int, n, c, i);
    vstd::arithmetic::mul::lemma_mul_is_commutative(CHANNELS as int, n);
    lemma_grid_coords(i * CHANNELS + c, CHANNELS as int, c, i);
}

/// A channel intensity maps back to an 8-bit level.
pub proof fn lemma_level_to_byte(a: int)
    requires
        0 <= a <= MAX_LEVEL,
    ensures
        0 <= a / (FIX_ONE as int) <= 255,
{
    vstd::arithmetic::div_mod::lemma_div_is_ordered(a, MAX_LEVEL as int, FIX_ONE as int);
    assert((MAX_LEVEL as int) / (FIX_ONE as int) == 255);
    vstd::arithmetic::div_mod::lemma_div_pos_is_pos(a, FIX_ONE as int);
}

/// Channel `c` of the image data lifted into Q32 intensities, one entry per
/// pixel.
pub open spec fn spec_plane(data: Seq<u8>, n: int, c: int) -> Seq<int> {
    Seq::new(n as nat, |i: int| data[i * CHANNELS + c] * FIX_ONE)
}

/// Channel `c` of the image after both axes are filtered: the horizontal
/// pass runs only for an active `sigma_x`, the vertical pass only for an
/// active `sigma_y`.
pub open spec fn spec_blur_plane(
    data: Seq<u8>,
    w: int,
    h: int,
    sigma_x: u64,
    sigma_y: u64,
    steps: usize,
    c: int,
) -> Seq<int> {
    let p0 = spec_plane(data, w * h, c);
    let p1 = if spec_active(sigma_x, steps) {
        hfiltered(p0, w, spec_dnu(sigma_x, steps), steps as nat)
    } else {
        p0
    };
    if spec_active(sigma_y, steps) {
        vfiltered(p1, w, h, spec_dnu(sigma_y, steps), steps as nat)
    } else {
        p1
    }
}

/// The blurred image data: every channel filtered independently and
/// truncated back to 8-bit levels.
pub open spec fn spec_blur_data(
    data: Seq<u8>,
    w: int,
    h: int,
    sigma_x: u64,
    sigma_y: u64,
    steps: usize,
) -> Seq<u8> {
    Seq::new(
        (w * h * CHANNELS) as nat,
        |j: int|
            (spec_blur_plane(data, w, h, sigma_x, sigma_y, steps, j % (CHANNELS as int))[j / (
            CHANNELS as int)] / (FIX_ONE as int)) as u8,
    )
}

/// Copies channel `c` of the interleaved data into a fresh Q32 buffer.
fn extract_channel(data: &Vec<u8>, n: usize, c: usize) -> (v: Vec<u64>)
    requires
        data@.len() == n * CHANNELS,
        c < CHANNELS,
    ensures
        v@.len() == n,
        to_int_seq(v@) == spec_plane(data@, n as int, c as int),
        all_levels(v@),
{
    let total = data.len();
    let mut v: Vec<u64> = Vec::new();
    let mut i: usize = 0;
    while i < n
        invariant
            i <= n,
            v@.len() == i,
            data@.len() == n * CHANNELS,
            total == n * CHANNELS,
            c < CHANNELS,
            forall|k: int|
                0 <= k < i ==> v@[k] == data@[k * CHANNELS + c as int] * FIX_ONE && v@[k]
                    <= MAX_LEVEL,
        decreases n - i,
    {
        proof {
            lemma_chan_index(n as int, i as int, c as int);
        }
        v.push((data[i * CHANNELS + c] as u64) * FIX_ONE);
        i += 1;
    }
    proof {
        assert forall|k: int| 0 <= k < n implies to_int_seq(v@)[k] == spec_plane(
            data@,
            n as int,
            c as int,
        )[k] by {
            lemma_chan_index(n as int, k, c as int);
        }
        assert(to_int_seq(v@) =~= spec_plane(data@, n as int, c as int));
    }
    v
}

/// Truncates the Q32 buffer back into channel `c` of the interleaved data.
fn write_channel(data: &mut Vec<u8>, n: usize, c: usize, v: &Vec<u64>)
    requires
        old(data)@.len() == n * CHANNELS,
        c < CHANNELS,
        v@.len() == n,
        all_levels(v@),
    ensures
        final(data)@.len() == n * CHANNELS,
        forall|j: int|
            0 <= j < n * CHANNELS ==> final(data)@[j] == (if j % (CHANNELS as int) == c as int {
                ((v@[j / (CHANNELS as int)] as int) / (FIX_ONE as int)) as u8
            } else {
                old(data)@[j]
            }),
{
    let total = data.len();
    let mut i: usize = 0;
    while i < n
        invariant
            i <= n,
            data@.len() == n * CHANNELS,
            total == n * CHANNELS,
            c < CHANNELS,
            v@.len() == n,
            all_levels(v@),
            forall|j: int|
                0 <= j < n * CHANNELS ==> data@[j] == (if j % (CHANNELS as int) == c as int && j / (
                CHANNELS as int) < i as int {
                    ((v@[j / (CHANNELS as int)] as int) / (FIX_ONE as int)) as u8
                } else {
                    old(data)@[j]
                }),
        decreases n - i,
    {
        proof {
            lemma_chan_index(n as int, i as int, c as int);
            lemma_level_to_byte(v@[i as int] as int);
        }
        let level = v[i] / FIX_ONE;
        data.set(i * CHANNELS + c, level as u8);
        proof {
            assert forall|j: int|
                0 <= j < n * CHANNELS implies data@[j] == (if j % (CHANNELS as int) == c as int
                && j / (CHANNELS as int) < i as int + 1 {
                ((v@[j / (CHANNELS as int)] as int) / (FIX_ONE as int)) as u8
            } else {
                old(data)@[j]
            }) by {
                lemma_grid_decomp(j, CHANNELS as int);
                if j % (CHANNELS as int) == c as int && j / (CHANNELS as int) == i as int {
                    assert(j == i * CHANNELS + c);
                }
            }
        }
        i += 1;
    }
    proof {
        assert forall|j: int|
            0 <= j < n * CHANNELS implies data@[j] == (if j % (CHANNELS as int) == c as int {
            ((v@[j / (CHANNELS as int)] as int) / (FIX_ONE as int)) as u8
        } else {
            old(data)@[j]
        }) by {
            vstd::arithmetic::mul::lemma_mul_is_commutative(CHANNELS as int, n as int);
            lemma_grid_bounds(j, CHANNELS as int, n as int);
        }
    }
}

/// Rejected inputs: the blur accepts only images with at least one pixel.
#[derive(Clone, Copy, Debug, PartialEq, Eq, Structural)]
pub enum BlurError {
    EmptyImage,
}

/// Blurs the image: every channel is filtered independently along the
/// horizontal axis with spread `sigma_x` and along the vertical axis with
/// spread `sigma_y` (in Q32 fixed point; `fixed::FIX_ONE` is a spread of
/// one pixel), running `steps` forward/backward sweep pairs per axis. A
/// spread of zero disables its axis. Images without pixels are rejected
/// before any work.
pub fn blur(sigma_x: u64, sigma_y: u64, steps: usize, src: Image) -> (r: Result<Image, BlurError>)
    requires
        src.valid(),
        steps >= 1,
    ensures
        match r {
            Ok(out) => {
                &&& src.width > 0
                &&& src.height > 0
                &&& out.valid()
                &&& out.width == src.width
                &&& out.height == src.height
                &&& out.data@ == spec_blur_data(
                    src.data@,
                    src.width as int,
                    src.height as int,
                    sigma_x,
                    sigma_y,
                    steps,
                )
            },
            Err(e) => {
                &&& (src.width == 0 || src.height == 0)
                &&& e == BlurError::EmptyImage
            },
        },
{
    let w = src.width;
    let h = src.height;
    if w == 0 || h == 0 {
        return Err(BlurError::EmptyImage);
    }
    let mut data = src.data;
    let total = data.len();
    proof {
        assert(total == w * h * CHANNELS);
        assert(w * h <= w * h * CHANNELS) by (nonlinear_arith)
            requires
                w * h >= 0,
        ;
    }
    let n = w * h;
    let ghost sdata = src.data@;
    let ghost target = spec_blur_data(sdata, w as int, h as int, sigma_x, sigma_y, steps);
    let dx = axis_coefficient(sigma_x, steps);
    let dy = axis_coefficient(sigma_y, steps);
    let mut c: usize = 0;
    while c < CHANNELS
        invariant
            c <= CHANNELS,
            data@.len() == n * CHANNELS,
            sdata.len() == n * CHANNELS,
            n == w * h,
            w >= 1,
            h >= 1,
            steps >= 1,
            target == spec_blur_data(sdata, w as int, h as int, sigma_x, sigma_y, steps),
            target.len() == n * CHANNELS,
            (match dx {
                Some(d) => spec_active(sigma_x, steps) && d == spec_dnu(sigma_x, steps) && 0 < d
                    < FIX_ONE,
                None => !spec_active(sigma_x, steps),
            }),
            (match dy {
                Some(d) => spec_active(sigma_y, steps) && d == spec_dnu(sigma_y, steps) && 0 < d
                    < FIX_ONE,
                None => !spec_active(sigma_y, steps),
            }),
            forall|j: int|
                0 <= j < n * CHANNELS ==> data@[j] == (if j % (CHANNELS as int) < c as int {
                    target[j]
                } else {
                    sdata[j]
                }),
        decreases CHANNELS - c,
    {
        let ghost plane_target = spec_blur_plane(
            sdata,
            w as int,
            h as int,
            sigma_x,
            sigma_y,
            steps,
            c as int,
        );
        let mut plane = extract_channel(&data, n, c);
        proof {
            assert forall|k: int| 0 <= k < n implies spec_plane(data@, n as int, c as int)[k]
                == spec_plane(sdata, n as int, c as int)[k] by {
                lemma_chan_index(n as int, k, c as int);
            }
            assert(spec_plane(data@, n as int, c as int) =~= spec_plane(sdata, n as int, c as int));
        }
        if let Some(d) = dx {
            horizontal_pass(&mut plane, w, h, d, steps);
        }
        proof {
            vstd::arithmetic::mul::lemma_mul_is_commutative(w as int, h as int);
        }
        if let Some(d) = dy {
            vertical_pass(&mut plane, w, h, d, steps);
        }
        proof {
            assert(to_int_seq(plane@) == plane_target);
        }
        write_channel(&mut data, n, c, &plane);
        proof {
            assert forall|j: int|
                0 <= j < n * CHANNELS implies data@[j] == (if j % (CHANNELS as int) < c as int
                + 1 {
                target[j]
            } else {
                sdata[j]
            }) by {
                vstd::arithmetic::mul::lemma_mul_is_commutative(CHANNELS as int, n as int);
                lemma_grid_bounds(j, CHANNELS as int, n as int);
                assert(w * h * CHANNELS == n * CHANNELS);
            }
        }
        c += 1;
    }
    proof {
        assert forall|j: int| 0 <= j < n * CHANNELS implies data@[j] == target[j] by {
            vstd::arithmetic::mul::lemma_mul_is_commutative(CHANNELS as int, n as int);
            lemma_grid_bounds(j, CHANNELS as int, n as int);
        }
        assert(data@ =~= target);
        assert(w * h * CHANNELS == n * CHANNELS);
    }
    Ok(Image { width: w, height: h, data })
}

} // verus!
