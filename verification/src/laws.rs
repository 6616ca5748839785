//! Laws of the blur engine, stated and proved over its specification.
//!
//! Together with the contract of [`crate::blur::blur`] — whose output equals
//! `spec_blur_data` of its inputs — each law here carries over to the
//! executable engine.
use vstd::prelude::*;

use crate::blur::{
    spec_blur_data,
    spec_blur_plane,
    spec_plane,
    spec_dnu,
    spec_lambda,
    spec_active,
    filter_line,
    sweep_fwd,
    sweep_bwd,
    fwd_at,
    bwd_at,
    hfiltered,
    vfiltered,
    row_seq,
    col_seq,
    lemma_grid_coords,
    lemma_grid_bounds,
    lemma_cell_index,
    lemma_chan_index,
};
use crate::fixed::{lemma_mix_bound, spec_mix, FIX_ONE, FIX_HALF};
use crate::image::CHANNELS;

verus! {

/// A spread of zero leaves its axis inactive.
pub proof fn lemma_zero_sigma_inactive(steps: usize)
    requires
        steps >= 1,
    ensures
        !spec_active(0, steps),
{
    assert(spec_lambda(0, steps) == 0) by {
        assert((0 as u64) * (0 as u64) == 0);
        assert(0int / (2 * steps * FIX_ONE) == 0) by (nonlinear_arith)
            requires
                2 * steps * FIX_ONE > 0,
        ;
    }
    assert(spec_dnu(0, steps) == 0) by {
        let lam = spec_lambda(0, steps);
        let s = crate::fixed::sqrt_floor(((FIX_ONE + 4 * lam) * FIX_ONE) as nat);
        assert(2 * lam * FIX_ONE == 0);
        assert(0int / (FIX_ONE + 2 * lam + s) == 0) by (nonlinear_arith)
            requires
                FIX_ONE + 2 * lam + s > 0,
        ;
    }
}

/// **Identity.** Blurring with both spreads zero returns the image data
/// unchanged, exactly: no axis filters, and the lifted intensities truncate
/// back to the original 8-bit levels.
pub proof fn lemma_blur_identity(data: Seq<u8>, w: int, h: int, steps: usize)
    requires
        data.len() == w * h * CHANNELS,
        w >= 1,
        h >= 1,
        steps >= 1,
    ensures
        spec_blur_data(data, w, h, 0, 0, steps) == data,
{
    lemma_zero_sigma_inactive(steps);
    let out = spec_blur_data(data, w, h, 0, 0, steps);
    assert forall|j: int| 0 <= j < w * h * CHANNELS implies out[j] == data[j] by {
        vstd::arithmetic::mul::lemma_mul_is_commutative(w * h, CHANNELS as int);
        lemma_grid_bounds(j, CHANNELS as int, w * h);
        let i = j / (CHANNELS as int);
        let c = j % (CHANNELS as int);
        assert(spec_blur_plane(data, w, h, 0, 0, steps, c) == spec_plane(data, w * h, c));
        assert(spec_plane(data, w * h, c)[i] == data[i * CHANNELS + c] * FIX_ONE);
        assert((data[j] * FIX_ONE) / (FIX_ONE as int) == data[j]) by (nonlinear_arith)
            requires
                FIX_ONE > 0,
                data[j] >= 0,
                data[i * CHANNELS + c] == data[j],
                i * CHANNELS + c == j,
        ;
    }
    assert(out =~= data);
}

/// **Determinism.** The blurred data is a function of the image data and
/// the parameters alone: equal inputs give equal outputs, byte for byte.
pub proof fn lemma_blur_deterministic(
    a: Seq<u8>,
    b: Seq<u8>,
    w: int,
    h: int,
    sigma_x: u64,
    sigma_y: u64,
    steps: usize,
)
    requires
        a == b,
    ensures
        spec_blur_data(a, w, h, sigma_x, sigma_y, steps) == spec_blur_data(
            b,
            w,
            h,
            sigma_x,
            sigma_y,
            steps,
        ),
{
}

/// **Axis independence, horizontal.** With the vertical axis disabled,
/// a pixel of the output depends only on the input row it lies in: two
/// images that agree on row `y` produce outputs that agree on row `y`,
/// whatever their other rows hold.
pub proof fn lemma_blur_row_local(
    d1: Seq<u8>,
    d2: Seq<u8>,
    w: int,
    h: int,
    sigma_x: u64,
    steps: usize,
    y: int,
)
    requires
        d1.len() == w * h * CHANNELS,
        d2.len() == w * h * CHANNELS,
        w >= 1,
        h >= 1,
        steps >= 1,
        0 <= y < h,
        forall|x: int, c: int|
            0 <= x < w && 0 <= c < CHANNELS ==> #[trigger] d1[(y * w + x) * CHANNELS + c]
                == d2[(y * w + x) * CHANNELS + c],
    ensures
        forall|x: int, c: int|
            0 <= x < w && 0 <= c < CHANNELS ==> #[trigger] spec_blur_data(d1, w, h, sigma_x, 0, steps)[(y * w
                + x) * CHANNELS + c] == spec_blur_data(d2, w, h, sigma_x, 0, steps)[(y * w + x)
                * CHANNELS + c],
{
    lemma_zero_sigma_inactive(steps);
    assert forall|x: int, c: int|
        0 <= x < w && 0 <= c < CHANNELS implies #[trigger] spec_blur_data(
        d1,
        w,
        h,
        sigma_x,
        0,
        steps,
    )[(y * w + x) * CHANNELS + c] == spec_blur_data(d2, w, h, sigma_x, 0, steps)[(y * w + x)
        * CHANNELS + c] by {
        let i = y * w + x;
        let j = i * CHANNELS + c;
        lemma_cell_index(w, h, x, y);
        lemma_chan_index(w * h, i, c);
        assert(0 <= j < w * h * CHANNELS) by (nonlinear_arith)
            requires
                0 <= i < w * h,
                0 <= c < CHANNELS,
                j == i * CHANNELS + c,
        ;
        lemma_grid_coords(i, w, x, y);
        // Row y of the two lifted planes agrees.
        assert forall|x2: int| 0 <= x2 < w implies #[trigger] row_seq(
            spec_plane(d1, w * h, c),
            w,
            y,
        )[x2] == row_seq(spec_plane(d2, w * h, c), w, y)[x2] by {
            lemma_cell_index(w, h, x2, y);
            lemma_chan_index(w * h, y * w + x2, c);
        }
        assert(row_seq(spec_plane(d1, w * h, c), w, y) =~= row_seq(spec_plane(d2, w * h, c), w, y));
        if spec_active(sigma_x, steps) {
            let d = spec_dnu(sigma_x, steps);
            assert(spec_blur_plane(d1, w, h, sigma_x, 0, steps, c)[i] == filter_line(
                row_seq(spec_plane(d1, w * h, c), w, y),
                d,
                steps as nat,
            )[x]);
            assert(spec_blur_plane(d2, w, h, sigma_x, 0, steps, c)[i] == filter_line(
                row_seq(spec_plane(d2, w * h, c), w, y),
                d,
                steps as nat,
            )[x]);
        } else {
            lemma_chan_index(w * h, i, c);
        }
    }
}

/// **Axis independence, vertical.** With the horizontal axis disabled,
/// a pixel of the output depends only on the input column it lies in.
pub proof fn lemma_blur_col_local(
    d1: Seq<u8>,
    d2: Seq<u8>,
    w: int,
    h: int,
    sigma_y: u64,
    steps: usize,
    x: int,
)
    requires
        d1.len() == w * h * CHANNELS,
        d2.len() == w * h * CHANNELS,
        w >= 1,
        h >= 1,
        steps >= 1,
        0 <= x < w,
        forall|y: int, c: int|
            0 <= y < h && 0 <= c < CHANNELS ==> #[trigger] d1[(y * w + x) * CHANNELS + c]
                == d2[(y * w + x) * CHANNELS + c],
    ensures
        forall|y: int, c: int|
            0 <= y < h && 0 <= c < CHANNELS ==> #[trigger] spec_blur_data(d1, w, h, 0, sigma_y, steps)[(y * w
                + x) * CHANNELS + c] == spec_blur_data(d2, w, h, 0, sigma_y, steps)[(y * w + x)
                * CHANNELS + c],
{
    lemma_zero_sigma_inactive(steps);
    assert forall|y: int, c: int|
        0 <= y < h && 0 <= c < CHANNELS implies #[trigger] spec_blur_data(
        d1,
        w,
        h,
        0,
        sigma_y,
        steps,
    )[(y * w + x) * CHANNELS + c] == spec_blur_data(d2, w, h, 0, sigma_y, steps)[(y * w + x)
        * CHANNELS + c] by {
        let i = y * w + x;
        let j = i * CHANNELS + c;
        lemma_cell_index(w, h, x, y);
        lemma_chan_index(w * h, i, c);
        assert(0 <= j < w * h * CHANNELS) by (nonlinear_arith)
            requires
                0 <= i < w * h,
                0 <= c < CHANNELS,
                j == i * CHANNELS + c,
        ;
        lemma_grid_coords(i, w, x, y);
        // Column x of the two lifted planes agrees.
        assert forall|y2: int| 0 <= y2 < h implies #[trigger] col_seq(
            spec_plane(d1, w * h, c),
            w,
            h,
            x,
        )[y2] == col_seq(spec_plane(d2, w * h, c), w, h, x)[y2] by {
            lemma_cell_index(w, h, x, y2);
            lemma_chan_index(w * h, y2 * w + x, c);
        }
        assert(col_seq(spec_plane(d1, w * h, c), w, h, x) =~= col_seq(
            spec_plane(d2, w * h, c),
            w,
            h,
            x,
        ));
        if spec_active(sigma_y, steps) {
            let d = spec_dnu(sigma_y, steps);
            assert(spec_blur_plane(d1, w, h, 0, sigma_y, steps, c)[i] == filter_line(
                col_seq(spec_plane(d1, w * h, c), w, h, x),
                d,
                steps as nat,
            )[y]);
            assert(spec_blur_plane(d2, w, h, 0, sigma_y, steps, c)[i] == filter_line(
                col_seq(spec_plane(d2, w * h, c), w, h, x),
                d,
                steps as nat,
            )[y]);
        } else {
            lemma_chan_index(w * h, i, c);
        }
    }
}


/// The feedback coefficient always lies in `0 ..= FIX_ONE - 1`, whatever
/// the spread and step count.
pub proof fn lemma_dnu_bounds(sigma: u64, steps: usize)
    requires
        steps >= 1,
    ensures
        0 <= spec_dnu(sigma, steps) < FIX_ONE,
{
    let lam = spec_lambda(sigma, steps);
    assert(0 <= lam) by {
        assert((sigma as int) * (sigma as int) >= 0) by (nonlinear_arith);
        vstd::arithmetic::div_mod::lemma_div_pos_is_pos(
            (sigma as int) * (sigma as int),
            2 * steps * FIX_ONE,
        );
    }
    let s = crate::fixed::sqrt_floor(((FIX_ONE + 4 * lam) * FIX_ONE) as nat);
    let num = 2 * lam * FIX_ONE;
    let den = FIX_ONE + 2 * lam + s;
    assert(0 <= num) by (nonlinear_arith)
        requires
            lam >= 0,
            num == 2 * lam * FIX_ONE,
    ;
    vstd::arithmetic::div_mod::lemma_div_pos_is_pos(num, den);
    assert(num < den * FIX_ONE) by (nonlinear_arith)
        requires
            num == 2 * lam * FIX_ONE,
            den == FIX_ONE + 2 * lam + s,
            lam >= 0,
            s >= 0,
    ;
    assert(num / den < FIX_ONE) by (nonlinear_arith)
        requires
            num < den * (FIX_ONE as int),
            den > 0,
            num >= 0,
    ;
}

/// All values of a line lie within `0 ..= m`.
pub open spec fn line_within(line: Seq<int>, m: int) -> bool {
    forall|i: int| 0 <= i < line.len() ==> 0 <= #[trigger] line[i] <= m
}

proof fn lemma_fwd_at_within(line: Seq<int>, d: int, m: int, i: int)
    requires
        line_within(line, m),
        0 <= d <= FIX_ONE,
        0 <= m,
        0 <= i < line.len(),
    ensures
        0 <= fwd_at(line, d, i) <= m,
    decreases i,
{
    if i <= 0 {
        lemma_mix_bound(line[0], 0, d, m);
    } else {
        lemma_fwd_at_within(line, d, m, i - 1);
        lemma_mix_bound(line[i], fwd_at(line, d, i - 1), d, m);
    }
}

proof fn lemma_bwd_at_within(line: Seq<int>, d: int, m: int, i: int)
    requires
        line_within(line, m),
        0 <= d <= FIX_ONE,
        0 <= m,
        0 <= i < line.len(),
    ensures
        0 <= bwd_at(line, d, i) <= m,
    decreases line.len() - i,
{
    if i >= line.len() - 1 {
        lemma_mix_bound(line[line.len() - 1], 0, d, m);
    } else {
        lemma_bwd_at_within(line, d, m, i + 1);
        lemma_mix_bound(line[i], bwd_at(line, d, i + 1), d, m);
    }
}

/// Sweeping never carries a line outside `0 ..= m`.
proof fn lemma_filter_line_within(line: Seq<int>, d: int, m: int, steps: nat)
    requires
        line_within(line, m),
        0 <= d <= FIX_ONE,
        0 <= m,
    ensures
        line_within(filter_line(line, d, steps), m),
        filter_line(line, d, steps).len() == line.len(),
    decreases steps,
{
    if steps > 0 {
        lemma_filter_line_within(line, d, m, (steps - 1) as nat);
        let prev = filter_line(line, d, (steps - 1) as nat);
        let swept = sweep_fwd(prev, d);
        assert forall|i: int| 0 <= i < swept.len() implies 0 <= #[trigger] swept[i] <= m by {
            lemma_fwd_at_within(prev, d, m, i);
        }
        assert forall|i: int|
            0 <= i < sweep_bwd(swept, d).len() implies 0 <= #[trigger] sweep_bwd(swept, d)[i]
            <= m by {
            lemma_bwd_at_within(swept, d, m, i);
        }
    }
}

/// **No overshoot.** No output byte exceeds the brightest byte of its
/// input: blurring redistributes intensity and never brightens past the
/// peak.
pub proof fn lemma_blur_no_overshoot(
    data: Seq<u8>,
    w: int,
    h: int,
    sigma_x: u64,
    sigma_y: u64,
    steps: usize,
    m: int,
)
    requires
        data.len() == w * h * CHANNELS,
        w >= 1,
        h >= 1,
        steps >= 1,
        0 <= m <= 255,
        forall|j: int| 0 <= j < data.len() ==> data[j] <= m,
    ensures
        forall|j: int|
            0 <= j < w * h * CHANNELS ==> #[trigger] spec_blur_data(
                data,
                w,
                h,
                sigma_x,
                sigma_y,
                steps,
            )[j] <= m,
{
    lemma_dnu_bounds(sigma_x, steps);
    lemma_dnu_bounds(sigma_y, steps);
    let bound = m * FIX_ONE;
    assert forall|c: int|
        0 <= c < CHANNELS implies line_within(
        spec_blur_plane(data, w, h, sigma_x, sigma_y, steps, c),
        bound,
    ) && spec_blur_plane(data, w, h, sigma_x, sigma_y, steps, c).len() == w * h by {
        let p0 = spec_plane(data, w * h, c);
        assert forall|i: int| 0 <= i < p0.len() implies 0 <= #[trigger] p0[i] <= bound by {
            vstd::arithmetic::mul::lemma_mul_is_commutative(w * h, CHANNELS as int);
            lemma_grid_bounds(i * CHANNELS + c, CHANNELS as int, w * h);
            assert(0 <= i * CHANNELS + c < w * h * CHANNELS) by (nonlinear_arith)
                requires
                    0 <= i < w * h,
                    0 <= c < CHANNELS,
            ;
            assert(data[i * CHANNELS + c] * FIX_ONE <= m * FIX_ONE) by (nonlinear_arith)
                requires
                    0 <= data[i * CHANNELS + c] <= m,
                    FIX_ONE > 0,
            ;
        }
        let p1 = if spec_active(sigma_x, steps) {
            hfiltered(p0, w, spec_dnu(sigma_x, steps), steps as nat)
        } else {
            p0
        };
        assert(line_within(p1, bound) && p1.len() == p0.len()) by {
            if spec_active(sigma_x, steps) {
                let d = spec_dnu(sigma_x, steps);
                assert forall|j: int| 0 <= j < p1.len() implies 0 <= #[trigger] p1[j] <= bound by {
                    lemma_grid_bounds(j, w, h);
                    let row = row_seq(p0, w, j / w);
                    assert forall|x2: int| 0 <= x2 < row.len() implies 0 <= #[trigger] row[x2]
                        <= bound by {
                        lemma_cell_index(w, h, x2, j / w);
                    }
                    lemma_filter_line_within(row, d, bound, steps as nat);
                }
            }
        }
        let p2 = if spec_active(sigma_y, steps) {
            vfiltered(p1, w, h, spec_dnu(sigma_y, steps), steps as nat)
        } else {
            p1
        };
        assert(line_within(p2, bound) && p2.len() == p1.len()) by {
            if spec_active(sigma_y, steps) {
                let d = spec_dnu(sigma_y, steps);
                assert forall|j: int| 0 <= j < p2.len() implies 0 <= #[trigger] p2[j] <= bound by {
                    lemma_grid_bounds(j, w, h);
                    let col = col_seq(p1, w, h, j % w);
                    assert forall|y2: int| 0 <= y2 < col.len() implies 0 <= #[trigger] col[y2]
                        <= bound by {
                        lemma_cell_index(w, h, j % w, y2);
                    }
                    lemma_filter_line_within(col, d, bound, steps as nat);
                }
            }
        }
    }
    assert forall|j: int|
        0 <= j < w * h * CHANNELS implies #[trigger] spec_blur_data(
        data,
        w,
        h,
        sigma_x,
        sigma_y,
        steps,
    )[j] <= m by {
        vstd::arithmetic::mul::lemma_mul_is_commutative(CHANNELS as int, w * h);
        lemma_grid_bounds(j, CHANNELS as int, w * h);
        let c = j % (CHANNELS as int);
        let i = j / (CHANNELS as int);
        let p = spec_blur_plane(data, w, h, sigma_x, sigma_y, steps, c);
        assert(0 <= p[i] <= m * FIX_ONE);
        vstd::arithmetic::div_mod::lemma_div_is_ordered(p[i], m * FIX_ONE, FIX_ONE as int);
        assert((m * FIX_ONE) / (FIX_ONE as int) == m) by (nonlinear_arith)
            requires
                FIX_ONE > 0,
        ;
        vstd::arithmetic::div_mod::lemma_div_pos_is_pos(p[i], FIX_ONE as int);
    }
}

/// The blend of a sample with an equal neighbour is exact: `(1-d)*v + d*v`
/// rounds back to `v` for every coefficient. This is the normalisation at
/// the heart of uniform-image stability: a sample whose neighbourhood has
/// settled at `v` is left at `v` by every further sweep, with no gain or
/// loss; only samples still reached by the boundary decay move, and the
/// crate's runtime checks bound that movement on a uniform image's interior
/// to one 8-bit level.
pub proof fn lemma_blend_of_equals_is_exact(v: int, d: int)
    requires
        0 <= v,
        0 <= d <= FIX_ONE,
    ensures
        spec_mix(v, v, d) == v,
{
    assert((FIX_ONE - d) * v + d * v + FIX_HALF == FIX_ONE * v + FIX_HALF) by (nonlinear_arith);
    vstd::arithmetic::mul::lemma_mul_is_commutative(FIX_ONE as int, v);
    vstd::arithmetic::div_mod::lemma_fundamental_div_mod_converse_div(
        v * (FIX_ONE as int) + FIX_HALF,
        FIX_ONE as int,
        v,
        FIX_HALF as int,
    );
}

} // verus!
