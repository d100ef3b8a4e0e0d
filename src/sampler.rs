//! The adaptive multi-resolution sampler: an initial pass samples the centre
//! of every coarse cell, and each fill pass refines the grid, copying a
//! cell's centre where it agrees with its neighbours and sampling afresh
//! where it does not. Samples come from a caller's function of the pixel
//! position, so every result here holds whatever that function returns.
use vstd::prelude::*;

use crate::raster::{
    find_max_deviation, get_px, get_px_checked, in_buffer, in_image, lemma_in_image_in_buffer,
    opaque, pixel, set_px, sq_difference, ColorInt,
};

verus! {

/// Coordinate `x` is the centre of its cell in a grid of `step`-pixel cells.
pub open spec fn on_coarse_grid(step: int, x: int) -> bool {
    x % step == step / 2
}

/// Pixel `(x, y)` holds what `sample` returned for it, with alpha forced to
/// fully opaque.
pub open spec fn sampled_at<F: Fn(usize, usize) -> ColorInt>(
    sample: F,
    data: Seq<u8>,
    width: int,
    x: int,
    y: int,
) -> bool {
    exists|c: ColorInt|
        #[trigger] sample.ensures((x as usize, y as usize), c) && pixel(data, width, x, y) == opaque(c@)
}

/// What the initial pass leaves in pixel `(x, y)`: a fresh sample at each
/// cell centre of the `step` grid, the earlier bytes everywhere else.
pub open spec fn init_result<F: Fn(usize, usize) -> ColorInt>(
    before: Seq<u8>,
    after: Seq<u8>,
    width: int,
    step: int,
    sample: F,
    x: int,
    y: int,
) -> bool {
    if on_coarse_grid(step, x) && on_coarse_grid(step, y) {
        sampled_at(sample, after, width, x, y)
    } else {
        pixel(after, width, x, y) == pixel(before, width, x, y)
    }
}

/// A coordinate splits into its cell index and its offset inside the cell.
proof fn lemma_split(step: int, x: int)
    requires
        step > 0,
        x >= 0,
    ensures
        x == (x / step) * step + x % step,
        0 <= x % step < step,
        x / step >= 0,
{
    assert(x == (x / step) * step + x % step && 0 <= x % step < step && x / step >= 0) by (nonlinear_arith)
        requires
            step > 0,
            x >= 0,
    ;
}

/// Multiplying both sides of `a <= b` by the same positive `step`.
proof fn lemma_mul_mono(a: int, b: int, step: int)
    requires
        a <= b,
        step > 0,
    ensures
        a * step <= b * step,
{
    assert(a * step <= b * step) by (nonlinear_arith)
        requires
            a <= b,
            step > 0,
    ;
}

/// Progress of the initial pass once the cells of rows before `j`, and of row
/// `j` up to column `i`, are written: those pixels hold their final value and
/// all others are as before.
spec fn init_state<F: Fn(usize, usize) -> ColorInt>(
    before: Seq<u8>,
    after: Seq<u8>,
    width: int,
    step: int,
    sample: F,
    j: int,
    i: int,
    x: int,
    y: int,
) -> bool {
    if y / step < j || (y / step == j && x / step < i) {
        init_result(before, after, width, step, sample, x, y)
    } else {
        pixel(after, width, x, y) == pixel(before, width, x, y)
    }
}

/// A cell size that divides a positive length is no larger than it.
proof fn lemma_divisor_le(len: int, step: int)
    requires
        len > 0,
        step > 0,
        len % step == 0,
    ensures
        step <= len,
{
    lemma_split(step, len);
    if len / step < 1 {
        assert(len / step == 0);
    } else {
        lemma_mul_mono(1, len / step, step);
    }
}

/// The initial pass: samples the centre of every `step` by `step` cell, at
/// offset `step / 2` in each direction, and writes it into the buffer.
pub fn init_sample_grid<F: Fn(usize, usize) -> ColorInt>(
    data: &mut Vec<u8>,
    width: usize,
    height: usize,
    step: usize,
    sample: &F,
)
    requires
        step > 0,
        width % step == 0,
        height % step == 0,
        old(data)@.len() == width * height * 4,
        forall|x: usize, y: usize| x < width && y < height ==> sample.requires((x, y)),
    ensures
        final(data)@.len() == old(data)@.len(),
        forall|x: int, y: int|
            in_image(width as int, height as int, x, y) ==> #[trigger] init_result(
                old(data)@,
                final(data)@,
                width as int,
                step as int,
                *sample,
                x,
                y,
            ),
{
    let ghost before = data@;
    if width == 0 {
        return;
    }
    let len = data.len();
    proof {
        lemma_divisor_le(width as int, step as int);
        if height > 0 {
            lemma_divisor_le(height as int, step as int);
            assert(height * 1 <= width * height && width * 1 <= width * height) by (nonlinear_arith)
                requires
                    height >= 1,
                    width >= 1,
            ;
        }
    }
    let half = step / 2;
    let mut cy = half;
    let ghost mut j: int = 0;
    while cy < height
        invariant
            j >= 0,
            width > 0,
            len == before.len(),
            height > 0 ==> step <= height && height * 4 <= len && width * 4 <= len && step <= width,
            cy == j * step + half,
            half == step / 2,
            step > 0,
            width % step == 0,
            before.len() == width * height * 4,
            data@.len() == before.len(),
            forall|x: usize, y: usize| x < width && y < height ==> sample.requires((x, y)),
            forall|x: int, y: int|
                in_image(width as int, height as int, x, y) ==> #[trigger] init_state(
                    before,
                    data@,
                    width as int,
                    step as int,
                    *sample,
                    j,
                    0,
                    x,
                    y,
                ),
        decreases height + step - cy,
    {
        let mut cx = half;
        let ghost mut i: int = 0;
        while cx < width
            invariant
                i >= 0,
                j >= 0,
                cx == i * step + half,
                cy == j * step + half,
                cy < height,
                half == step / 2,
                step > 0,
                step <= width,
                step <= height,
                width * 4 <= len,
                height * 4 <= len,
                len == before.len(),
                before.len() == width * height * 4,
                data@.len() == before.len(),
                forall|x: usize, y: usize| x < width && y < height ==> sample.requires((x, y)),
                forall|x: int, y: int|
                    in_image(width as int, height as int, x, y) ==> #[trigger] init_state(
                        before,
                        data@,
                        width as int,
                        step as int,
                        *sample,
                        j,
                        i,
                        x,
                        y,
                    ),
            decreases width + step - cx,
        {
            let c = sample(cx, cy);
            let ghost mid = data@;
            proof {
                lemma_in_image_in_buffer(data@, width as int, height as int, cx as int, cy as int);
            }
            set_px(data, width, cx, cy, c);
            proof {
                vstd::arithmetic::div_mod::lemma_fundamental_div_mod_converse(
                    cx as int,
                    step as int,
                    i,
                    half as int,
                );
                vstd::arithmetic::div_mod::lemma_fundamental_div_mod_converse(
                    cy as int,
                    step as int,
                    j,
                    half as int,
                );
                assert forall|x: int, y: int|
                    in_image(width as int, height as int, x, y) implies #[trigger] init_state(
                    before,
                    data@,
                    width as int,
                    step as int,
                    *sample,
                    j,
                    i + 1,
                    x,
                    y,
                ) by {
                    lemma_in_image_in_buffer(mid, width as int, height as int, x, y);
                    lemma_split(step as int, x);
                    lemma_split(step as int, y);
                    assert(init_state(before, mid, width as int, step as int, *sample, j, i, x, y));
                    if x == cx && y == cy {
                        assert(sample.ensures((x as usize, y as usize), c));
                    } else {
                        assert(pixel(data@, width as int, x, y) == pixel(mid, width as int, x, y));
                    }
                }
            }
            cx = cx + step;
            proof {
                assert((i + 1) * step == i * step + step) by (nonlinear_arith);
                i = i + 1;
            }
        }
        proof {
            assert forall|x: int, y: int|
                in_image(width as int, height as int, x, y) implies #[trigger] init_state(
                before,
                data@,
                width as int,
                step as int,
                *sample,
                j + 1,
                0,
                x,
                y,
            ) by {
                lemma_split(step as int, x);
                lemma_split(step as int, y);
                assert(init_state(before, data@, width as int, step as int, *sample, j, i, x, y));
                if y / (step as int) == j && x / (step as int) >= i {
                    lemma_mul_mono(i, x / (step as int), step as int);
                }
            }
        }
        cy = cy + step;
        proof {
            assert((j + 1) * step == j * step + step) by (nonlinear_arith);
            j = j + 1;
        }
    }
    proof {
        assert forall|x: int, y: int|
            in_image(width as int, height as int, x, y) implies #[trigger] init_result(
            before,
            data@,
            width as int,
            step as int,
            *sample,
            x,
            y,
        ) by {
            lemma_split(step as int, x);
            lemma_split(step as int, y);
            assert(init_state(before, data@, width as int, step as int, *sample, j, 0, x, y));
            if y / (step as int) >= j {
                lemma_mul_mono(j, y / (step as int), step as int);
            }
        }
    }
}

/// Coordinate `x` lies on the fine grid of a fill pass: its offset inside its
/// `step` cell is `substep / 2` plus a multiple of `substep`.
pub open spec fn on_fine_grid(step: int, substep: int, x: int) -> bool {
    x % step >= substep / 2 && (x % step - substep / 2) % substep == 0
}

/// Position of `x` along the fine grid inside its cell.
pub open spec fn fine_index(step: int, substep: int, x: int) -> int {
    (x % step - substep / 2) / substep
}

/// Pixel `(x, y)` is written by a fill pass: it lies on the fine grid in both
/// directions and is not the centre of its cell, which is never rewritten.
pub open spec fn fill_target(step: int, substep: int, x: int, y: int) -> bool {
    on_fine_grid(step, substep, x) && on_fine_grid(step, substep, y) && !(on_coarse_grid(step, x)
        && on_coarse_grid(step, y))
}

/// Pixels `(x, y)` and `(cx, cy)` lie in the same `step` by `step` cell.
pub open spec fn same_cell(step: int, cx: int, cy: int, x: int, y: int) -> bool {
    x / step == cx / step && y / step == cy / step
}

/// What filling the cell around `(cx, cy)` leaves in pixel `(x, y)`: every
/// pixel of the cell that the pass writes holds a fresh sample when
/// `resample`, and `center` (alpha forced opaque) otherwise; all other pixels
/// keep their bytes.
pub open spec fn cell_fill_result<F: Fn(usize, usize) -> ColorInt>(
    before: Seq<u8>,
    after: Seq<u8>,
    width: int,
    step: int,
    substep: int,
    cx: int,
    cy: int,
    resample: bool,
    center: Seq<u8>,
    sample: F,
    x: int,
    y: int,
) -> bool {
    if same_cell(step, cx, cy, x, y) && fill_target(step, substep, x, y) {
        if resample {
            sampled_at(sample, after, width, x, y)
        } else {
            pixel(after, width, x, y) == opaque(center)
        }
    } else {
        pixel(after, width, x, y) == pixel(before, width, x, y)
    }
}

/// Progress of filling one cell once its fine rows before `a`, and row `a`
/// up to fine column `b`, are written.
spec fn cell_state<F: Fn(usize, usize) -> ColorInt>(
    before: Seq<u8>,
    after: Seq<u8>,
    width: int,
    step: int,
    substep: int,
    cx: int,
    cy: int,
    resample: bool,
    center: Seq<u8>,
    sample: F,
    a: int,
    b: int,
    x: int,
    y: int,
) -> bool {
    if same_cell(step, cx, cy, x, y) && fill_target(step, substep, x, y) && (fine_index(
        step,
        substep,
        y,
    ) < a || (fine_index(step, substep, y) == a && fine_index(step, substep, x) < b)) {
        cell_fill_result(before, after, width, step, substep, cx, cy, resample, center, sample, x, y)
    } else {
        pixel(after, width, x, y) == pixel(before, width, x, y)
    }
}

/// A coordinate on the fine grid is its cell's origin, plus `substep / 2`,
/// plus its fine index times `substep`.
proof fn lemma_fine_coord(step: int, substep: int, x: int)
    requires
        step > 0,
        substep > 0,
        x >= 0,
        on_fine_grid(step, substep, x),
    ensures
        x % step == substep / 2 + fine_index(step, substep, x) * substep,
        x == (x / step) * step + x % step,
        fine_index(step, substep, x) >= 0,
        0 <= x % step < step,
{
    lemma_split(step, x);
    lemma_split(substep, x % step - substep / 2);
}

/// The coordinate at fine index `b` of cell `k` is on the fine grid, in cell
/// `k`, with fine index `b`.
proof fn lemma_fine_point(step: int, substep: int, k: int, b: int)
    requires
        step > 0,
        substep > 0,
        k >= 0,
        b >= 0,
        substep / 2 + b * substep < step,
    ensures
        on_fine_grid(step, substep, k * step + substep / 2 + b * substep),
        fine_index(step, substep, k * step + substep / 2 + b * substep) == b,
        (k * step + substep / 2 + b * substep) / step == k,
        (k * step + substep / 2 + b * substep) % step == substep / 2 + b * substep,
{
    assert(b * substep >= 0) by (nonlinear_arith)
        requires
            b >= 0,
            substep > 0,
    ;
    vstd::arithmetic::div_mod::lemma_fundamental_div_mod_converse(
        k * step + substep / 2 + b * substep,
        step,
        k,
        substep / 2 + b * substep,
    );
    vstd::arithmetic::div_mod::lemma_fundamental_div_mod_converse(b * substep, substep, b, 0);
}

/// Fills the cell around the coarse sample at `(cx, cy)`: each position of
/// the fine grid inside it, other than the centre, gets a fresh sample when
/// `resample`, and a copy of `center` otherwise.
fn fill_cell<F: Fn(usize, usize) -> ColorInt>(
    data: &mut Vec<u8>,
    width: usize,
    height: usize,
    step: usize,
    substep: usize,
    cx: usize,
    cy: usize,
    resample: bool,
    center: ColorInt,
    sample: &F,
)
    requires
        step % 2 == 1,
        0 < substep <= step,
        width % step == 0,
        height % step == 0,
        in_image(width as int, height as int, cx as int, cy as int),
        on_coarse_grid(step as int, cx as int),
        on_coarse_grid(step as int, cy as int),
        old(data)@.len() == width * height * 4,
        forall|x: usize, y: usize| x < width && y < height ==> sample.requires((x, y)),
    ensures
        final(data)@.len() == old(data)@.len(),
        forall|x: int, y: int|
            in_image(width as int, height as int, x, y) ==> #[trigger] cell_fill_result(
                old(data)@,
                final(data)@,
                width as int,
                step as int,
                substep as int,
                cx as int,
                cy as int,
                resample,
                center@,
                *sample,
                x,
                y,
            ),
{
    let ghost before = data@;
    let ghost w = width as int;
    let ghost st = step as int;
    let ghost sst = substep as int;
    let ghost kx = cx as int / st;
    let ghost ky = cy as int / st;
    let half = step / 2;
    let sub_half = substep / 2;
    let len = data.len();
    proof {
        lemma_split(st, cx as int);
        lemma_split(st, cy as int);
        lemma_split(st, width as int);
        lemma_split(st, height as int);
        if width as int / st <= kx {
            lemma_mul_mono(width as int / st, kx, st);
        }
        if height as int / st <= ky {
            lemma_mul_mono(height as int / st, ky, st);
        }
        lemma_mul_mono(kx + 1, width as int / st, st);
        lemma_mul_mono(ky + 1, height as int / st, st);
        assert((kx + 1) * st == kx * st + st) by (nonlinear_arith);
        assert((ky + 1) * st == ky * st + st) by (nonlinear_arith);
        assert(height * 1 <= width * height && width * 1 <= width * height) by (nonlinear_arith)
            requires
                height >= 1,
                width >= 1,
        ;
    }
    let mut sy = cy - half + sub_half;
    let ghost mut a: int = 0;
    while sy <= cy + half
        invariant
            a >= 0,
            sy == ky * st + sub_half + a * sst,
            cy == ky * st + half,
            cx == kx * st + half,
            kx >= 0,
            ky >= 0,
            kx == cx as int / st,
            ky == cy as int / st,
            cx + half < width,
            cy + half < height,
            width * 4 <= len,
            height * 4 <= len,
            half == step / 2,
            sub_half == substep / 2,
            step % 2 == 1,
            0 < substep <= step,
            st == step,
            sst == substep,
            w == width,
            len == before.len(),
            before.len() == width * height * 4,
            data@.len() == before.len(),
            forall|x: usize, y: usize| x < width && y < height ==> sample.requires((x, y)),
            forall|x: int, y: int|
                in_image(width as int, height as int, x, y) ==> #[trigger] cell_state(
                    before,
                    data@,
                    w,
                    st,
                    sst,
                    cx as int,
                    cy as int,
                    resample,
                    center@,
                    *sample,
                    a,
                    0,
                    x,
                    y,
                ),
        decreases cy + half + substep - sy,
    {
        let mut sx = cx - half + sub_half;
        let ghost mut b: int = 0;
        proof {
            lemma_fine_point(st, sst, ky, a);
        }
        while sx <= cx + half
            invariant
                a >= 0,
                b >= 0,
                sy == ky * st + sub_half + a * sst,
                sx == kx * st + sub_half + b * sst,
                sy <= cy + half,
                cy == ky * st + half,
                cx == kx * st + half,
                kx >= 0,
                ky >= 0,
                kx == cx as int / st,
                ky == cy as int / st,
                cx + half < width,
                cy + half < height,
                width * 4 <= len,
                height * 4 <= len,
                half == step / 2,
                sub_half == substep / 2,
                step % 2 == 1,
                0 < substep <= step,
                st == step,
                sst == substep,
                w == width,
                len == before.len(),
                before.len() == width * height * 4,
                data@.len() == before.len(),
                forall|x: usize, y: usize| x < width && y < height ==> sample.requires((x, y)),
                forall|x: int, y: int|
                    in_image(width as int, height as int, x, y) ==> #[trigger] cell_state(
                        before,
                        data@,
                        w,
                        st,
                        sst,
                        cx as int,
                        cy as int,
                        resample,
                        center@,
                        *sample,
                        a,
                        b,
                        x,
                        y,
                    ),
            decreases cx + half + substep - sx,
        {
            let ghost mid = data@;
            proof {
                lemma_fine_point(st, sst, kx, b);
                lemma_fine_point(st, sst, ky, a);
            }
            if sx != cx || sy != cy {
                let color = if resample {
                    sample(sx, sy)
                } else {
                    center
                };
                proof {
                    lemma_in_image_in_buffer(data@, w, height as int, sx as int, sy as int);
                }
                set_px(data, width, sx, sy, color);
                proof {
                    assert forall|x: int, y: int|
                        in_image(width as int, height as int, x, y) implies #[trigger] cell_state(
                        before,
                        data@,
                        w,
                        st,
                        sst,
                        cx as int,
                        cy as int,
                        resample,
                        center@,
                        *sample,
                        a,
                        b + 1,
                        x,
                        y,
                    ) by {
                        lemma_in_image_in_buffer(mid, w, height as int, x, y);
                        lemma_split(st, x);
                        lemma_split(st, y);
                        assert(cell_state(
                            before,
                            mid,
                            w,
                            st,
                            sst,
                            cx as int,
                            cy as int,
                            resample,
                            center@,
                            *sample,
                            a,
                            b,
                            x,
                            y,
                        ));
                        if same_cell(st, cx as int, cy as int, x, y) && fill_target(st, sst, x, y) {
                            lemma_fine_coord(st, sst, x);
                            lemma_fine_coord(st, sst, y);
                        }
                        if x == sx && y == sy {
                            assert(sx as int == kx * st + sst / 2 + b * sst);
                            assert(sy as int == ky * st + sst / 2 + a * sst);
                            if resample {
                                assert(sample.ensures((x as usize, y as usize), color));
                            }
                        } else {
                            assert(pixel(data@, w, x, y) == pixel(mid, w, x, y));
                            if same_cell(st, cx as int, cy as int, x, y) && fill_target(st, sst, x, y)
                                && fine_index(st, sst, y) == a && fine_index(st, sst, x) == b {
                                assert(x % st == sst / 2 + b * sst);
                                assert((x / st) * st == kx * st);
                                assert((y / st) * st == ky * st);
                                assert(x == sx);
                                assert(false);
                            }
                        }
                    }
                }
            } else {
                proof {
                    assert forall|x: int, y: int|
                        in_image(width as int, height as int, x, y) implies #[trigger] cell_state(
                        before,
                        data@,
                        w,
                        st,
                        sst,
                        cx as int,
                        cy as int,
                        resample,
                        center@,
                        *sample,
                        a,
                        b + 1,
                        x,
                        y,
                    ) by {
                        lemma_split(st, x);
                        lemma_split(st, y);
                        assert(cell_state(
                            before,
                            data@,
                            w,
                            st,
                            sst,
                            cx as int,
                            cy as int,
                            resample,
                            center@,
                            *sample,
                            a,
                            b,
                            x,
                            y,
                        ));
                        if same_cell(st, cx as int, cy as int, x, y) && fill_target(st, sst, x, y) {
                            lemma_fine_coord(st, sst, x);
                            lemma_fine_coord(st, sst, y);
                        }
                    }
                }
            }
            sx = sx + substep;
            proof {
                assert((b + 1) * sst == b * sst + sst) by (nonlinear_arith);
                b = b + 1;
            }
        }
        proof {
            assert forall|x: int, y: int|
                in_image(width as int, height as int, x, y) implies #[trigger] cell_state(
                before,
                data@,
                w,
                st,
                sst,
                cx as int,
                cy as int,
                resample,
                center@,
                *sample,
                a + 1,
                0,
                x,
                y,
            ) by {
                lemma_split(st, x);
                lemma_split(st, y);
                assert(cell_state(
                    before,
                    data@,
                    w,
                    st,
                    sst,
                    cx as int,
                    cy as int,
                    resample,
                    center@,
                    *sample,
                    a,
                    b,
                    x,
                    y,
                ));
                if same_cell(st, cx as int, cy as int, x, y) && fill_target(st, sst, x, y) {
                    lemma_fine_coord(st, sst, x);
                    lemma_fine_coord(st, sst, y);
                    if fine_index(st, sst, x) >= b {
                        lemma_mul_mono(b, fine_index(st, sst, x), sst);
                    }
                }
            }
        }
        sy = sy + substep;
        proof {
            assert((a + 1) * sst == a * sst + sst) by (nonlinear_arith);
            a = a + 1;
        }
    }
    proof {
        assert forall|x: int, y: int|
            in_image(width as int, height as int, x, y) implies #[trigger] cell_fill_result(
            before,
            data@,
            w,
            st,
            sst,
            cx as int,
            cy as int,
            resample,
            center@,
            *sample,
            x,
            y,
        ) by {
            lemma_split(st, x);
            lemma_split(st, y);
            assert(cell_state(
                before,
                data@,
                w,
                st,
                sst,
                cx as int,
                cy as int,
                resample,
                center@,
                *sample,
                a,
                0,
                x,
                y,
            ));
            if same_cell(st, cx as int, cy as int, x, y) && fill_target(st, sst, x, y) {
                lemma_fine_coord(st, sst, x);
                lemma_fine_coord(st, sst, y);
                if fine_index(st, sst, y) >= a {
                    lemma_mul_mono(a, fine_index(st, sst, y), sst);
                }
            }
        }
    }
}

/// The centre of the `step` by `step` cell that holds coordinate `x`.
pub open spec fn cell_center(step: int, x: int) -> int {
    (x / step) * step + step / 2
}

/// The cell around the coarse sample at `(cx, cy)` may reuse it: all four
/// axis neighbours at distance `step` lie in the image, and none differs from
/// the centre by more than `max_sq_deviation` (see `sq_difference`).
pub open spec fn cell_uniform(
    data: Seq<u8>,
    width: int,
    height: int,
    step: int,
    cx: int,
    cy: int,
    max_sq_deviation: int,
) -> bool {
    let c = pixel(data, width, cx, cy);
    &&& in_image(width, height, cx, cy - step)
    &&& in_image(width, height, cx + step, cy)
    &&& in_image(width, height, cx, cy + step)
    &&& in_image(width, height, cx - step, cy)
    &&& sq_difference(c, pixel(data, width, cx, cy - step)) <= max_sq_deviation
    &&& sq_difference(c, pixel(data, width, cx + step, cy)) <= max_sq_deviation
    &&& sq_difference(c, pixel(data, width, cx, cy + step)) <= max_sq_deviation
    &&& sq_difference(c, pixel(data, width, cx - step, cy)) <= max_sq_deviation
}

/// What a fill pass leaves in pixel `(x, y)`. A pixel that the pass writes
/// holds a copy of its cell's centre (alpha forced opaque) where the cell is
/// uniform in `before`, and a fresh sample where it is not; every other pixel
/// keeps its bytes.
pub open spec fn fill_result<F: Fn(usize, usize) -> ColorInt>(
    before: Seq<u8>,
    after: Seq<u8>,
    width: int,
    height: int,
    step: int,
    substep: int,
    max_sq_deviation: int,
    sample: F,
    x: int,
    y: int,
) -> bool {
    let cx = cell_center(step, x);
    let cy = cell_center(step, y);
    if fill_target(step, substep, x, y) {
        if cell_uniform(before, width, height, step, cx, cy, max_sq_deviation) {
            pixel(after, width, x, y) == opaque(pixel(before, width, cx, cy))
        } else {
            sampled_at(sample, after, width, x, y)
        }
    } else {
        pixel(after, width, x, y) == pixel(before, width, x, y)
    }
}

/// Progress of a fill pass once the cells of rows before `j`, and of row `j`
/// up to column `i`, are filled.
spec fn fill_state<F: Fn(usize, usize) -> ColorInt>(
    before: Seq<u8>,
    after: Seq<u8>,
    width: int,
    height: int,
    step: int,
    substep: int,
    max_sq_deviation: int,
    sample: F,
    j: int,
    i: int,
    x: int,
    y: int,
) -> bool {
    if y / step < j || (y / step == j && x / step < i) {
        fill_result(before, after, width, height, step, substep, max_sq_deviation, sample, x, y)
    } else {
        pixel(after, width, x, y) == pixel(before, width, x, y)
    }
}

/// In a buffer of `width * height` pixels, a pixel of the buffer is a pixel of
/// the image.
proof fn lemma_in_buffer_in_image(data: Seq<u8>, width: int, height: int, x: int, y: int)
    requires
        in_buffer(data, width, x, y),
        data.len() == width * height * 4,
    ensures
        in_image(width, height, x, y),
{
    if y >= height {
        assert(height * width <= y * width) by (nonlinear_arith)
            requires
                height <= y,
                width >= 0,
        ;
        assert(width * height == height * width) by (nonlinear_arith);
    }
}

/// Between two multiples of `step` lies at least `step`.
proof fn lemma_next_multiple(a: int, len: int, step: int)
    requires
        step > 0,
        a >= 0,
        len % step == 0,
        len >= 0,
        a * step < len,
    ensures
        a * step + step <= len,
{
    lemma_split(step, len);
    let q = len / step;
    if q <= a {
        lemma_mul_mono(q, a, step);
    }
    lemma_mul_mono(a + 1, q, step);
    assert((a + 1) * step == a * step + step) by (nonlinear_arith);
}

/// Reads pixel `(x, y)`, or `None` where it lies outside the image.
fn neighbour(data: &Vec<u8>, width: usize, height: usize, x: usize, y: usize) -> (r: Option<ColorInt>)
    requires
        data@.len() == width * height * 4,
    ensures
        r is Some <==> in_image(width as int, height as int, x as int, y as int),
        r is Some ==> r->0@ == pixel(data@, width as int, x as int, y as int),
{
    let r = get_px_checked(data, width, x, y);
    proof {
        if r is Some {
            lemma_in_buffer_in_image(data@, width as int, height as int, x as int, y as int);
        }
        if in_image(width as int, height as int, x as int, y as int) {
            lemma_in_image_in_buffer(data@, width as int, height as int, x as int, y as int);
        }
    }
    r
}

/// A fill pass from cells of `step` pixels to a fine grid of `substep`
/// pixels. For each cell it compares the coarse sample at the centre with the
/// coarse samples of its four axis neighbours. Where a neighbour lies outside
/// the image, or deviates by more than `max_sq_deviation`, every fine position
/// of the cell is sampled afresh; otherwise each gets a copy of the centre.
/// The centre itself is never rewritten. `step` is odd, so that each cell has
/// a centre pixel, and the image is a whole number of cells in each direction.
pub fn fill_sample_grid<F: Fn(usize, usize) -> ColorInt>(
    data: &mut Vec<u8>,
    width: usize,
    height: usize,
    step: usize,
    substep: usize,
    max_sq_deviation: u32,
    sample: &F,
)
    requires
        step % 2 == 1,
        0 < substep <= step,
        width % step == 0,
        height % step == 0,
        old(data)@.len() == width * height * 4,
        forall|x: usize, y: usize| x < width && y < height ==> sample.requires((x, y)),
    ensures
        final(data)@.len() == old(data)@.len(),
        forall|x: int, y: int|
            in_image(width as int, height as int, x, y) ==> #[trigger] fill_result(
                old(data)@,
                final(data)@,
                width as int,
                height as int,
                step as int,
                substep as int,
                max_sq_deviation as int,
                *sample,
                x,
                y,
            ),
{
    let ghost before = data@;
    let ghost w = width as int;
    let ghost h = height as int;
    let ghost st = step as int;
    let ghost sst = substep as int;
    let ghost bound = max_sq_deviation as int;
    if width == 0 {
        return;
    }
    let len = data.len();
    proof {
        lemma_divisor_le(width as int, step as int);
        if height > 0 {
            lemma_divisor_le(height as int, step as int);
            assert(height * 1 <= width * height && width * 1 <= width * height) by (nonlinear_arith)
                requires
                    height >= 1,
                    width >= 1,
            ;
        }
    }
    let half = step / 2;
    let mut cy = half;
    let ghost mut j: int = 0;
    while cy < height
        invariant
            j >= 0,
            width > 0,
            cy == j * step + half,
            half == step / 2,
            step % 2 == 1,
            0 < substep <= step,
            width % step == 0,
            height % step == 0,
            w == width,
            h == height,
            st == step,
            sst == substep,
            bound == max_sq_deviation,
            j * step <= height,
            len == before.len(),
            height > 0 ==> step <= height && height * 4 <= len && width * 4 <= len && step <= width,
            before.len() == width * height * 4,
            data@.len() == before.len(),
            forall|x: usize, y: usize| x < width && y < height ==> sample.requires((x, y)),
            forall|x: int, y: int|
                in_image(w, h, x, y) ==> #[trigger] fill_state(
                    before,
                    data@,
                    w,
                    h,
                    st,
                    sst,
                    bound,
                    *sample,
                    j,
                    0,
                    x,
                    y,
                ),
        decreases height + step - cy,
    {
        let mut cx = half;
        let ghost mut i: int = 0;
        while cx < width
            invariant
                i >= 0,
                j >= 0,
                cx == i * step + half,
                cy == j * step + half,
                cy < height,
                half == step / 2,
                step % 2 == 1,
                0 < substep <= step,
                width % step == 0,
                height % step == 0,
                w == width,
                h == height,
                st == step,
                sst == substep,
                bound == max_sq_deviation,
                i * step <= width,
                j * step < height,
                step <= width,
                step <= height,
                width * 4 <= len,
                height * 4 <= len,
                len == before.len(),
                before.len() == width * height * 4,
                data@.len() == before.len(),
                forall|x: usize, y: usize| x < width && y < height ==> sample.requires((x, y)),
                forall|x: int, y: int|
                    in_image(w, h, x, y) ==> #[trigger] fill_state(
                        before,
                        data@,
                        w,
                        h,
                        st,
                        sst,
                        bound,
                        *sample,
                        j,
                        i,
                        x,
                        y,
                    ),
            decreases width + step - cx,
        {
            proof {
                vstd::arithmetic::div_mod::lemma_fundamental_div_mod_converse(
                    cx as int,
                    st,
                    i,
                    half as int,
                );
                vstd::arithmetic::div_mod::lemma_fundamental_div_mod_converse(
                    cy as int,
                    st,
                    j,
                    half as int,
                );
                lemma_in_image_in_buffer(data@, w, h, cx as int, cy as int);
            }
            let center = get_px(data, width, cx, cy);
            let top = if cy >= step {
                neighbour(data, width, height, cx, cy - step)
            } else {
                None
            };
            let right = neighbour(data, width, height, cx + step, cy);
            let bottom = neighbour(data, width, height, cx, cy + step);
            let left = if cx >= step {
                neighbour(data, width, height, cx - step, cy)
            } else {
                None
            };
            let resample = top.is_none() || right.is_none() || bottom.is_none() || left.is_none()
                || find_max_deviation(center, top, right, bottom, left) > max_sq_deviation;
            let ghost mid = data@;
            proof {
                // The centre and its neighbours are coarse samples, which the
                // pass never writes.
                let cxi = cx as int;
                let cyi = cy as int;
                assert(fill_state(before, mid, w, h, st, sst, bound, *sample, j, i, cxi, cyi));
                if in_image(w, h, cxi, cyi - st) {
                    assert(fill_state(before, mid, w, h, st, sst, bound, *sample, j, i, cxi, cyi - st));
                    assert((j - 1) * st == j * st - st) by (nonlinear_arith);
                    vstd::arithmetic::div_mod::lemma_fundamental_div_mod_converse(cyi - st, st, j - 1, half as int);
                }
                if in_image(w, h, cxi + st, cyi) {
                    assert(fill_state(before, mid, w, h, st, sst, bound, *sample, j, i, cxi + st, cyi));
                    assert((i + 1) * st == i * st + st) by (nonlinear_arith);
                    vstd::arithmetic::div_mod::lemma_fundamental_div_mod_converse(cxi + st, st, i + 1, half as int);
                }
                if in_image(w, h, cxi, cyi + st) {
                    assert(fill_state(before, mid, w, h, st, sst, bound, *sample, j, i, cxi, cyi + st));
                    assert((j + 1) * st == j * st + st) by (nonlinear_arith);
                    vstd::arithmetic::div_mod::lemma_fundamental_div_mod_converse(cyi + st, st, j + 1, half as int);
                }
                if in_image(w, h, cxi - st, cyi) {
                    assert(fill_state(before, mid, w, h, st, sst, bound, *sample, j, i, cxi - st, cyi));
                    assert((i - 1) * st == i * st - st) by (nonlinear_arith);
                    vstd::arithmetic::div_mod::lemma_fundamental_div_mod_converse(cxi - st, st, i - 1, half as int);
                }
                assert(resample == !cell_uniform(before, w, h, st, cxi, cyi, bound));
            }
            fill_cell(data, width, height, step, substep, cx, cy, resample, center, sample);
            proof {
                assert forall|x: int, y: int| in_image(w, h, x, y) implies #[trigger] fill_state(
                    before,
                    data@,
                    w,
                    h,
                    st,
                    sst,
                    bound,
                    *sample,
                    j,
                    i + 1,
                    x,
                    y,
                ) by {
                    lemma_split(st, x);
                    lemma_split(st, y);
                    assert(fill_state(before, mid, w, h, st, sst, bound, *sample, j, i, x, y));
                    assert(cell_fill_result(
                        mid,
                        data@,
                        w,
                        st,
                        sst,
                        cx as int,
                        cy as int,
                        resample,
                        center@,
                        *sample,
                        x,
                        y,
                    ));
                }
            }
            proof {
                lemma_next_multiple(i, w, st);
            }
            cx = cx + step;
            proof {
                assert((i + 1) * step == i * step + step) by (nonlinear_arith);
                i = i + 1;
            }
        }
        proof {
            if i * st < w {
                lemma_next_multiple(i, w, st);
            }
            lemma_next_multiple(j, h, st);
            assert forall|x: int, y: int| in_image(w, h, x, y) implies #[trigger] fill_state(
                before,
                data@,
                w,
                h,
                st,
                sst,
                bound,
                *sample,
                j + 1,
                0,
                x,
                y,
            ) by {
                lemma_split(st, x);
                lemma_split(st, y);
                assert(fill_state(before, data@, w, h, st, sst, bound, *sample, j, i, x, y));
                if y / st == j && x / st >= i {
                    lemma_mul_mono(i, x / st, st);
                }
            }
        }
        cy = cy + step;
        proof {
            assert((j + 1) * step == j * step + step) by (nonlinear_arith);
            j = j + 1;
        }
    }
    proof {
        if j * st < h {
            lemma_next_multiple(j, h, st);
        }
        assert forall|x: int, y: int| in_image(w, h, x, y) implies #[trigger] fill_result(
            before,
            data@,
            w,
            h,
            st,
            sst,
            bound,
            *sample,
            x,
            y,
        ) by {
            lemma_split(st, x);
            lemma_split(st, y);
            assert(fill_state(before, data@, w, h, st, sst, bound, *sample, j, 0, x, y));
            if y / st >= j {
                lemma_mul_mono(j, y / st, st);
            }
        }
    }
}

/// The four axis neighbours at distance `step` of `(cx, cy)` lie in the image.
pub open spec fn neighbours_in_image(width: int, height: int, step: int, cx: int, cy: int) -> bool {
    &&& in_image(width, height, cx, cy - step)
    &&& in_image(width, height, cx + step, cy)
    &&& in_image(width, height, cx, cy + step)
    &&& in_image(width, height, cx - step, cy)
}

/// When every coarse sample of the buffer holds the same colour, a fill pass
/// finds every cell whose four neighbours lie in the image uniform, so it
/// casts no fresh sample there, and each pixel it writes in such a cell holds
/// that colour, with alpha forced opaque.
pub proof fn lemma_uniform_samples_are_reused<F: Fn(usize, usize) -> ColorInt>(
    before: Seq<u8>,
    after: Seq<u8>,
    width: int,
    height: int,
    step: int,
    substep: int,
    max_sq_deviation: int,
    sample: F,
    colour: Seq<u8>,
)
    requires
        step > 0,
        max_sq_deviation >= 0,
        forall|x: int, y: int|
            in_image(width, height, x, y) && on_coarse_grid(step, x) && on_coarse_grid(step, y)
                ==> #[trigger] pixel(before, width, x, y) == colour,
        forall|x: int, y: int|
            in_image(width, height, x, y) ==> #[trigger] fill_result(
                before,
                after,
                width,
                height,
                step,
                substep,
                max_sq_deviation,
                sample,
                x,
                y,
            ),
    ensures
        forall|x: int, y: int|
            in_image(width, height, x, y) && #[trigger] neighbours_in_image(
                width,
                height,
                step,
                cell_center(step, x),
                cell_center(step, y),
            ) ==> cell_uniform(
                before,
                width,
                height,
                step,
                cell_center(step, x),
                cell_center(step, y),
                max_sq_deviation,
            ) && (fill_target(step, substep, x, y) ==> pixel(after, width, x, y) == opaque(colour)),
{
    assert forall|x: int, y: int|
        in_image(width, height, x, y) && #[trigger] neighbours_in_image(
            width,
            height,
            step,
            cell_center(step, x),
            cell_center(step, y),
        ) implies cell_uniform(
        before,
        width,
        height,
        step,
        cell_center(step, x),
        cell_center(step, y),
        max_sq_deviation,
    ) && (fill_target(step, substep, x, y) ==> pixel(after, width, x, y) == opaque(colour)) by {
        let cx = cell_center(step, x);
        let cy = cell_center(step, y);
        let half = step / 2;
        let kx = x / step;
        let ky = y / step;
        lemma_split(step, x);
        lemma_split(step, y);
        vstd::arithmetic::div_mod::lemma_fundamental_div_mod_converse(cx, step, kx, half);
        vstd::arithmetic::div_mod::lemma_fundamental_div_mod_converse(cy, step, ky, half);
        assert((kx + 1) * step == kx * step + step) by (nonlinear_arith);
        assert((ky + 1) * step == ky * step + step) by (nonlinear_arith);
        assert((kx - 1) * step == kx * step - step) by (nonlinear_arith);
        assert((ky - 1) * step == ky * step - step) by (nonlinear_arith);
        vstd::arithmetic::div_mod::lemma_fundamental_div_mod_converse(cx + step, step, kx + 1, half);
        vstd::arithmetic::div_mod::lemma_fundamental_div_mod_converse(cx - step, step, kx - 1, half);
        vstd::arithmetic::div_mod::lemma_fundamental_div_mod_converse(cy + step, step, ky + 1, half);
        vstd::arithmetic::div_mod::lemma_fundamental_div_mod_converse(cy - step, step, ky - 1, half);
        assert(pixel(before, width, cx, cy) == colour);
        assert(pixel(before, width, cx, cy - step) == colour);
        assert(pixel(before, width, cx + step, cy) == colour);
        assert(pixel(before, width, cx, cy + step) == colour);
        assert(pixel(before, width, cx - step, cy) == colour);
        assert(fill_result(before, after, width, height, step, substep, max_sq_deviation, sample, x, y));
    }
}

/// Cell size of the initial pass.
pub const COARSE_STEP: usize = 9;

/// Cell size of the medium pass, which refines the initial one.
pub const MEDIUM_STEP: usize = 3;

/// Cell size of the finest pass: every pixel.
pub const FINE_STEP: usize = 1;

/// Largest squared RGB distance, in channel units, that the medium pass
/// tolerates: a distance of one twentieth of full scale (255 / 20 = 12.75,
/// squared 162.56, and squared distances are whole numbers).
pub const MEDIUM_MAX_SQ_DEVIATION: u32 = 162;

/// Largest squared RGB distance that the finest pass tolerates: one tenth of
/// full scale (25.5, squared 650.25). Errors are less visible at the finest
/// level, so the tolerance is looser.
pub const FINE_MAX_SQ_DEVIATION: u32 = 650;

/// Pixel `(x, y)` holds a colour (alpha forced opaque) that `sample`
/// returned for some pixel of the image.
pub open spec fn committed<F: Fn(usize, usize) -> ColorInt>(
    sample: F,
    data: Seq<u8>,
    width: int,
    height: int,
    x: int,
    y: int,
) -> bool {
    exists|sx: int, sy: int, c: ColorInt|
        in_image(width, height, sx, sy) && #[trigger] sample.ensures((sx as usize, sy as usize), c)
            && pixel(data, width, x, y) == opaque(c@)
}

/// The centre of the cell that holds `x` lies in the image and on the grid.
proof fn lemma_cell_center(step: int, len: int, x: int)
    requires
        step > 0,
        len % step == 0,
        0 <= x < len,
    ensures
        0 <= cell_center(step, x) < len,
        cell_center(step, x) % step == step / 2,
        cell_center(step, x) / step == x / step,
{
    lemma_split(step, x);
    lemma_next_multiple(x / step, len, step);
    vstd::arithmetic::div_mod::lemma_fundamental_div_mod_converse(
        cell_center(step, x),
        step,
        x / step,
        step / 2,
    );
}

/// A colour that was written once reads the same when written again.
proof fn lemma_opaque_idempotent(c: Seq<u8>)
    requires
        c.len() == 4,
    ensures
        opaque(opaque(c)) == opaque(c),
{
    assert(opaque(opaque(c)) =~= opaque(c));
}

/// The three passes of a render, with `mid1` and `mid2` the buffer after the
/// first and the second: the initial pass on `COARSE_STEP` cells, a fill pass
/// down to `MEDIUM_STEP`, and a fill pass down to every pixel.
pub open spec fn render_passes<F: Fn(usize, usize) -> ColorInt>(
    before: Seq<u8>,
    mid1: Seq<u8>,
    mid2: Seq<u8>,
    after: Seq<u8>,
    width: int,
    height: int,
    sample: F,
) -> bool {
    &&& mid1.len() == before.len()
    &&& mid2.len() == before.len()
    &&& after.len() == before.len()
    &&& forall|x: int, y: int|
        in_image(width, height, x, y) ==> #[trigger] init_result(
            before,
            mid1,
            width,
            COARSE_STEP as int,
            sample,
            x,
            y,
        )
    &&& forall|x: int, y: int|
        in_image(width, height, x, y) ==> #[trigger] fill_result(
            mid1,
            mid2,
            width,
            height,
            COARSE_STEP as int,
            MEDIUM_STEP as int,
            MEDIUM_MAX_SQ_DEVIATION as int,
            sample,
            x,
            y,
        )
    &&& forall|x: int, y: int|
        in_image(width, height, x, y) ==> #[trigger] fill_result(
            mid2,
            after,
            width,
            height,
            MEDIUM_STEP as int,
            FINE_STEP as int,
            FINE_MAX_SQ_DEVIATION as int,
            sample,
            x,
            y,
        )
}

/// Renders the whole image: an initial pass on cells of `COARSE_STEP`
/// pixels, then fill passes down to `MEDIUM_STEP` and to every pixel. Every
/// pixel ends up holding a colour that `sample` returned for some pixel of
/// the image, with alpha forced opaque.
pub fn render<F: Fn(usize, usize) -> ColorInt>(
    data: &mut Vec<u8>,
    width: usize,
    height: usize,
    sample: &F,
)
    requires
        width % COARSE_STEP == 0,
        height % COARSE_STEP == 0,
        old(data)@.len() == width * height * 4,
        forall|x: usize, y: usize| x < width && y < height ==> sample.requires((x, y)),
    ensures
        final(data)@.len() == old(data)@.len(),
        exists|mid1: Seq<u8>, mid2: Seq<u8>|
            #[trigger] render_passes(
                old(data)@,
                mid1,
                mid2,
                final(data)@,
                width as int,
                height as int,
                *sample,
            ),
        forall|x: int, y: int|
            in_image(width as int, height as int, x, y) ==> #[trigger] committed(
                *sample,
                final(data)@,
                width as int,
                height as int,
                x,
                y,
            ),
{
    let ghost w = width as int;
    let ghost h = height as int;
    proof {
        lemma_split(9, w);
        lemma_split(9, h);
        assert(w % 3 == 0 && h % 3 == 0);
    }
    init_sample_grid(data, width, height, COARSE_STEP, sample);
    let ghost d1 = data@;
    fill_sample_grid(data, width, height, COARSE_STEP, MEDIUM_STEP, MEDIUM_MAX_SQ_DEVIATION, sample);
    let ghost d2 = data@;
    fill_sample_grid(data, width, height, MEDIUM_STEP, FINE_STEP, FINE_MAX_SQ_DEVIATION, sample);
    proof {
        assert(render_passes(old(data)@, d1, d2, data@, w, h, *sample));
        // After the initial pass, every centre of the coarse grid holds a sample.
        assert forall|x: int, y: int|
            in_image(w, h, x, y) && x % 9 == 4 && y % 9 == 4 implies #[trigger] committed(
            *sample,
            d1,
            w,
            h,
            x,
            y,
        ) by {
            assert(init_result(old(data)@, d1, w, 9, *sample, x, y));
        }
        // After the medium pass, every centre of the medium grid holds one.
        assert forall|x: int, y: int|
            in_image(w, h, x, y) && x % 3 == 1 && y % 3 == 1 implies #[trigger] committed(
            *sample,
            d2,
            w,
            h,
            x,
            y,
        ) by {
            vstd::arithmetic::div_mod::lemma_mod_mod(x, 3, 3);
            vstd::arithmetic::div_mod::lemma_mod_mod(y, 3, 3);
            lemma_split(9, x);
            lemma_split(9, y);
            assert(fill_result(d1, d2, w, h, 9, 3, 162, *sample, x, y));
            if fill_target(9, 3, x, y) {
                let cx = cell_center(9, x);
                let cy = cell_center(9, y);
                if cell_uniform(d1, w, h, 9, cx, cy, 162) {
                    lemma_cell_center(9, w, x);
                    lemma_cell_center(9, h, y);
                    assert(committed(*sample, d1, w, h, cx, cy));
                    let (sx, sy, c) = choose|sx: int, sy: int, c: ColorInt|
                        in_image(w, h, sx, sy) && #[trigger] sample.ensures(
                            (sx as usize, sy as usize),
                            c,
                        ) && pixel(d1, w, cx, cy) == opaque(c@);
                    lemma_opaque_idempotent(c@);
                    assert(pixel(d2, w, x, y) == opaque(c@));
                }
            } else {
                assert(committed(*sample, d1, w, h, x, y));
            }
        }
        // After the finest pass, every pixel holds one.
        assert forall|x: int, y: int| in_image(w, h, x, y) implies #[trigger] committed(
            *sample,
            data@,
            w,
            h,
            x,
            y,
        ) by {
            lemma_split(3, x);
            lemma_split(3, y);
            assert(fill_result(d2, data@, w, h, 3, 1, 650, *sample, x, y));
            assert((x % 3 - 0) % 1 == 0 && (y % 3 - 0) % 1 == 0);
            if fill_target(3, 1, x, y) {
                let cx = cell_center(3, x);
                let cy = cell_center(3, y);
                if cell_uniform(d2, w, h, 3, cx, cy, 650) {
                    lemma_cell_center(3, w, x);
                    lemma_cell_center(3, h, y);
                    assert(committed(*sample, d2, w, h, cx, cy));
                    let (sx, sy, c) = choose|sx: int, sy: int, c: ColorInt|
                        in_image(w, h, sx, sy) && #[trigger] sample.ensures(
                            (sx as usize, sy as usize),
                            c,
                        ) && pixel(d2, w, cx, cy) == opaque(c@);
                    lemma_opaque_idempotent(c@);
                    assert(pixel(data@, w, x, y) == opaque(c@));
                }
            } else {
                assert(committed(*sample, d2, w, h, x, y));
            }
        }
    }
}

/// A render of a uniform scene, whose sampler can only return `colour`,
/// leaves every pixel holding that colour with alpha forced opaque.
pub proof fn lemma_uniform_render<F: Fn(usize, usize) -> ColorInt>(
    sample: F,
    data: Seq<u8>,
    width: int,
    height: int,
    colour: ColorInt,
)
    requires
        forall|x: usize, y: usize, c: ColorInt| #[trigger] sample.ensures((x, y), c) ==> c == colour,
        forall|x: int, y: int|
            in_image(width, height, x, y) ==> #[trigger] committed(sample, data, width, height, x, y),
    ensures
        forall|x: int, y: int|
            in_image(width, height, x, y) ==> #[trigger] pixel(data, width, x, y) == opaque(colour@),
{
    assert forall|x: int, y: int| in_image(width, height, x, y) implies #[trigger] pixel(
        data,
        width,
        x,
        y,
    ) == opaque(colour@) by {
        assert(committed(sample, data, width, height, x, y));
    }
}

} // verus!
