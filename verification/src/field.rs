//! The windowed nearest-boundary search and the distance field generator.
//!
//! For each pixel, every cell of a window clamped to the image bounds is
//! scanned for the opposite occupancy state; the minimum squared distance
//! found (or the sentinel `spread * spread` when none is) is normalized into
//! one output byte. Each output pixel is an independent, order-free
//! computation over the immutable bitmap.

use crate::bitmap::bitmap_of;
use crate::bitmap::ColorSample;
use crate::math::normalized;
use crate::math::normalized_value;
use vstd::arithmetic::div_mod::lemma_div_pos_is_pos;
use vstd::arithmetic::div_mod::lemma_fundamental_div_mod_converse;
use vstd::arithmetic::div_mod::lemma_mod_bound;
use vstd::arithmetic::div_mod::lemma_multiply_divide_lt;
use vstd::math::min;
use vstd::prelude::*;

verus! {

/// Mathematical squared Euclidean distance between two points.
pub open spec fn sqdist_spec(x1: int, y1: int, x2: int, y2: int) -> int {
    (x2 - x1) * (x2 - x1) + (y2 - y1) * (y2 - y1)
}

/// Squared Euclidean distance between pixel centers.
pub fn sqdist(x1: i32, y1: i32, x2: i32, y2: i32) -> (d: i32)
    requires
        -46340 <= x2 - x1 <= 46340,
        -46340 <= y2 - y1 <= 46340,
        sqdist_spec(x1 as int, y1 as int, x2 as int, y2 as int) <= i32::MAX,
    ensures
        d == sqdist_spec(x1 as int, y1 as int, x2 as int, y2 as int),
{
    let xdiff = x2 - x1;
    let ydiff = y2 - y1;
    proof {
        assert(xdiff * xdiff <= 46340 * 46340 && ydiff * ydiff <= 46340 * 46340 && xdiff * xdiff >= 0
            && ydiff * ydiff >= 0) by (nonlinear_arith)
            requires
                -46340 <= xdiff <= 46340,
                -46340 <= ydiff <= 46340,
        ;
    }
    xdiff * xdiff + ydiff * ydiff
}

/// Lower edge of the search window along one axis: `coord - spread`,
/// clamped to the image (no negative indices).
pub open spec fn win_lo(coord: int, spread: int) -> int {
    if coord > spread {
        coord - spread
    } else {
        0
    }
}

/// Upper edge (exclusive) of the search window along one axis:
/// `coord + spread`, clamped to the image extent.
pub open spec fn win_hi(coord: int, spread: int, limit: int) -> int {
    min(coord + spread, limit)
}

/// Folds the cells `sx .. ex` of window row `sy` into the running minimum
/// `acc`: a cell whose occupancy differs from `cur` contributes its squared
/// distance to the pixel `(x, y)`.
pub open spec fn row_scan(
    bm: Seq<bool>,
    w: int,
    cur: bool,
    x: int,
    y: int,
    sy: int,
    sx: int,
    ex: int,
    acc: int,
) -> int
    decreases ex - sx,
{
    if sx >= ex {
        acc
    } else {
        let acc2 = if bm[sy * w + sx] != cur {
            min(acc, sqdist_spec(x, y, sx, sy))
        } else {
            acc
        };
        row_scan(bm, w, cur, x, y, sy, sx + 1, ex, acc2)
    }
}

/// Folds the window rows `sy .. ey` (each over columns `bx .. ex`) into the
/// running minimum `acc`.
pub open spec fn window_scan(
    bm: Seq<bool>,
    w: int,
    cur: bool,
    x: int,
    y: int,
    sy: int,
    ey: int,
    bx: int,
    ex: int,
    acc: int,
) -> int
    decreases ey - sy,
{
    if sy >= ey {
        acc
    } else {
        window_scan(bm, w, cur, x, y, sy + 1, ey, bx, ex, row_scan(bm, w, cur, x, y, sy, bx, ex, acc))
    }
}

/// The minimum squared distance from pixel `(x, y)` to a pixel of opposite
/// occupancy within the clamped search window, or the sentinel
/// `spread * spread` when the window holds none.
pub open spec fn min_sq_dist(bm: Seq<bool>, w: int, h: int, x: int, y: int, spread: int) -> int {
    window_scan(
        bm,
        w,
        bm[y * w + x],
        x,
        y,
        win_lo(y, spread),
        win_hi(y, spread, h),
        win_lo(x, spread),
        win_hi(x, spread, w),
        spread * spread,
    )
}

/// The distance field of a `w` by `h` occupancy bitmap: one byte per pixel,
/// row-major, the normalized signed distance of that pixel.
pub open spec fn sdf_spec(bm: Seq<bool>, w: int, h: int, spread: int) -> Seq<u8> {
    Seq::new(
        (w * h) as nat,
        |i: int| normalized(min_sq_dist(bm, w, h, i % w, i / w, spread), bm[i], spread) as u8,
    )
}

/// A row-major index lies within the grid.
proof fn lemma_rm_index(w: int, h: int, x: int, y: int) by (nonlinear_arith)
    requires
        0 <= x < w,
        0 <= y < h,
    ensures
        0 <= y * w + x < w * h,
{
}

/// The normalized signed distance of the single pixel `(x, y)`: the search
/// window `[win_lo(x), win_hi(x)) x [win_lo(y), win_hi(y))` is scanned for
/// the nearest opposite-occupancy cell and the result is normalized.
///
/// The image dimensions are bounded so that every coordinate fits the
/// signed 32-bit distance computation.
pub fn pixel_value(bitmap: &Vec<bool>, width: u32, height: u32, x: u32, y: u32, spread: u8) -> (v:
    u8)
    requires
        bitmap@.len() == width * height,
        width <= 0x8000_0000,
        height <= 0x8000_0000,
        x < width,
        y < height,
    ensures
        v == normalized(
            min_sq_dist(bitmap@, width as int, height as int, x as int, y as int, spread as int),
            bitmap@[y * width + x],
            spread as int,
        ),
{
    let len = bitmap.len();
    let ghost w = width as int;
    let ghost h = height as int;
    let rad: u32 = spread as u32;
    proof {
        assert(rad * rad <= 255 * 255) by (nonlinear_arith)
            requires
                rad <= 255,
        ;
        lemma_rm_index(w, h, x as int, y as int);
    }
    let cur: bool = bitmap[(y as usize) * (width as usize) + (x as usize)];
    let mut dist: u32 = rad * rad;
    let bx: u32 = if x > rad {
        x - rad
    } else {
        0
    };
    let by: u32 = if y > rad {
        y - rad
    } else {
        0
    };
    let ex: u32 = if x + rad < width {
        x + rad
    } else {
        width
    };
    let ey: u32 = if y + rad < height {
        y + rad
    } else {
        height
    };
    let ghost m = min_sq_dist(bitmap@, w, h, x as int, y as int, spread as int);
    let mut sy: u32 = by;
    while sy < ey
        invariant
            len == bitmap@.len() == width * height,
            width <= 0x8000_0000,
            height <= 0x8000_0000,
            x < width,
            y < height,
            rad == spread,
            bx == win_lo(x as int, spread as int),
            ex == win_hi(x as int, spread as int, w),
            by == win_lo(y as int, spread as int),
            ey == win_hi(y as int, spread as int, h),
            w == width as int,
            h == height as int,
            cur == bitmap@[y * width + x],
            by <= sy <= ey,
            ey <= height,
            dist <= spread * spread,
            window_scan(bitmap@, w, cur, x as int, y as int, sy as int, ey as int, bx as int, ex as int, dist as int) == m,
        decreases ey - sy,
    {
        let mut sx: u32 = bx;
        while sx < ex
            invariant
                len == bitmap@.len() == width * height,
                width <= 0x8000_0000,
                height <= 0x8000_0000,
                x < width,
                y < height,
                rad == spread,
                bx == win_lo(x as int, spread as int),
                ex == win_hi(x as int, spread as int, w),
                by == win_lo(y as int, spread as int),
                ey == win_hi(y as int, spread as int, h),
                w == width as int,
                h == height as int,
                by <= sy < ey,
                ey <= height,
                bx <= sx <= ex,
                ex <= width,
                dist <= spread * spread,
                window_scan(
                    bitmap@,
                    w,
                    cur,
                    x as int,
                    y as int,
                    sy as int + 1,
                    ey as int,
                    bx as int,
                    ex as int,
                    row_scan(bitmap@, w, cur, x as int, y as int, sy as int, sx as int, ex as int, dist as int),
                ) == m,
            decreases ex - sx,
        {
            proof {
                lemma_rm_index(w, h, sx as int, sy as int);
            }
            let on: bool = bitmap[(sy as usize) * (width as usize) + (sx as usize)];
            let ghost dist0 = dist;
            if on != cur {
                proof {
                    assert(sqdist_spec(x as int, y as int, sx as int, sy as int) <= 2 * 255 * 255
                        && sqdist_spec(x as int, y as int, sx as int, sy as int) >= 0) by (nonlinear_arith)
                        requires
                            -255 <= sx as int - x as int <= 255,
                            -255 <= sy as int - y as int <= 255,
                    ;
                }
                let dd = sqdist(x as i32, y as i32, sx as i32, sy as i32) as u32;
                if dd < dist {
                    dist = dd;
                }
            }
            proof {
                assert(row_scan(bitmap@, w, cur, x as int, y as int, sy as int, sx as int, ex as int, dist0 as int)
                    == row_scan(bitmap@, w, cur, x as int, y as int, sy as int, sx as int + 1, ex as int, dist as int));
            }
            sx = sx + 1;
        }
        sy = sy + 1;
    }
    normalized_value(dist, cur, spread)
}

/// A row scan can only lower the running minimum, and never below zero.
proof fn lemma_row_scan_bounds(
    bm: Seq<bool>,
    w: int,
    cur: bool,
    x: int,
    y: int,
    sy: int,
    sx: int,
    ex: int,
    acc: int,
)
    requires
        acc >= 0,
    ensures
        0 <= row_scan(bm, w, cur, x, y, sy, sx, ex, acc) <= acc,
    decreases ex - sx,
{
    if sx < ex {
        let acc2 = if bm[sy * w + sx] != cur {
            min(acc, sqdist_spec(x, y, sx, sy))
        } else {
            acc
        };
        assert(sqdist_spec(x, y, sx, sy) >= 0) by (nonlinear_arith);
        lemma_row_scan_bounds(bm, w, cur, x, y, sy, sx + 1, ex, acc2);
    }
}

/// A window scan can only lower the running minimum, and never below zero.
proof fn lemma_window_scan_bounds(
    bm: Seq<bool>,
    w: int,
    cur: bool,
    x: int,
    y: int,
    sy: int,
    ey: int,
    bx: int,
    ex: int,
    acc: int,
)
    requires
        acc >= 0,
    ensures
        0 <= window_scan(bm, w, cur, x, y, sy, ey, bx, ex, acc) <= acc,
    decreases ey - sy,
{
    if sy < ey {
        lemma_row_scan_bounds(bm, w, cur, x, y, sy, bx, ex, acc);
        lemma_window_scan_bounds(
            bm,
            w,
            cur,
            x,
            y,
            sy + 1,
            ey,
            bx,
            ex,
            row_scan(bm, w, cur, x, y, sy, bx, ex, acc),
        );
    }
}

/// The minimum squared distance never exceeds the sentinel
/// `spread * spread`, whatever the window holds, and is never negative.
pub proof fn lemma_min_sq_dist_bounds(bm: Seq<bool>, w: int, h: int, x: int, y: int, spread: int)
    requires
        spread >= 0,
    ensures
        0 <= min_sq_dist(bm, w, h, x, y, spread) <= spread * spread,
{
    assert(spread * spread >= 0) by (nonlinear_arith);
    lemma_window_scan_bounds(
        bm,
        w,
        bm[y * w + x],
        x,
        y,
        win_lo(y, spread),
        win_hi(y, spread, h),
        win_lo(x, spread),
        win_hi(x, spread, w),
        spread * spread,
    );
}

/// A row scan over a uniformly occupied bitmap finds no opposite cell and
/// leaves the running minimum unchanged.
proof fn lemma_row_scan_uniform(
    bm: Seq<bool>,
    w: int,
    h: int,
    cur: bool,
    x: int,
    y: int,
    sy: int,
    sx: int,
    ex: int,
    acc: int,
)
    requires
        bm.len() == w * h,
        0 <= sy < h,
        0 <= sx,
        ex <= w,
        forall|j: int| 0 <= j < bm.len() ==> bm[j] == cur,
    ensures
        row_scan(bm, w, cur, x, y, sy, sx, ex, acc) == acc,
    decreases ex - sx,
{
    if sx < ex {
        lemma_rm_index(w, h, sx, sy);
        assert(bm[sy * w + sx] == cur);
        lemma_row_scan_uniform(bm, w, h, cur, x, y, sy, sx + 1, ex, acc);
    }
}

/// A window scan over a uniformly occupied bitmap leaves the running
/// minimum unchanged.
proof fn lemma_window_scan_uniform(
    bm: Seq<bool>,
    w: int,
    h: int,
    cur: bool,
    x: int,
    y: int,
    sy: int,
    ey: int,
    bx: int,
    ex: int,
    acc: int,
)
    requires
        bm.len() == w * h,
        0 <= sy,
        ey <= h,
        0 <= bx,
        ex <= w,
        forall|j: int| 0 <= j < bm.len() ==> bm[j] == cur,
    ensures
        window_scan(bm, w, cur, x, y, sy, ey, bx, ex, acc) == acc,
    decreases ey - sy,
{
    if sy < ey {
        lemma_row_scan_uniform(bm, w, h, cur, x, y, sy, bx, ex, acc);
        lemma_window_scan_uniform(bm, w, h, cur, x, y, sy + 1, ey, bx, ex, acc);
    }
}

/// Uniform-shape property: when every pixel of the bitmap is "on", no
/// window ever finds an opposite-occupancy cell, so every output pixel
/// carries the sentinel value `normalized(spread * spread, true, spread)`,
/// the integer form of `clamp(((spread - 0.5) / spread) * 128 + 127.5)`.
pub proof fn lemma_uniform_on_bitmap(bm: Seq<bool>, w: int, h: int, spread: int, i: int)
    requires
        bm.len() == w * h,
        w >= 1,
        h >= 1,
        spread >= 0,
        0 <= i < w * h,
        forall|j: int| 0 <= j < bm.len() ==> bm[j],
    ensures
        sdf_spec(bm, w, h, spread)[i] == normalized(spread * spread, true, spread) as u8,
{
    let x = i % w;
    let y = i / w;
    lemma_mod_bound(i, w);
    lemma_div_pos_is_pos(i, w);
    lemma_multiply_divide_lt(i, w, h);
    vstd::arithmetic::div_mod::lemma_fundamental_div_mod(i, w);
    assert(y * w + x == i) by (nonlinear_arith)
        requires
            i == w * (i / w) + i % w,
            x == i % w,
            y == i / w,
    ;
    lemma_rm_index(w, h, x, y);
    assert(bm[y * w + x]);
    lemma_window_scan_uniform(
        bm,
        w,
        h,
        bm[y * w + x],
        x,
        y,
        win_lo(y, spread),
        win_hi(y, spread, h),
        win_lo(x, spread),
        win_hi(x, spread, w),
        spread * spread,
    );
    assert(min_sq_dist(bm, w, h, x, y, spread) == spread * spread);
}

/// Determinism and idempotence of the generator: the distance field is a
/// function of the bitmap, the dimensions and the spread alone, so two runs
/// over the same unmutated bitmap yield byte-identical buffers.
pub proof fn lemma_generator_deterministic(
    a: Seq<u8>,
    b: Seq<u8>,
    bm: Seq<bool>,
    w: int,
    h: int,
    spread: int,
)
    requires
        a == sdf_spec(bm, w, h, spread),
        b == sdf_spec(bm, w, h, spread),
    ensures
        a == b,
{
}

/// Determinism of the whole pipeline: identical decoded pixels and spread
/// yield a byte-identical distance field.
pub proof fn lemma_pipeline_deterministic(
    a: Seq<u8>,
    b: Seq<u8>,
    pixels: Seq<ColorSample>,
    w: int,
    h: int,
    spread: int,
)
    requires
        a == sdf_spec(bitmap_of(pixels), w, h, spread),
        b == sdf_spec(bitmap_of(pixels), w, h, spread),
    ensures
        a == b,
{
}

/// Generates the distance field of an occupancy bitmap: one byte per pixel
/// in row-major order, each the normalized signed distance to the nearest
/// opposite-occupancy pixel within the search window.
pub fn generate_distance_field(bitmap: &Vec<bool>, width: u32, height: u32, spread: u8) -> (out:
    Vec<u8>)
    requires
        bitmap@.len() == width * height,
        width <= 0x8000_0000,
        height <= 0x8000_0000,
    ensures
        out@ == sdf_spec(bitmap@, width as int, height as int, spread as int),
{
    let ghost w = width as int;
    let ghost h = height as int;
    let ghost target = sdf_spec(bitmap@, w, h, spread as int);
    let mut out: Vec<u8> = Vec::new();
    let mut y: u32 = 0;
    while y < height
        invariant
            bitmap@.len() == width * height,
            width <= 0x8000_0000,
            height <= 0x8000_0000,
            w == width as int,
            h == height as int,
            target == sdf_spec(bitmap@, w, h, spread as int),
            y <= height,
            out@.len() == y * width,
            forall|i: int| 0 <= i < out@.len() ==> out@[i] == target[i],
        decreases height - y,
    {
        let mut x: u32 = 0;
        while x < width
            invariant
                bitmap@.len() == width * height,
                width <= 0x8000_0000,
                height <= 0x8000_0000,
                w == width as int,
                h == height as int,
                target == sdf_spec(bitmap@, w, h, spread as int),
                y < height,
                x <= width,
                out@.len() == y * width + x,
                forall|i: int| 0 <= i < out@.len() ==> out@[i] == target[i],
            decreases width - x,
        {
            let v = pixel_value(bitmap, width, height, x, y, spread);
            proof {
                lemma_rm_index(w, h, x as int, y as int);
                lemma_fundamental_div_mod_converse(y * w + x as int, w, y as int, x as int);
            }
            out.push(v);
            x = x + 1;
        }
        proof {
            assert((y as int + 1) * w == y as int * w + w) by (nonlinear_arith);
        }
        y = y + 1;
    }
    proof {
        assert(width * height == height * width) by (nonlinear_arith);
        assert(out@ =~= target);
    }
    out
}

/// Converts decoded color samples straight into the distance field: the
/// occupancy bitmap is derived by thresholding, then each pixel's signed
/// distance is searched and normalized.
pub fn generate_sdf(pixels: &Vec<ColorSample>, width: u32, height: u32, spread: u8) -> (out: Vec<
    u8>)
    requires
        pixels@.len() == width * height,
        width <= 0x8000_0000,
        height <= 0x8000_0000,
    ensures
        out@ == sdf_spec(bitmap_of(pixels@), width as int, height as int, spread as int),
{
    let bm = crate::bitmap::generate_bitmap(pixels);
    generate_distance_field(&bm, width, height, spread)
}

} // verus!
