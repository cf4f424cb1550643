//! The renderer: maps every pixel of the output grid to a point of the
//! complex plane, runs the escape-time kernel on it, and writes the
//! palette-mapped color into a flat row-major pixel buffer.
//!
//! Rows are independent units of work: each one writes only its own
//! disjoint slice of the buffer, so units may run on worker threads in any
//! order without locks, and the result does not depend on the schedule.

use vstd::prelude::*;

use rayon::iter::IndexedParallelIterator;
use rayon::iter::ParallelIterator;
use rayon::slice::ParallelSliceMut;

use vstd::arithmetic::div_mod::{
    lemma_fundamental_div_mod, lemma_fundamental_div_mod_converse, lemma_mod_bound,
    lemma_multiply_divide_le, lemma_multiply_divide_lt,
};

use crate::color::{pack_spec, Rgb};
use crate::fixed::COORD_LIMIT;
use crate::kernel::{coord_in_range, escape_count, lsm, lsm_v};

verus! {

/// Largest accepted width or height of the output image.
pub const MAX_DIM: usize = 32768;

/// Dimensions, viewport and iteration bound of one render: the rectangle
/// `[xmin, xmax] x [ymin, ymax]` of the complex plane, in fixed-point
/// coordinates, mapped onto a `width` by `height` pixel grid.
#[derive(Clone, Copy)]
pub struct Params {
    pub width: usize,
    pub height: usize,
    pub xmax: i64,
    pub xmin: i64,
    pub ymax: i64,
    pub ymin: i64,
    pub max_iter: u32,
}

impl Params {
    /// A parameter set the renderer accepts: positive dimensions within the
    /// size limit, a positive iteration bound, and an ordered viewport whose
    /// corners lie within the coordinate band of the kernel.
    pub open spec fn wf(self) -> bool {
        &&& 1 <= self.width <= MAX_DIM
        &&& 1 <= self.height <= MAX_DIM
        &&& 1 <= self.max_iter
        &&& self.xmin <= self.xmax
        &&& self.ymin <= self.ymax
        &&& coord_in_range(self.xmin as int)
        &&& coord_in_range(self.xmax as int)
        &&& coord_in_range(self.ymin as int)
        &&& coord_in_range(self.ymax as int)
    }

    /// Decides whether this parameter set is one the renderer accepts, so
    /// that a caller can reject a bad configuration before rendering.
    pub fn check(&self) -> (ok: bool)
        ensures
            ok == self.wf(),
    {
        1 <= self.width && self.width <= MAX_DIM && 1 <= self.height && self.height <= MAX_DIM
            && 1 <= self.max_iter && self.xmin <= self.xmax && self.ymin <= self.ymax
            && -COORD_LIMIT <= self.xmin && self.xmax <= COORD_LIMIT && -COORD_LIMIT <= self.ymin
            && self.ymax <= COORD_LIMIT
    }
}

/// The real coordinate of pixel column `px`: `xmin` plus `px / width` of
/// the viewport's real extent, the quotient rounded down.
pub open spec fn re_at(p: Params, px: int) -> int {
    p.xmin + (px * (p.xmax - p.xmin)) / (p.width as int)
}

/// The imaginary coordinate of pixel row `py`: `ymin` plus `py / height`
/// of the viewport's imaginary extent, the quotient rounded down.
pub open spec fn im_at(p: Params, py: int) -> int {
    p.ymin + (py * (p.ymax - p.ymin)) / (p.height as int)
}

/// The packed color of pixel `(px, py)`: black for a point that survives
/// the whole iteration bound (the sentinel for membership in the set),
/// else the palette entry at the escape count modulo the palette length.
pub open spec fn color_at(p: Params, palette: Seq<Rgb>, px: int, py: int) -> int {
    let n = escape_count(re_at(p, px), im_at(p, py), p.max_iter as nat);
    if n == p.max_iter as nat {
        0
    } else {
        pack_spec(palette[(n as int) % (palette.len() as int)])
    }
}

/// The point of the complex plane shown at pixel `(px, py)`.
pub fn pixel_point(params: &Params, px: usize, py: usize) -> (c: (i64, i64))
    requires
        params.wf(),
        px < params.width,
        py < params.height,
    ensures
        c.0 == re_at(*params, px as int),
        c.1 == im_at(*params, py as int),
        coord_in_range(c.0 as int),
        coord_in_range(c.1 as int),
{
    let dx: i64 = params.xmax - params.xmin;
    let dy: i64 = params.ymax - params.ymin;
    proof {
        assert((px as int) * (dx as int) <= (params.width as int) * (dx as int) && 0 <= (px as int)
            * (dx as int) && (params.width as int) * (dx as int) <= 0x8000_0000_0000)
            by (nonlinear_arith)
            requires
                0 <= px < params.width <= 32768,
                0 <= dx <= 0x2000_0000,
        ;
        lemma_multiply_divide_le((px as int) * (dx as int), params.width as int, dx as int);
        assert((py as int) * (dy as int) <= (params.height as int) * (dy as int) && 0 <= (py as int)
            * (dy as int) && (params.height as int) * (dy as int) <= 0x8000_0000_0000)
            by (nonlinear_arith)
            requires
                0 <= py < params.height <= 32768,
                0 <= dy <= 0x2000_0000,
        ;
        lemma_multiply_divide_le((py as int) * (dy as int), params.height as int, dy as int);
    }
    let qx: u64 = ((px as u64) * (dx as u64)) / (params.width as u64);
    let qy: u64 = ((py as u64) * (dy as u64)) / (params.height as u64);
    (params.xmin + (qx as i64), params.ymin + (qy as i64))
}

/// The packed color of one escape count: the black background for the
/// sentinel `max_iter`, else the palette entry at the count modulo the
/// palette's length.
fn color_of_count(n: u32, max_iter: u32, palette: &Vec<Rgb>) -> (w: u32)
    requires
        1 <= palette@.len(),
    ensures
        w as int == (if n == max_iter {
            0int
        } else {
            pack_spec(palette@[(n as int) % (palette@.len() as int)])
        }),
{
    if n == max_iter {
        0
    } else {
        proof {
            lemma_mod_bound(n as int, palette@.len() as int);
        }
        palette[(n as usize) % palette.len()].packed()
    }
}

/// Fills one row of the pixel buffer: entry `px` of `row` receives the
/// color of pixel `(px, py)`.  Groups of four adjacent pixels go through
/// the batch kernel in lock step; a row tail narrower than one group goes
/// through the scalar kernel, with the same counts either way.
pub fn fill_row(row: &mut [u32], py: usize, params: &Params, palette: &Vec<Rgb>)
    requires
        old(row)@.len() == params.width,
        py < params.height,
        params.wf(),
        1 <= palette@.len(),
    ensures
        final(row)@.len() == params.width,
        forall|px: int|
            0 <= px < params.width ==> #[trigger] final(row)@[px] as int == color_at(
                *params,
                palette@,
                px,
                py as int,
            ),
{
    let mut px: usize = 0;
    while px + 4 <= params.width
        invariant
            px <= params.width,
            row@.len() == params.width,
            py < params.height,
            params.wf(),
            1 <= palette@.len(),
            forall|k: int|
                0 <= k < px ==> #[trigger] row@[k] as int == color_at(
                    *params,
                    palette@,
                    k,
                    py as int,
                ),
        decreases params.width - px,
    {
        let c0 = pixel_point(params, px, py);
        let c1 = pixel_point(params, px + 1, py);
        let c2 = pixel_point(params, px + 2, py);
        let c3 = pixel_point(params, px + 3, py);
        let crs: [i64; 4] = [c0.0, c1.0, c2.0, c3.0];
        let cis: [i64; 4] = [c0.1, c1.1, c2.1, c3.1];
        let counts = lsm_v(&crs, &cis, params.max_iter);
        row[px] = color_of_count(counts[0], params.max_iter, palette);
        row[px + 1] = color_of_count(counts[1], params.max_iter, palette);
        row[px + 2] = color_of_count(counts[2], params.max_iter, palette);
        row[px + 3] = color_of_count(counts[3], params.max_iter, palette);
        px = px + 4;
    }
    while px < params.width
        invariant
            px <= params.width,
            row@.len() == params.width,
            py < params.height,
            params.wf(),
            1 <= palette@.len(),
            forall|k: int|
                0 <= k < px ==> #[trigger] row@[k] as int == color_at(
                    *params,
                    palette@,
                    k,
                    py as int,
                ),
        decreases params.width - px,
    {
        let c = pixel_point(params, px, py);
        let point: [i64; 2] = [c.0, c.1];
        let n: u32 = lsm(&point, params.max_iter);
        row[px] = color_of_count(n, params.max_iter, palette);
        px = px + 1;
    }
}

/// Relies on rayon's `par_chunks_mut`, `enumerate` and `for_each`
/// (rayon's own documentation and examples): the buffer is split into
/// non-overlapping consecutive chunks of `width` elements each — the
/// length is an exact multiple, so chunk `py` is exactly row `py` of the
/// buffer — every chunk is handed, with its index, to the closure exactly
/// once, and the call returns only after all of them ran.  The closure
/// only calls the verified row renderer.
#[verifier::external_body]
fn fill_rows_in_parallel(buffer: &mut [u32], params: &Params, palette: &Vec<Rgb>)
    requires
        old(buffer)@.len() == params.width * params.height,
        params.wf(),
        1 <= palette@.len(),
    ensures
        final(buffer)@.len() == old(buffer)@.len(),
        forall|px: int, py: int|
            0 <= px < params.width && 0 <= py < params.height ==> #[trigger] final(buffer)@[py
                * params.width + px] as int == color_at(*params, palette@, px, py),
{
    buffer.par_chunks_mut(params.width).enumerate().for_each(
        |(py, row)| fill_row(row, py, params, palette),
    );
}

/// Fills the whole pixel buffer: the entry at `py * width + px` receives
/// the color of pixel `(px, py)`.  Rows are dispatched to worker threads
/// as independent units, each writing only its own disjoint slice of the
/// buffer; the result is the same whatever order the units run in.
pub fn render(buffer: &mut [u32], params: Params, palette: &Vec<Rgb>)
    requires
        old(buffer)@.len() == params.width * params.height,
        params.wf(),
        1 <= palette@.len(),
    ensures
        final(buffer)@.len() == old(buffer)@.len(),
        forall|px: int, py: int|
            0 <= px < params.width && 0 <= py < params.height ==> #[trigger] final(buffer)@[py
                * params.width + px] as int == color_at(params, palette@, px, py),
{
    fill_rows_in_parallel(buffer, &params, palette);
}

/// Fills the whole pixel buffer on the calling thread alone, one pixel
/// after another in row-major order: the single-threaded reference path,
/// with the same contract as the partitioned one.
pub fn render_serial(buffer: &mut [u32], params: Params, palette: &Vec<Rgb>)
    requires
        old(buffer)@.len() == params.width * params.height,
        params.wf(),
        1 <= palette@.len(),
    ensures
        final(buffer)@.len() == old(buffer)@.len(),
        forall|px: int, py: int|
            0 <= px < params.width && 0 <= py < params.height ==> #[trigger] final(buffer)@[py
                * params.width + px] as int == color_at(params, palette@, px, py),
{
    let total: usize = buffer.len();
    let mut k: usize = 0;
    while k < total
        invariant
            k <= total,
            buffer@.len() == total,
            total == params.width * params.height,
            params.wf(),
            1 <= palette@.len(),
            forall|i: int|
                0 <= i < k ==> #[trigger] buffer@[i] as int == color_at(
                    params,
                    palette@,
                    i % (params.width as int),
                    i / (params.width as int),
                ),
        decreases total - k,
    {
        let px: usize = k % params.width;
        let py: usize = k / params.width;
        proof {
            lemma_mod_bound(k as int, params.width as int);
            assert((params.width as int) * (params.height as int) == total as int)
                by (nonlinear_arith)
                requires
                    total == params.width * params.height,
            ;
            lemma_multiply_divide_lt(k as int, params.width as int, params.height as int);
        }
        let c = pixel_point(&params, px, py);
        let point: [i64; 2] = [c.0, c.1];
        let n: u32 = lsm(&point, params.max_iter);
        buffer[k] = color_of_count(n, params.max_iter, palette);
        k = k + 1;
    }
    proof {
        assert forall|px: int, py: int|
            0 <= px < params.width && 0 <= py < params.height implies #[trigger] buffer@[py
            * params.width + px] as int == color_at(params, palette@, px, py) by {
            let i = py * (params.width as int) + px;
            assert(0 <= i < total as int) by (nonlinear_arith)
                requires
                    0 <= px < params.width as int,
                    0 <= py < params.height as int,
                    i == py * (params.width as int) + px,
                    total == params.width * params.height,
            ;
            lemma_fundamental_div_mod_converse(i, params.width as int, py, px);
        }
    }
}

/// Rendering is deterministic under partitioning: any two pixel buffers
/// that the renderer's contract admits for the same parameters and palette
/// — whether filled by one thread or by many independent row units — are
/// equal, element for element.
pub proof fn lemma_render_deterministic(p: Params, palette: Seq<Rgb>, b1: Seq<u32>, b2: Seq<u32>)
    requires
        p.wf(),
        b1.len() == p.width * p.height,
        b2.len() == p.width * p.height,
        forall|px: int, py: int|
            0 <= px < p.width && 0 <= py < p.height ==> #[trigger] b1[py * p.width + px] as int
                == color_at(p, palette, px, py),
        forall|px: int, py: int|
            0 <= px < p.width && 0 <= py < p.height ==> #[trigger] b2[py * p.width + px] as int
                == color_at(p, palette, px, py),
    ensures
        b1 == b2,
{
    assert forall|k: int| 0 <= k < b1.len() implies b1[k] == b2[k] by {
        let w = p.width as int;
        let px = k % w;
        let py = k / w;
        lemma_fundamental_div_mod(k, w);
        lemma_mod_bound(k, w);
        assert(w * (p.height as int) == b1.len() as int) by (nonlinear_arith)
            requires
                b1.len() == p.width * p.height,
                w == p.width as int,
        ;
        lemma_multiply_divide_lt(k, w, p.height as int);
        assert(k == py * w + px);
        assert(b1[py * w + px] as int == color_at(p, palette, px, py));
        assert(b2[py * w + px] as int == color_at(p, palette, px, py));
    }
    assert(b1 =~= b2);
}

} // verus!
