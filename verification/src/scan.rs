//! Scanning camera images: the integer side of it. The grayscale image type
//! and the cells whose colour every frame of a layout shows (corner markers
//! and the bottom checkerboard), against which a detected cell grid is
//! scored.

use vstd::prelude::*;
use crate::vcode::{
    Layout, FrameHeader, CORNER, STRIP_H, corner_black, corner_origins, spec_corner_black, spec_corner_origins,
    spec_frame_cell,
};

verus! {

/// A grayscale image, row-major, borrowed from the caller.
pub struct GrayImage<'a> {
    pub w: usize,
    pub h: usize,
    pub data: &'a [u8],
}

impl<'a> GrayImage<'a> {
    /// Pixel (x, y).
    pub fn get(&self, x: usize, y: usize) -> (v: u8)
        requires
            y * self.w + x < self.data@.len(),
        ensures
            v == self.data@[y * self.w + x],
    {
        let _n = self.data.len();
        proof {
            assert(y * self.w <= y * self.w + x);
        }
        self.data[y * self.w + x]
    }
}

/// Known cell `q` of a `w x h` layout: first the 36 cells of each corner
/// marker in turn (row-major within the marker), then the bottom strip
/// between the corners, row-major, black on even `row + col`.
pub open spec fn spec_known_cell(w: int, h: int, q: int) -> (int, int, bool) {
    let per = (CORNER * CORNER) as int;
    if q < 4 * per {
        let k = q / per;
        let r = (q % per) / (CORNER as int);
        let c = q % (CORNER as int);
        let o = spec_corner_origins(w, h)[k];
        (o.1 + r, o.2 + c, spec_corner_black(o.0, r, c))
    } else {
        let j = q - 4 * per;
        let inner = w - 2 * CORNER;
        let r = h - STRIP_H + j / inner;
        let c = CORNER + j % inner;
        (r, c, (r + c) % 2 == 0)
    }
}

/// Number of known cells of a `w`-wide layout.
pub open spec fn known_count(w: int) -> int {
    4 * CORNER * CORNER + STRIP_H * (w - 2 * CORNER)
}

/// The known cells of `layout`, as (row, col, black).
pub fn known_cells(layout: Layout) -> (cells: Vec<(usize, usize, bool)>)
    requires
        layout.sizes_fit(),
        layout.spec_width() >= 2 * CORNER,
    ensures
        cells@.len() == known_count(layout.spec_width()),
        forall|q: int|
            0 <= q < cells@.len() ==> {
                let e = spec_known_cell(layout.spec_width(), layout.spec_height(), q);
                &&& (#[trigger] cells@[q]).0 == e.0
                &&& cells@[q].1 == e.1
                &&& cells@[q].2 == e.2
            },
{
    let w = layout.width();
    let h = layout.height();
    let ghost gw = w as int;
    let ghost gh = h as int;
    let origins = corner_origins(w, h);
    let mut cells: Vec<(usize, usize, bool)> = Vec::new();
    let mut k: usize = 0;
    while k < 4
        invariant
            w == layout.spec_width(),
            h == layout.spec_height(),
            w >= 2 * CORNER,
            h >= 2 * STRIP_H,
            layout.sizes_fit(),
            forall|t: int|
                0 <= t < 4 ==> (#[trigger] origins@[t]).0 == spec_corner_origins(w as int, h as int)[t].0
                    && origins@[t].1 == spec_corner_origins(w as int, h as int)[t].1
                    && origins@[t].2 == spec_corner_origins(w as int, h as int)[t].2,
            k <= 4,
            cells@.len() == k * 36,
            forall|q: int|
                0 <= q < cells@.len() ==> {
                    let e = spec_known_cell(w as int, h as int, q);
                    &&& (#[trigger] cells@[q]).0 == e.0
                    &&& cells@[q].1 == e.1
                    &&& cells@[q].2 == e.2
                },
        decreases 4 - k,
    {
        let (which, orow, ocol) = origins[k];
        let mut r: usize = 0;
        while r < CORNER
            invariant
                w == layout.spec_width(),
                h == layout.spec_height(),
                w >= 2 * CORNER,
                h >= 2 * STRIP_H,
                k < 4,
                which == spec_corner_origins(w as int, h as int)[k as int].0,
                orow == spec_corner_origins(w as int, h as int)[k as int].1,
                ocol == spec_corner_origins(w as int, h as int)[k as int].2,
                r <= CORNER,
                cells@.len() == k * 36 + r * 6,
                forall|q: int|
                    0 <= q < cells@.len() ==> {
                        let e = spec_known_cell(w as int, h as int, q);
                        &&& (#[trigger] cells@[q]).0 == e.0
                        &&& cells@[q].1 == e.1
                        &&& cells@[q].2 == e.2
                    },
            decreases CORNER - r,
        {
            let mut c: usize = 0;
            while c < CORNER
                invariant
                    w == layout.spec_width(),
                    h == layout.spec_height(),
                    w >= 2 * CORNER,
                    h >= 2 * STRIP_H,
                    k < 4,
                    which == spec_corner_origins(w as int, h as int)[k as int].0,
                    orow == spec_corner_origins(w as int, h as int)[k as int].1,
                    ocol == spec_corner_origins(w as int, h as int)[k as int].2,
                    r < CORNER,
                    c <= CORNER,
                    cells@.len() == k * 36 + r * 6 + c,
                    forall|q: int|
                        0 <= q < cells@.len() ==> {
                            let e = spec_known_cell(w as int, h as int, q);
                            &&& (#[trigger] cells@[q]).0 == e.0
                            &&& cells@[q].1 == e.1
                            &&& cells@[q].2 == e.2
                        },
                decreases CORNER - c,
            {
                proof {
                    let q = k * 36 + r * 6 + c;
                    vstd::arithmetic::div_mod::lemma_fundamental_div_mod_converse(
                        q as int,
                        36,
                        k as int,
                        (r * 6 + c) as int,
                    );
                    vstd::arithmetic::div_mod::lemma_fundamental_div_mod_converse(
                        (r * 6 + c) as int,
                        6,
                        r as int,
                        c as int,
                    );
                    vstd::arithmetic::div_mod::lemma_fundamental_div_mod_converse(
                        q as int,
                        6,
                        (k * 6 + r) as int,
                        c as int,
                    );
                }
                let black = corner_black(which, r, c);
                cells.push((orow + r, ocol + c, black));
                c += 1;
            }
            r += 1;
        }
        k += 1;
    }
    let inner = w - 2 * CORNER;
    let mut r: usize = h - STRIP_H;
    assert((r - (h - STRIP_H)) * inner == 0) by (nonlinear_arith)
        requires
            r == h - STRIP_H,
    ;
    while r < h
        invariant
            w == layout.spec_width(),
            h == layout.spec_height(),
            w >= 2 * CORNER,
            h >= 2 * STRIP_H,
            layout.sizes_fit(),
            inner == w - 2 * CORNER,
            h - STRIP_H <= r <= h,
            cells@.len() == 144 + (r - (h - STRIP_H)) * inner,
            forall|q: int|
                0 <= q < cells@.len() ==> {
                    let e = spec_known_cell(w as int, h as int, q);
                    &&& (#[trigger] cells@[q]).0 == e.0
                    &&& cells@[q].1 == e.1
                    &&& cells@[q].2 == e.2
                },
        decreases h - r,
    {
        let mut c: usize = CORNER;
        while c < w - CORNER
            invariant
                w == layout.spec_width(),
                h == layout.spec_height(),
                w >= 2 * CORNER,
                h >= 2 * STRIP_H,
                layout.sizes_fit(),
                inner == w - 2 * CORNER,
                h - STRIP_H <= r < h,
                CORNER <= c <= w - CORNER,
                cells@.len() == 144 + (r - (h - STRIP_H)) * inner + (c - CORNER),
                forall|q: int|
                    0 <= q < cells@.len() ==> {
                        let e = spec_known_cell(w as int, h as int, q);
                        &&& (#[trigger] cells@[q]).0 == e.0
                        &&& cells@[q].1 == e.1
                        &&& cells@[q].2 == e.2
                    },
            decreases w - CORNER - c,
        {
            proof {
                let j = (r - (h - STRIP_H)) * inner + (c - CORNER);
                vstd::arithmetic::div_mod::lemma_fundamental_div_mod_converse(
                    j as int,
                    inner as int,
                    (r - (h - STRIP_H)) as int,
                    (c - CORNER) as int,
                );
            }
            cells.push((r, c, (r + c) % 2 == 0));
            c += 1;
        }
        proof {
            assert((r - (h - STRIP_H)) * inner + inner == (r + 1 - (h - STRIP_H)) * inner)
                by (nonlinear_arith);
        }
        r += 1;
    }
    cells
}

/// The known cells are known: every frame of the layout, whatever its
/// header and blocks, shows each known cell in its listed colour.
pub proof fn lemma_known_cells_match_frame(h: FrameHeader, blocks: Seq<Seq<u8>>, q: int)
    requires
        h.layout.spec_width() >= 2 * CORNER,
        0 <= q < known_count(h.layout.spec_width()),
    ensures
        spec_frame_cell(
            h,
            blocks,
            spec_known_cell(h.layout.spec_width(), h.layout.spec_height(), q).0,
            spec_known_cell(h.layout.spec_width(), h.layout.spec_height(), q).1,
        ) == spec_known_cell(h.layout.spec_width(), h.layout.spec_height(), q).2,
{
    let w = h.layout.spec_width();
    let ht = h.layout.spec_height();
    assert(ht >= 2 * STRIP_H) by (nonlinear_arith)
        requires
            ht == h.layout.grid_h * h.layout.block + 2 * STRIP_H,
            h.layout.grid_h >= 0,
            h.layout.block >= 0,
    ;
    if q >= 4 * CORNER * CORNER {
        let j = q - 4 * CORNER * CORNER;
        let inner = w - 2 * CORNER;
        if inner > 0 {
            vstd::arithmetic::div_mod::lemma_fundamental_div_mod(j, inner);
            assert(j / inner < STRIP_H) by (nonlinear_arith)
                requires
                    j == inner * (j / inner) + j % inner,
                    0 <= j % inner,
                    j < STRIP_H * inner,
                    inner > 0,
            ;
            assert(j / inner >= 0) by (nonlinear_arith)
                requires
                    j == inner * (j / inner) + j % inner,
                    j % inner < inner,
                    j >= 0,
                    inner > 0,
            ;
        } else {
            assert(STRIP_H * inner == 0);
        }
    }
}

} // verus!
