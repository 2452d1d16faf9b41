//! Frame layout and the frame data structure.
//!
//! Finder patterns sit in the four corners, each surrounded on its data-facing
//! sides by a one-cell quiet zone (white); calibration rows show the palette
//! as reference patches; every other cell is a data cell.

use vstd::prelude::*;
use crate::palette::{Color, PALETTE_SIZE};

verus! {

/// Bytes of the big-endian `u32` length header in front of the payload.
pub const LENGTH_HEADER_BYTES: usize = 4;

/// The role of a cell; encoder and decoder branch on it.
#[derive(Debug, Clone, Copy, PartialEq, Eq, Structural)]
pub enum CellRole {
    /// A data cell: the encoder fills it with payload bits.
    Data,
    /// A calibration cell showing a fixed palette colour.
    Calibration(Color),
    /// A finder-pattern cell (or its quiet zone) with a fixed colour.
    Finder(Color),
}

/// Geometry of a frame.
#[derive(Debug, Clone, Copy, PartialEq, Eq, Structural)]
pub struct FrameSpec {
    pub grid_width: usize,
    pub grid_height: usize,
    pub cell_px: usize,
    /// Finder size in cells; 0 disables finders. 7 is the QR-like choice.
    pub finder_size: usize,
    /// First calibration row.
    pub calibration_row_start: usize,
    /// Number of calibration rows; 0 disables calibration.
    pub calibration_rows: usize,
}

/// `a - b` floored at zero.
pub open spec fn sat_sub(a: int, b: int) -> int {
    if a > b { a - b } else { 0 }
}

/// Colour of cell (row, col) of a QR-like finder of side `size`: black outer
/// ring, white inner ring, black centre block.
pub open spec fn spec_finder_pattern_color(row: int, col: int, size: int) -> Color {
    if row == 0 || row == size - 1 || col == 0 || col == size - 1 {
        0
    } else if row == 1 || row == size - 2 || col == 1 || col == size - 2 {
        7
    } else {
        0
    }
}

impl FrameSpec {
    /// The standard geometry: 128x128 cells of 8 px, 7-cell finders and one
    /// calibration row in the middle (row 64).
    pub open spec fn spec_phase_0() -> FrameSpec {
        FrameSpec {
            grid_width: 128,
            grid_height: 128,
            cell_px: 8,
            finder_size: 7,
            calibration_row_start: 64,
            calibration_rows: 1,
        }
    }

    pub open spec fn spec_total_cells(self) -> int {
        self.grid_width * self.grid_height
    }

    /// Side of one finder corner with its quiet zone: `finder_size + 1`, or
    /// 0 when finders are disabled (`finder_size == 0`).
    pub open spec fn spec_corner_side(self) -> int {
        if self.finder_size == 0 {
            0
        } else {
            self.finder_size + 1
        }
    }

    pub open spec fn spec_finder_cells(self) -> int {
        4 * self.spec_corner_side() * self.spec_corner_side()
    }

    pub open spec fn spec_calibration_cells(self) -> int {
        self.calibration_rows * self.grid_width
    }

    pub open spec fn spec_data_cells(self) -> int {
        self.spec_total_cells() - self.spec_finder_cells() - self.spec_calibration_cells()
    }

    pub open spec fn spec_data_bytes(self) -> int {
        self.spec_data_cells() * 3 / 8
    }

    pub open spec fn spec_rs_blocks(self) -> int {
        self.spec_data_bytes() / 255
    }

    pub open spec fn spec_max_payload_bytes(self) -> int {
        self.spec_rs_blocks() * 191 - 4
    }

    /// The cell counts of this geometry can be computed in `usize` without
    /// overflow or underflow.
    pub open spec fn counts_fit(self) -> bool {
        &&& self.spec_total_cells() <= usize::MAX
        &&& self.finder_size < usize::MAX
        &&& self.spec_finder_cells() <= usize::MAX
        &&& self.spec_calibration_cells() <= usize::MAX
        &&& self.spec_finder_cells() + self.spec_calibration_cells() <= self.spec_total_cells()
        &&& self.spec_data_cells() * 3 <= usize::MAX
    }

    /// `cell_role` can be evaluated on every cell of the grid without
    /// overflow: the calibration band end and `col * 8` fit in `usize`.
    pub open spec fn roles_fit(self) -> bool {
        &&& self.finder_size < usize::MAX
        &&& self.calibration_rows > 0 ==> self.calibration_row_start + self.calibration_rows
            <= usize::MAX
        &&& self.grid_width * 8 <= usize::MAX
    }

    /// Palette colour of the calibration patch in column `col`: the width is
    /// split into eight equal patches showing colours 0..=7 in order.
    pub open spec fn spec_calibration_color_for(self, col: int) -> Color {
        ((col * 8 / (self.grid_width as int)) % 8) as u8
    }

    /// The role of cell (row, col).
    pub open spec fn spec_cell_role(self, row: int, col: int) -> CellRole {
        let fs = self.finder_size as int;
        let qz = fs + 1;
        let w = self.grid_width as int;
        let h = self.grid_height as int;
        if fs > 0 && row < qz && col < qz {
            if row < fs && col < fs {
                CellRole::Finder(spec_finder_pattern_color(row, col, fs))
            } else {
                CellRole::Finder(7)
            }
        } else if fs > 0 && row < qz && col >= sat_sub(w, qz) {
            if row < fs && col >= sat_sub(w, fs) {
                CellRole::Finder(spec_finder_pattern_color(row, col - (w - fs), fs))
            } else {
                CellRole::Finder(7)
            }
        } else if fs > 0 && row >= sat_sub(h, qz) && col < qz {
            if row >= sat_sub(h, fs) && col < fs {
                CellRole::Finder(spec_finder_pattern_color(row - (h - fs), col, fs))
            } else {
                CellRole::Finder(7)
            }
        } else if fs > 0 && row >= sat_sub(h, qz) && col >= sat_sub(w, qz) {
            if row >= sat_sub(h, fs) && col >= sat_sub(w, fs) {
                CellRole::Finder(spec_finder_pattern_color(row - (h - fs), col - (w - fs), fs))
            } else {
                CellRole::Finder(7)
            }
        } else if self.calibration_rows > 0 && self.calibration_row_start <= row
            < self.calibration_row_start + self.calibration_rows {
            CellRole::Calibration(self.spec_calibration_color_for(col))
        } else {
            CellRole::Data
        }
    }

    /// The role of the cell at row-major index `i`.
    pub open spec fn spec_role_at(self, i: int) -> CellRole {
        self.spec_cell_role(i / (self.grid_width as int), i % (self.grid_width as int))
    }

    /// Number of data cells among the first `n` cells in row-major order.
    pub open spec fn spec_data_count(self, n: int) -> int
        decreases n,
    {
        if n <= 0 {
            0
        } else if self.spec_role_at(n - 1) is Data {
            self.spec_data_count(n - 1) + 1
        } else {
            self.spec_data_count(n - 1)
        }
    }

    /// Number of data cells in the whole grid.
    pub open spec fn spec_data_cell_total(self) -> int {
        self.spec_data_count(self.spec_total_cells())
    }

    /// The standard geometry (see `spec_phase_0`).
    pub fn phase_0() -> (s: FrameSpec)
        ensures
            s == FrameSpec::spec_phase_0(),
    {
        FrameSpec {
            grid_width: 128,
            grid_height: 128,
            cell_px: 8,
            finder_size: 7,
            calibration_row_start: 64,
            calibration_rows: 1,
        }
    }

    pub fn total_cells(&self) -> (n: usize)
        requires
            self.spec_total_cells() <= usize::MAX,
        ensures
            n == self.spec_total_cells(),
    {
        self.grid_width * self.grid_height
    }

    /// Cells taken by the four finders and their quiet zones: each corner
    /// occupies `(finder_size + 1)^2` cells; none when finders are disabled
    /// (`finder_size == 0`).
    pub fn finder_cells(&self) -> (n: usize)
        requires
            self.finder_size < usize::MAX,
            self.spec_finder_cells() <= usize::MAX,
        ensures
            n == self.spec_finder_cells(),
    {
        if self.finder_size == 0 {
            return 0;
        }
        let q = self.finder_size + 1;
        assert(self.spec_corner_side() == q);
        assert(4 * q <= usize::MAX) by (nonlinear_arith)
            requires
                4 * q * q <= usize::MAX,
                q >= 1,
        ;
        4 * q * q
    }

    pub fn calibration_cells(&self) -> (n: usize)
        requires
            self.spec_calibration_cells() <= usize::MAX,
        ensures
            n == self.spec_calibration_cells(),
    {
        self.calibration_rows * self.grid_width
    }

    pub fn data_cells(&self) -> (n: usize)
        requires
            self.spec_total_cells() <= usize::MAX,
            self.finder_size < usize::MAX,
            self.spec_finder_cells() <= usize::MAX,
            self.spec_calibration_cells() <= usize::MAX,
            self.spec_finder_cells() + self.spec_calibration_cells() <= self.spec_total_cells(),
        ensures
            n == self.spec_data_cells(),
    {
        self.total_cells() - self.finder_cells() - self.calibration_cells()
    }

    /// Total bytes when the data cells are packed at 3 bits per cell.
    pub fn data_bytes(&self) -> (n: usize)
        requires
            self.counts_fit(),
        ensures
            n == self.spec_data_bytes(),
    {
        (self.data_cells() * 3) / 8
    }

    pub fn rs_blocks(&self) -> (n: usize)
        requires
            self.counts_fit(),
        ensures
            n == self.spec_rs_blocks(),
    {
        self.data_bytes() / 255
    }

    /// Largest payload that fits: the data part of all RS blocks minus the
    /// length header.
    pub fn max_payload_bytes(&self) -> (n: usize)
        requires
            self.counts_fit(),
            self.spec_rs_blocks() >= 1,
        ensures
            n == self.spec_max_payload_bytes(),
    {
        let b = self.rs_blocks();
        assert(b * 191 <= usize::MAX) by (nonlinear_arith)
            requires
                b <= usize::MAX / 255,
        ;
        b * 191 - LENGTH_HEADER_BYTES
    }

    /// Image size in pixels.
    pub fn image_dimensions(&self) -> (d: (usize, usize))
        requires
            self.grid_width * self.cell_px <= usize::MAX,
            self.grid_height * self.cell_px <= usize::MAX,
        ensures
            d.0 == self.grid_width * self.cell_px,
            d.1 == self.grid_height * self.cell_px,
    {
        (self.grid_width * self.cell_px, self.grid_height * self.cell_px)
    }

    /// Palette colour of the calibration patch in column `col`.
    pub fn calibration_color_for(&self, col: usize) -> (c: Color)
        requires
            self.grid_width > 0,
            col * 8 <= usize::MAX,
        ensures
            c == self.spec_calibration_color_for(col as int),
            c < 8,
    {
        let patch = (col * PALETTE_SIZE) / self.grid_width;
        assert(patch & 0b111 == patch % 8) by (bit_vector);
        (patch & 0b111) as Color
    }

    /// The role of cell (row, col) of the grid.
    pub fn cell_role(&self, row: usize, col: usize) -> (role: CellRole)
        requires
            row < self.grid_height,
            col < self.grid_width,
            self.roles_fit(),
        ensures
            role == self.spec_cell_role(row as int, col as int),
    {
        let fs = self.finder_size;
        if fs > 0 {
            let qz = fs + 1;
            if row < qz && col < qz {
                if row < fs && col < fs {
                    return CellRole::Finder(finder_pattern_color(row, col, fs));
                }
                return CellRole::Finder(7);
            }
            if row < qz && col >= self.grid_width.saturating_sub(qz) {
                if row < fs && col >= self.grid_width.saturating_sub(fs) {
                    let lc = col - (self.grid_width - fs);
                    return CellRole::Finder(finder_pattern_color(row, lc, fs));
                }
                return CellRole::Finder(7);
            }
            if row >= self.grid_height.saturating_sub(qz) && col < qz {
                if row >= self.grid_height.saturating_sub(fs) && col < fs {
                    let lr = row - (self.grid_height - fs);
                    return CellRole::Finder(finder_pattern_color(lr, col, fs));
                }
                return CellRole::Finder(7);
            }
            if row >= self.grid_height.saturating_sub(qz) && col >= self.grid_width.saturating_sub(
                qz,
            ) {
                if row >= self.grid_height.saturating_sub(fs) && col
                    >= self.grid_width.saturating_sub(fs) {
                    let lr = row - (self.grid_height - fs);
                    let lc = col - (self.grid_width - fs);
                    return CellRole::Finder(finder_pattern_color(lr, lc, fs));
                }
                return CellRole::Finder(7);
            }
        }
        if self.calibration_rows > 0 {
            let start = self.calibration_row_start;
            let end = start + self.calibration_rows;
            if row >= start && row < end {
                return CellRole::Calibration(self.calibration_color_for(col));
            }
        }
        CellRole::Data
    }
}

/// Colour of cell (row, col) of a finder of side `size`.
fn finder_pattern_color(row: usize, col: usize, size: usize) -> (c: Color)
    requires
        size >= 1,
        size >= 2 || row == 0 || col == 0,
    ensures
        c == spec_finder_pattern_color(row as int, col as int, size as int),
{
    if row == 0 || row == size - 1 || col == 0 || col == size - 1 {
        return 0;
    }
    if row == 1 || row == size - 2 || col == 1 || col == size - 2 {
        return 7;
    }
    0
}


/// Cell `i` (row-major) of the frame built from data cells `data`: data
/// cells take the next entry of `data`, calibration and finder cells their
/// fixed colour.
pub open spec fn spec_place_at(s: FrameSpec, data: Seq<Color>, i: int) -> Color {
    match s.spec_role_at(i) {
        CellRole::Data => data[s.spec_data_count(i)],
        CellRole::Calibration(c) => c,
        CellRole::Finder(c) => c,
    }
}

/// The cells of a frame built from data cells `data`.
pub open spec fn spec_place(s: FrameSpec, data: Seq<Color>) -> Seq<Color> {
    Seq::new(s.spec_total_cells() as nat, |i: int| spec_place_at(s, data, i))
}

/// The data cells among the first `n` cells of `cells`, in row-major order.
pub open spec fn spec_extract(s: FrameSpec, cells: Seq<Color>, n: int) -> Seq<Color>
    decreases n,
{
    if n <= 0 {
        Seq::empty()
    } else if s.spec_role_at(n - 1) is Data {
        spec_extract(s, cells, n - 1).push(cells[n - 1])
    } else {
        spec_extract(s, cells, n - 1)
    }
}

/// The data-cell count never decreases along the grid.
pub proof fn lemma_data_count_monotone(s: FrameSpec, a: int, b: int)
    requires
        a <= b,
    ensures
        s.spec_data_count(a) <= s.spec_data_count(b),
        0 <= s.spec_data_count(a),
    decreases b - a,
{
    lemma_data_count_nonneg(s, a);
    if a < b {
        lemma_data_count_monotone(s, a, b - 1);
    }
}

/// Data-cell counts are never negative.
pub proof fn lemma_data_count_nonneg(s: FrameSpec, n: int)
    ensures
        0 <= s.spec_data_count(n),
    decreases n,
{
    if n > 0 {
        lemma_data_count_nonneg(s, n - 1);
    }
}

/// Extracting the data cells yields one cell per data role.
pub proof fn lemma_extract_len(s: FrameSpec, cells: Seq<Color>, n: int)
    ensures
        spec_extract(s, cells, n).len() == s.spec_data_count(n),
    decreases n,
{
    if n > 0 {
        lemma_extract_len(s, cells, n - 1);
    }
}

/// Extracting the data cells of a placed frame gives back the data cells
/// placed so far.
pub proof fn lemma_extract_place_prefix(s: FrameSpec, data: Seq<Color>, n: int)
    requires
        0 <= n <= s.spec_total_cells(),
        data.len() == s.spec_data_cell_total(),
    ensures
        spec_extract(s, spec_place(s, data), n) == data.subrange(0, s.spec_data_count(n)),
    decreases n,
{
    if n == 0 {
        assert(data.subrange(0, 0) =~= Seq::<Color>::empty());
    } else {
        lemma_extract_place_prefix(s, data, n - 1);
        lemma_data_count_monotone(s, n, s.spec_total_cells());
        lemma_data_count_monotone(s, 0, n - 1);
        if s.spec_role_at(n - 1) is Data {
            assert(data.subrange(0, s.spec_data_count(n - 1)).push(data[s.spec_data_count(n - 1)])
                =~= data.subrange(0, s.spec_data_count(n)));
        }
    }
}

/// Placing data cells into a frame and extracting them again gives them back
/// unchanged, when there are exactly as many as the layout has data cells.
pub proof fn lemma_extract_place(s: FrameSpec, data: Seq<Color>)
    requires
        s.spec_total_cells() >= 0,
        data.len() == s.spec_data_cell_total(),
    ensures
        spec_extract(s, spec_place(s, data), s.spec_total_cells()) == data,
{
    lemma_extract_place_prefix(s, data, s.spec_total_cells());
    assert(data.subrange(0, data.len() as int) =~= data);
}

/// Row-major index `row * width + col` of an in-grid cell splits back into
/// its row and column.
pub proof fn lemma_row_major(s: FrameSpec, row: int, col: int)
    requires
        0 <= row,
        0 <= col < s.grid_width,
    ensures
        (row * s.grid_width + col) / (s.grid_width as int) == row,
        (row * s.grid_width + col) % (s.grid_width as int) == col,
        s.spec_role_at(row * s.grid_width + col) == s.spec_cell_role(row, col),
{
    vstd::arithmetic::div_mod::lemma_fundamental_div_mod_converse(
        row * s.grid_width + col,
        s.grid_width as int,
        row,
        col,
    );
}

/// Fixed-colour cells show palette indices (below 8).
pub proof fn lemma_role_color_small(s: FrameSpec, row: int, col: int)
    requires
        s.grid_width > 0,
    ensures
        match s.spec_cell_role(row, col) {
            CellRole::Data => true,
            CellRole::Calibration(c) => c < 8,
            CellRole::Finder(c) => c < 8,
        },
{
    let x = col * 8 / (s.grid_width as int);
    assert(0 <= x % 8 < 8);
}

impl FrameSpec {
    /// A regular layout: the four finder corners (with their quiet zones,
    /// if finders are enabled) fit side by side in both directions, and the
    /// calibration band lies between the top and bottom corners.
    pub open spec fn layout_regular(self) -> bool {
        let qz = self.spec_corner_side();
        &&& 2 * qz <= self.grid_width
        &&& 2 * qz <= self.grid_height
        &&& self.calibration_rows > 0 ==> qz <= self.calibration_row_start
            && self.calibration_row_start + self.calibration_rows + qz <= self.grid_height
    }

    /// Data cells among the first `c` columns of row `row` of a regular
    /// layout.
    pub open spec fn spec_row_data(self, row: int, c: int) -> int {
        let qz = self.spec_corner_side();
        let w = self.grid_width as int;
        let h = self.grid_height as int;
        if row < qz || row >= h - qz {
            if c <= qz {
                0
            } else if c <= w - qz {
                c - qz
            } else {
                w - 2 * qz
            }
        } else if self.calibration_rows > 0 && self.calibration_row_start <= row
            < self.calibration_row_start + self.calibration_rows {
            0
        } else {
            c
        }
    }

    /// Data cells in the first `r` rows of a regular layout.
    pub open spec fn spec_rows_data(self, r: int) -> int {
        let qz = self.spec_corner_side();
        let w = self.grid_width as int;
        let h = self.grid_height as int;
        let top = if r < qz { r } else { qz };
        let bottom = if r > h - qz { r - (h - qz) } else { 0 };
        let cal = if self.calibration_rows == 0 || r <= self.calibration_row_start {
            0
        } else if r >= self.calibration_row_start + self.calibration_rows {
            self.calibration_rows as int
        } else {
            r - self.calibration_row_start
        };
        r * w - 2 * qz * (top + bottom) - w * cal
    }
}

/// In a regular layout a cell is a data cell exactly when it lies outside
/// the finder corners and the calibration band.
proof fn lemma_regular_is_data(s: FrameSpec, row: int, col: int)
    requires
        s.layout_regular(),
        0 <= row < s.grid_height,
        0 <= col < s.grid_width,
    ensures
        (s.spec_cell_role(row, col) is Data) <==> (s.spec_row_data(row, col + 1) == s.spec_row_data(
            row,
            col,
        ) + 1),
{
}

/// Counting along one row of a regular layout.
proof fn lemma_row_count(s: FrameSpec, row: int, c: int)
    requires
        s.layout_regular(),
        0 <= row < s.grid_height,
        0 <= c <= s.grid_width,
    ensures
        s.spec_data_count(row * s.grid_width + c) == s.spec_data_count(row * s.grid_width)
            + s.spec_row_data(row, c),
    decreases c,
{
    if c > 0 {
        lemma_row_count(s, row, c - 1);
        lemma_row_major(s, row, c - 1);
        lemma_regular_is_data(s, row, c - 1);
        assert(row * s.grid_width + c - 1 + 1 == row * s.grid_width + c);
    }
}

/// Counting over whole rows of a regular layout.
proof fn lemma_rows_count(s: FrameSpec, r: int)
    requires
        s.layout_regular(),
        0 <= r <= s.grid_height,
    ensures
        s.spec_data_count(r * s.grid_width) == s.spec_rows_data(r),
    decreases r,
{
    let w = s.grid_width as int;
    if r == 0 {
        assert(0 * w == 0);
    } else {
        lemma_rows_count(s, r - 1);
        lemma_row_count(s, r - 1, w);
        assert((r - 1) * w + w == r * w) by (nonlinear_arith);
        let qz = s.spec_corner_side();
        assert(r * w == (r - 1) * w + w) by (nonlinear_arith);
        assert(2 * qz * (r - 1) + 2 * qz == 2 * qz * r) by (nonlinear_arith);
        assert(w * (r - 1 - s.calibration_row_start) + w == w * (r - s.calibration_row_start))
            by (nonlinear_arith);
        assert(2 * qz * (r - 1 - (s.grid_height - qz)) + 2 * qz == 2 * qz * (r - (s.grid_height
            - qz))) by (nonlinear_arith);
        assert(2 * qz * (r - 1 + 0) == 2 * qz * (r - 1)) by (nonlinear_arith);
        assert(2 * qz * (qz + (r - 1 - (s.grid_height - qz))) + 2 * qz == 2 * qz * (qz + (r - (
        s.grid_height - qz)))) by (nonlinear_arith);
        assert(2 * qz * (r - 1 + (r - 1 - (s.grid_height - qz))) + 2 * qz + 2 * qz == 2 * qz * (r
            + (r - (s.grid_height - qz)))) by (nonlinear_arith);
    }
}

/// The layout law: in a regular layout the number of data cells on the grid
/// is exactly `data_cells()` (total minus finder corners minus calibration
/// rows).
pub proof fn lemma_regular_data_cells(s: FrameSpec)
    requires
        s.layout_regular(),
    ensures
        s.spec_data_cell_total() == s.spec_data_cells(),
{
    lemma_rows_count(s, s.grid_height as int);
    let w = s.grid_width as int;
    let h = s.grid_height as int;
    let qz = s.spec_corner_side();
    assert(h * w == w * h) by (nonlinear_arith);
    assert(2 * qz * (qz + qz) == 4 * qz * qz) by (nonlinear_arith);
    assert(w * s.calibration_rows == s.calibration_rows * w) by (nonlinear_arith);
}

/// A frame: its geometry and one palette index per cell, row-major.
#[derive(Debug, PartialEq, Eq)]
pub struct Frame {
    pub spec: FrameSpec,
    pub cells: Vec<Color>,
}

impl Frame {
    pub fn new(spec: FrameSpec, cells: Vec<Color>) -> (f: Self)
        requires
            cells@.len() == spec.spec_total_cells(),
        ensures
            f.spec == spec,
            f.cells@ == cells@,
    {
        Frame { spec, cells }
    }

    /// Colour of the cell in column `x`, row `y`.
    pub fn get(&self, x: usize, y: usize) -> (c: Color)
        requires
            y * self.spec.grid_width + x < self.cells@.len(),
        ensures
            c == self.cells@[y * self.spec.grid_width + x],
    {
        let _n = self.cells.len();
        self.cells[y * self.spec.grid_width + x]
    }
}

impl FrameSpec {
    /// Whether the cell counts and the cell roles of this geometry can be
    /// computed in `usize` (see `counts_fit` and `roles_fit`).
    pub fn sizes_fit(&self) -> (ok: bool)
        ensures
            ok == (self.counts_fit() && self.roles_fit()),
    {
        let total = match self.grid_width.checked_mul(self.grid_height) {
            Some(t) => t,
            None => return false,
        };
        if self.finder_size == usize::MAX {
            return false;
        }
        let q = if self.finder_size == 0 { 0 } else { self.finder_size + 1 };
        let q4 = match q.checked_mul(4) {
            Some(v) => v,
            None => {
                assert(4 * q * q > usize::MAX) by (nonlinear_arith)
                    requires
                        4 * q > usize::MAX,
                ;
                return false;
            },
        };
        let finder = match q4.checked_mul(q) {
            Some(v) => v,
            None => return false,
        };
        assert(finder == self.spec_finder_cells()) by (nonlinear_arith)
            requires
                finder == q4 * q,
                q4 == q * 4,
                q == self.spec_corner_side(),
        ;
        let calib = match self.calibration_rows.checked_mul(self.grid_width) {
            Some(v) => v,
            None => return false,
        };
        if finder > total || calib > total - finder {
            return false;
        }
        let data = total - finder - calib;
        if data > usize::MAX / 3 {
            return false;
        }
        if self.calibration_rows > 0 && self.calibration_rows > usize::MAX - self.calibration_row_start {
            return false;
        }
        self.grid_width <= usize::MAX / 8
    }

    /// Number of cells whose role is data, counted over the whole grid.
    pub fn data_cell_count(&self) -> (n: usize)
        requires
            self.counts_fit(),
            self.roles_fit(),
        ensures
            n == self.spec_data_cell_total(),
    {
        let w = self.grid_width;
        let h = self.grid_height;
        let mut n: usize = 0;
        let mut r: usize = 0;
        while r < h
            invariant
                self.counts_fit(),
                self.roles_fit(),
                w == self.grid_width,
                h == self.grid_height,
                r <= h,
                n == self.spec_data_count(r * w),
                n <= r * w,
            decreases h - r,
        {
            proof {
                assert((r + 1) * w <= h * w) by (nonlinear_arith)
                    requires
                        r < h,
                ;
                assert((r + 1) * w == r * w + w) by (nonlinear_arith);
            }
            let mut c: usize = 0;
            while c < w
                invariant
                    self.counts_fit(),
                    self.roles_fit(),
                    w == self.grid_width,
                    h == self.grid_height,
                    r < h,
                    (r + 1) * w <= h * w,
                    c <= w,
                    n == self.spec_data_count(r * w + c),
                    n <= r * w + c,
                decreases w - c,
            {
                proof {
                    lemma_row_major(*self, r as int, c as int);
                    assert(h * w == w * h) by (nonlinear_arith);
                    assert(r * w + c < (r + 1) * w) by (nonlinear_arith)
                        requires
                            c < w,
                    ;
                    assert(n < usize::MAX);
                }
                if let CellRole::Data = self.cell_role(r, c) {
                    n += 1;
                }
                c += 1;
            }
            proof {
                assert(r * w + w == (r + 1) * w) by (nonlinear_arith);
            }
            r += 1;
        }
        proof {
            assert(h * w == w * h) by (nonlinear_arith);
        }
        n
    }
}

/// A geometry from its six parameters, as a C caller passes them.
pub fn make_spec(
    grid_width: usize,
    grid_height: usize,
    cell_px: usize,
    finder_size: usize,
    calibration_row_start: usize,
    calibration_rows: usize,
) -> (s: FrameSpec)
    ensures
        s == (FrameSpec {
            grid_width,
            grid_height,
            cell_px,
            finder_size,
            calibration_row_start,
            calibration_rows,
        }),
{
    FrameSpec {
        grid_width,
        grid_height,
        cell_px,
        finder_size,
        calibration_row_start,
        calibration_rows,
    }
}

/// Finder quiet zones: with finders enabled and the four finder corners
/// fitting side by side, every cell of a corner's `(finder_size + 1)`-square
/// that lies outside its `finder_size`-square is white (`Finder(7)`), for
/// all four corners, so each finder is separated from the data.
pub proof fn lemma_finder_quiet_zones(s: FrameSpec, row: int, col: int)
    requires
        s.finder_size > 0,
        2 * (s.finder_size + 1) <= s.grid_width,
        2 * (s.finder_size + 1) <= s.grid_height,
        0 <= row < s.grid_height,
        0 <= col < s.grid_width,
        ({
            let fs = s.finder_size as int;
            let qz = fs + 1;
            let w = s.grid_width as int;
            let h = s.grid_height as int;
            ||| (row < qz && col < qz && !(row < fs && col < fs))
            ||| (row < qz && col >= w - qz && !(row < fs && col >= w - fs))
            ||| (row >= h - qz && col < qz && !(row >= h - fs && col < fs))
            ||| (row >= h - qz && col >= w - qz && !(row >= h - fs && col >= w - fs))
        }),
    ensures
        s.spec_cell_role(row, col) == CellRole::Finder(7),
{
}

/// Finder patterns: the `finder_size`-square of each corner (top-left cell
/// `(top, left)`) shows, in its own coordinates `(r, c)`, a black outer
/// ring, a white inner ring and a black centre.
pub proof fn lemma_finder_rings(s: FrameSpec, top: int, left: int, row: int, col: int)
    requires
        s.finder_size > 0,
        2 * (s.finder_size + 1) <= s.grid_width,
        2 * (s.finder_size + 1) <= s.grid_height,
        (top == 0 || top == s.grid_height - s.finder_size),
        (left == 0 || left == s.grid_width - s.finder_size),
        top <= row < top + s.finder_size,
        left <= col < left + s.finder_size,
    ensures
        ({
            let fs = s.finder_size as int;
            let r = row - top;
            let c = col - left;
            let outer = r == 0 || r == fs - 1 || c == 0 || c == fs - 1;
            let inner = r == 1 || r == fs - 2 || c == 1 || c == fs - 2;
            &&& outer ==> s.spec_cell_role(row, col) == CellRole::Finder(0)
            &&& !outer && inner ==> s.spec_cell_role(row, col) == CellRole::Finder(7)
            &&& !outer && !inner ==> s.spec_cell_role(row, col) == CellRole::Finder(0)
        }),
{
}

} // verus!
