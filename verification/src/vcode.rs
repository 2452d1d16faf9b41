//! vcode v0: a video-native 2D code frame format.
//!
//! A frame is a grid of independent blocks. Each block carries one packet
//! plus a CRC-16, so blocks that survive in a partly damaged frame are still
//! recovered. Function patterns are the four corner markers and the top and
//! bottom strips; the top strip repeats the frame header (with its own
//! CRC). v0 uses 1 bit per cell (black/white).
//!
//! Frame structure in cells (default layout 100x92):
//!   - top strip (rows 0..6): 6x6 corner markers at both ends, header copies
//!     in between
//!   - data area (rows 6..86): 5x4 blocks of 20x20 cells, each 48 payload
//!     bytes + CRC-16
//!   - bottom strip (rows 86..92): corner markers at both ends, a
//!     checkerboard calibration/timing pattern in between
//!
//! The decoder here assumes an ideal channel: an integer scale and no
//! distortion.

use vstd::prelude::*;
use crate::bitstream::{byte_bit, bits_value, lemma_bits_value_ext, lemma_byte_bits, lemma_bit_le_1, lemma_bits_value_bound};
use vstd::arithmetic::power2::{pow2, lemma2_to64};

verus! {

/// Height of the top and bottom strips (cells).
pub const STRIP_H: usize = 6;
/// Side of a corner marker (cells).
pub const CORNER: usize = 6;
/// Magic byte at the start of the header.
pub const MAGIC: u8 = 0xB9;
/// Serialized header length, CRC-16 included.
pub const HEADER_LEN: usize = 22;
/// Format version.
pub const VERSION: u8 = 0;

/// One shift-register step of CRC-16/CCITT (polynomial 0x1021).
pub open spec fn crc_step(crc: u16) -> u16 {
    if crc & 0x8000 != 0 {
        (crc << 1u16) ^ 0x1021
    } else {
        crc << 1u16
    }
}

/// `n` shift-register steps.
pub open spec fn crc_steps(crc: u16, n: nat) -> u16
    decreases n,
{
    if n == 0 {
        crc
    } else {
        crc_step(crc_steps(crc, (n - 1) as nat))
    }
}

/// Feeds one byte into the CRC register.
pub open spec fn crc_byte(crc: u16, b: u8) -> u16 {
    crc_steps(crc ^ ((b as u16) << 8u16), 8)
}

/// CRC-16/CCITT-FALSE (init 0xFFFF, polynomial 0x1021) of `data`.
pub open spec fn spec_crc16(data: Seq<u8>) -> u16
    decreases data.len(),
{
    if data.len() == 0 {
        0xFFFF
    } else {
        crc_byte(spec_crc16(data.drop_last()), data.last())
    }
}

/// CRC-16/CCITT-FALSE (init=0xFFFF, poly=0x1021).
pub fn crc16(data: &[u8]) -> (crc: u16)
    ensures
        crc == spec_crc16(data@),
{
    let mut crc: u16 = 0xFFFF;
    let mut i: usize = 0;
    assert(data@.subrange(0, 0) =~= Seq::<u8>::empty());
    while i < data.len()
        invariant
            i <= data@.len(),
            crc == spec_crc16(data@.subrange(0, i as int)),
        decreases data.len() - i,
    {
        let b = data[i];
        crc ^= (b as u16) << 8;
        let ghost start = crc;
        let mut j: u32 = 0;
        while j < 8
            invariant
                j <= 8,
                crc == crc_steps(start, j as nat),
            decreases 8 - j,
        {
            crc = if crc & 0x8000 != 0 { (crc << 1) ^ 0x1021 } else { crc << 1 };
            j += 1;
        }
        assert(data@.subrange(0, i + 1).drop_last() =~= data@.subrange(0, i as int));
        i += 1;
    }
    assert(data@.subrange(0, data@.len() as int) =~= data@);
    crc
}

/// The block grid of a frame. It is carried in the header, so a decoder
/// needs no prior knowledge of it.
#[derive(Clone, Copy, Debug, PartialEq, Eq, Structural)]
pub struct Layout {
    /// Side of a block (cells).
    pub block: usize,
    /// Blocks across.
    pub grid_w: usize,
    /// Blocks down.
    pub grid_h: usize,
}

impl Layout {
    pub open spec fn spec_width(self) -> int {
        self.grid_w * self.block
    }

    pub open spec fn spec_height(self) -> int {
        self.grid_h * self.block + 2 * STRIP_H
    }

    pub open spec fn spec_block_count(self) -> int {
        self.grid_w * self.grid_h
    }

    pub open spec fn spec_block_bytes(self) -> int {
        self.block * self.block / 8
    }

    pub open spec fn spec_block_payload_len(self) -> int {
        self.spec_block_bytes() - 2
    }

    /// The default layout: 100x92 cells, 20 blocks, 880 payload bytes per
    /// frame.
    pub open spec fn spec_v0() -> Layout {
        Layout { block: 20, grid_w: 5, grid_h: 4 }
    }

    /// The default layout (see `spec_v0`).
    pub fn v0() -> (l: Layout)
        ensures
            l == Layout::spec_v0(),
    {
        Layout { block: 20, grid_w: 5, grid_h: 4 }
    }

    pub fn width(&self) -> (w: usize)
        requires
            self.spec_width() <= usize::MAX,
        ensures
            w == self.spec_width(),
    {
        self.grid_w * self.block
    }

    pub fn height(&self) -> (h: usize)
        requires
            self.spec_height() <= usize::MAX,
        ensures
            h == self.spec_height(),
    {
        self.grid_h * self.block + 2 * STRIP_H
    }

    pub fn block_count(&self) -> (n: usize)
        requires
            self.spec_block_count() <= usize::MAX,
        ensures
            n == self.spec_block_count(),
    {
        self.grid_w * self.grid_h
    }

    /// Bytes one block holds at 1 bit per cell.
    pub fn block_bytes(&self) -> (n: usize)
        requires
            self.block * self.block <= usize::MAX,
        ensures
            n == self.spec_block_bytes(),
    {
        self.block * self.block / 8
    }

    /// Block payload length without the CRC-16 (a serialized RaptorQ packet
    /// fits exactly).
    pub fn block_payload_len(&self) -> (n: usize)
        requires
            self.block * self.block <= usize::MAX,
            self.spec_block_bytes() >= 2,
        ensures
            n == self.spec_block_payload_len(),
    {
        self.block_bytes() - 2
    }

    /// RaptorQ `packet_size` for this layout (a serialized packet is a 4-byte
    /// payload ID plus `packet_size` bytes).
    pub fn packet_size(&self) -> (n: usize)
        requires
            self.block * self.block <= usize::MAX,
            self.spec_block_bytes() >= 6,
        ensures
            n == self.spec_block_payload_len() - 4,
    {
        self.block_payload_len() - 4
    }

    /// Top-left cell (row, col) of block `bi` (row-major).
    pub open spec fn spec_block_origin(self, bi: int) -> (int, int) {
        (STRIP_H + (bi / (self.grid_w as int)) * self.block, (bi % (self.grid_w as int)) * self.block)
    }

    fn block_origin(&self, bi: usize) -> (o: (usize, usize))
        requires
            self.grid_w > 0,
            bi < self.spec_block_count(),
            self.spec_height() <= usize::MAX,
            self.spec_width() <= usize::MAX,
        ensures
            o.0 == self.spec_block_origin(bi as int).0,
            o.1 == self.spec_block_origin(bi as int).1,
            o.0 + self.block <= self.spec_height() - STRIP_H,
            o.1 + self.block <= self.spec_width(),
    {
        let by = bi / self.grid_w;
        let bx = bi % self.grid_w;
        proof {
            vstd::arithmetic::div_mod::lemma_fundamental_div_mod(bi as int, self.grid_w as int);
            assert(by < self.grid_h) by (nonlinear_arith)
                requires
                    bi == self.grid_w * by + bx,
                    0 <= bx,
                    bi < self.grid_w * self.grid_h,
                    self.grid_w > 0,
            ;
            assert((by + 1) * self.block <= self.grid_h * self.block) by (nonlinear_arith)
                requires
                    by < self.grid_h,
            ;
            assert((bx + 1) * self.block <= self.grid_w * self.block) by (nonlinear_arith)
                requires
                    bx < self.grid_w,
            ;
            assert((by + 1) * self.block == by * self.block + self.block) by (nonlinear_arith);
            assert((bx + 1) * self.block == bx * self.block + self.block) by (nonlinear_arith);
        }
        (STRIP_H + by * self.block, bx * self.block)
    }
}

/// The frame header. Several CRC-protected copies sit in the top strip.
#[derive(Clone, Copy, Debug, PartialEq, Eq)]
pub struct FrameHeader {
    pub version: u8,
    pub bits_per_cell: u8,
    pub layout: Layout,
    /// Display sequence number (receive statistics, duplicate detection).
    pub frame_seq: u16,
    /// RaptorQ OTI (12 bytes). Every frame carries it, so reception can start
    /// from any frame.
    pub oti: [u8; 12],
}

/// The first 20 bytes of a serialized header: magic, version, bits per
/// cell, the layout fields (one byte each), the sequence number
/// (little-endian) and the OTI.
pub open spec fn spec_header_body(h: FrameHeader) -> Seq<u8> {
    seq![
        MAGIC,
        h.version,
        h.bits_per_cell,
        h.layout.block as u8,
        h.layout.grid_w as u8,
        h.layout.grid_h as u8,
        h.frame_seq as u8,
        (h.frame_seq >> 8u16) as u8,
    ] + h.oti@
}

/// A serialized header: the 20-byte body followed by its CRC-16, big-endian.
pub open spec fn spec_serialize(h: FrameHeader) -> Seq<u8> {
    let body = spec_header_body(h);
    let crc = spec_crc16(body);
    body + seq![(crc >> 8u16) as u8, crc as u8]
}

/// `buf` starts with a well-formed header: long enough, the magic byte, and
/// a matching CRC.
pub open spec fn header_valid(buf: Seq<u8>) -> bool {
    &&& buf.len() >= HEADER_LEN
    &&& buf[0] == MAGIC
    &&& spec_crc16(buf.subrange(0, 20)) == buf[20] * 256 + buf[21]
}

/// `h` holds the fields stored in the header at the start of `buf`.
pub open spec fn header_fields(h: FrameHeader, buf: Seq<u8>) -> bool {
    &&& h.version == buf[1]
    &&& h.bits_per_cell == buf[2]
    &&& h.layout.block == buf[3]
    &&& h.layout.grid_w == buf[4]
    &&& h.layout.grid_h == buf[5]
    &&& h.frame_seq == buf[6] + 256 * buf[7]
    &&& h.oti@ == buf.subrange(8, 20)
}

impl FrameHeader {
    /// Serializes the header (see `spec_serialize`).
    pub fn serialize(&self) -> (buf: [u8; HEADER_LEN])
        ensures
            buf@ == spec_serialize(*self),
    {
        let mut body: Vec<u8> = Vec::with_capacity(20);
        body.push(MAGIC);
        body.push(self.version);
        body.push(self.bits_per_cell);
        body.push(self.layout.block as u8);
        body.push(self.layout.grid_w as u8);
        body.push(self.layout.grid_h as u8);
        body.push(self.frame_seq as u8);
        body.push((self.frame_seq >> 8) as u8);
        let mut i: usize = 0;
        while i < 12
            invariant
                i <= 12,
                body@ =~= spec_header_body(*self).subrange(0, 8 + i as int),
            decreases 12 - i,
        {
            body.push(self.oti[i]);
            i += 1;
        }
        assert(body@ =~= spec_header_body(*self));
        let crc = crc16(body.as_slice());
        let buf: [u8; HEADER_LEN] = [
            body[0], body[1], body[2], body[3], body[4], body[5], body[6], body[7], body[8],
            body[9], body[10], body[11], body[12], body[13], body[14], body[15], body[16],
            body[17], body[18], body[19], (crc >> 8) as u8, crc as u8,
        ];
        assert(buf@ =~= spec_serialize(*self));
        buf
    }

    /// Reads a header from the start of `buf`; `None` unless the magic byte
    /// and the CRC match.
    pub fn deserialize(buf: &[u8]) -> (res: Option<Self>)
        ensures
            res is Some <==> header_valid(buf@),
            res matches Some(h) ==> header_fields(h, buf@) && h == spec_deserialize(buf@),
    {
        if buf.len() < HEADER_LEN || buf[0] != MAGIC {
            return None;
        }
        let b20 = buf[20];
        let b21 = buf[21];
        let crc_stored: u16 = ((b20 as u16) << 8) | (b21 as u16);
        assert(((b20 as u16) << 8u16) | (b21 as u16) == b20 * 256 + b21) by (bit_vector);
        if crc16(&buf[0..20]) != crc_stored {
            return None;
        }
        let b6 = buf[6];
        let b7 = buf[7];
        let frame_seq: u16 = (b6 as u16) | ((b7 as u16) << 8);
        assert((b6 as u16) | ((b7 as u16) << 8u16) == b6 + 256 * b7) by (bit_vector);
        let oti: [u8; 12] = [
            buf[8], buf[9], buf[10], buf[11], buf[12], buf[13], buf[14], buf[15], buf[16],
            buf[17], buf[18], buf[19],
        ];
        assert(oti@ =~= buf@.subrange(8, 20));
        let hd = FrameHeader {
            version: buf[1],
            bits_per_cell: buf[2],
            layout: Layout {
                block: buf[3] as usize,
                grid_w: buf[4] as usize,
                grid_h: buf[5] as usize,
            },
            frame_seq,
            oti,
        };
        proof {
            lemma_deserialize_fields(hd, buf@);
        }
        Some(
            FrameHeader {
                version: buf[1],
                bits_per_cell: buf[2],
                layout: Layout {
                    block: buf[3] as usize,
                    grid_w: buf[4] as usize,
                    grid_h: buf[5] as usize,
                },
                frame_seq,
                oti,
            },
        )
    }
}

/// The header law: serializing a header and reading it back gives the same
/// header, as long as each layout field fits its byte.
pub proof fn lemma_header_roundtrip(h: FrameHeader)
    requires
        h.layout.block <= 255,
        h.layout.grid_w <= 255,
        h.layout.grid_h <= 255,
    ensures
        header_valid(spec_serialize(h)),
        header_fields(h, spec_serialize(h)),
{
    let buf = spec_serialize(h);
    let body = spec_header_body(h);
    let crc = spec_crc16(body);
    assert(buf.subrange(0, 20) =~= body);
    assert(((crc >> 8u16) as u8) * 256 + (crc as u8) == crc) by (bit_vector);
    let s = h.frame_seq;
    assert((s as u8) + 256 * ((s >> 8u16) as u8) == s) by (bit_vector);
    assert(buf.subrange(8, 20) =~= h.oti@);
}

/// Row-major indices of in-row positions are distinct.
proof fn lemma_flat_index(w: int, x: int, y: int, px: int, py: int)
    requires
        0 <= x < w,
        0 <= px < w,
        0 <= y,
        0 <= py,
    ensures
        (y * w + x == py * w + px) <==> (x == px && y == py),
{
    if y * w + x == py * w + px {
        assert(y == py && x == px) by (nonlinear_arith)
            requires
                y * w + x == py * w + px,
                0 <= x < w,
                0 <= px < w,
                0 <= y,
                0 <= py,
        ;
    }
}

/// A grayscale image, row-major, 0 = black, 255 = white.
pub struct Bitmap {
    pub w: usize,
    pub h: usize,
    pub data: Vec<u8>,
}

impl Bitmap {
    /// The image holds exactly `w * h` pixels.
    pub open spec fn wf(&self) -> bool {
        self.data@.len() == self.w * self.h
    }

    /// Pixel (x, y).
    pub open spec fn pixel(&self, x: int, y: int) -> u8 {
        self.data@[y * self.w + x]
    }

    /// An all-white image of `w * h` pixels.
    pub fn new_white(w: usize, h: usize) -> (bm: Self)
        requires
            w * h <= usize::MAX,
        ensures
            bm.w == w,
            bm.h == h,
            bm.wf(),
            forall|i: int| 0 <= i < w * h ==> #[trigger] bm.data@[i] == 255,
    {
        Bitmap { w, h, data: vec![255u8; w * h] }
    }

    pub fn get(&self, x: usize, y: usize) -> (v: u8)
        requires
            y * self.w + x < self.data@.len(),
        ensures
            v == self.pixel(x as int, y as int),
    {
        let _n = self.data.len();
        self.data[y * self.w + x]
    }

    pub fn set(&mut self, x: usize, y: usize, v: u8)
        requires
            y * old(self).w + x < old(self).data@.len(),
        ensures
            final(self).w == old(self).w,
            final(self).h == old(self).h,
            final(self).data@ == old(self).data@.update(y * old(self).w + x, v),
    {
        let _n = self.data.len();
        let i = y * self.w + x;
        self.data.set(i, v);
    }

    /// Paints cell (row, col) as a `scale x scale` pixel square.
    fn fill_cell(&mut self, scale: usize, row: usize, col: usize, black: bool)
        requires
            old(self).wf(),
            (col + 1) * scale <= old(self).w,
            (row + 1) * scale <= old(self).h,
        ensures
            final(self).w == old(self).w,
            final(self).h == old(self).h,
            final(self).wf(),
            forall|x: int, y: int|
                0 <= x < final(self).w && 0 <= y < final(self).h ==> #[trigger] final(self).pixel(x, y)
                    == if col * scale <= x < col * scale + scale && row * scale <= y < row * scale
                    + scale {
                    if black { 0u8 } else { 255u8 }
                } else {
                    old(self).pixel(x, y)
                },
    {
        let v: u8 = if black { 0 } else { 255 };
        let ghost orig = *self;
        proof {
            assert((col + 1) * scale == col * scale + scale) by (nonlinear_arith);
            assert((row + 1) * scale == row * scale + scale) by (nonlinear_arith);
        }
        let mut dy: usize = 0;
        while dy < scale
            invariant
                self.w == orig.w,
                self.h == orig.h,
                self.wf(),
                orig.wf(),
                (col + 1) * scale <= self.w,
                (row + 1) * scale <= self.h,
                (col + 1) * scale == col * scale + scale,
                (row + 1) * scale == row * scale + scale,
                dy <= scale,
                forall|x: int, y: int|
                    0 <= x < self.w && 0 <= y < self.h ==> #[trigger] self.pixel(x, y)
                        == if col * scale <= x < col * scale + scale && row * scale <= y < row * scale
                        + dy {
                        v
                    } else {
                        orig.pixel(x, y)
                    },
            decreases scale - dy,
        {
            let mut dx: usize = 0;
            while dx < scale
                invariant
                    self.w == orig.w,
                    self.h == orig.h,
                    self.wf(),
                    orig.wf(),
                    (col + 1) * scale <= self.w,
                    (row + 1) * scale <= self.h,
                    (col + 1) * scale == col * scale + scale,
                    (row + 1) * scale == row * scale + scale,
                    dy < scale,
                    dx <= scale,
                    forall|x: int, y: int|
                        0 <= x < self.w && 0 <= y < self.h ==> #[trigger] self.pixel(x, y)
                            == if col * scale <= x < col * scale + scale && row * scale <= y < row
                            * scale + dy {
                            v
                        } else if y == row * scale + dy && col * scale <= x < col * scale + dx {
                            v
                        } else {
                            orig.pixel(x, y)
                        },
                decreases scale - dx,
            {
                let px = col * scale + dx;
                let py = row * scale + dy;
                proof {
                    assert(py * self.w + px < self.w * self.h) by (nonlinear_arith)
                        requires
                            px < self.w,
                            py < self.h,
                    ;
                }
                let ghost before = *self;
                self.set(px, py, v);
                proof {
                    assert forall|x: int, y: int| 0 <= x < self.w && 0 <= y < self.h implies #[trigger] self.pixel(x, y)
                        == if x == px && y == py { v } else { before.pixel(x, y) } by {
                        lemma_flat_index(self.w as int, x, y, px as int, py as int);
                        assert(0 <= y * self.w + x < self.w * self.h) by (nonlinear_arith)
                            requires
                                0 <= x < self.w,
                                0 <= y < self.h,
                        ;
                    }
                }
                dx += 1;
            }
            dy += 1;
        }
    }

    /// Samples the centre pixel of cell (row, col): black when below 128.
    fn sample_cell(&self, scale: usize, row: usize, col: usize) -> (black: bool)
        requires
            self.wf(),
            scale > 0,
            (col + 1) * scale <= self.w,
            (row + 1) * scale <= self.h,
        ensures
            black == (self.pixel(col * scale + scale / 2, row * scale + scale / 2) < 128),
    {
        proof {
            assert((col + 1) * scale == col * scale + scale) by (nonlinear_arith);
            assert((row + 1) * scale == row * scale + scale) by (nonlinear_arith);
            let px = col * scale + scale / 2;
            let py = row * scale + scale / 2;
            assert(py * self.w + px < self.w * self.h) by (nonlinear_arith)
                requires
                    px < self.w,
                    py < self.h,
            ;
        }
        self.get(col * scale + scale / 2, row * scale + scale / 2) < 128
    }
}

/// The four corner markers.
#[derive(Clone, Copy, Debug, PartialEq, Eq, Structural)]
pub enum Corner {
    TopLeft,
    TopRight,
    BottomLeft,
    BottomRight,
}

/// Corner marker pattern: the outer ring is black on every corner (for
/// detection); the inner 4x4 differs per corner (for orientation).
pub open spec fn spec_corner_black(which: Corner, r: int, c: int) -> bool {
    if r == 0 || r == CORNER - 1 || c == 0 || c == CORNER - 1 {
        true
    } else {
        match which {
            Corner::TopLeft => true,
            Corner::TopRight => false,
            Corner::BottomLeft => 2 <= r < 4 && 2 <= c < 4,
            Corner::BottomRight => (r + c) % 2 == 0,
        }
    }
}

/// Whether cell (r, c) of corner marker `which` is black.
pub fn corner_black(which: Corner, r: usize, c: usize) -> (black: bool)
    requires
        r + c <= usize::MAX,
    ensures
        black == spec_corner_black(which, r as int, c as int),
{
    let border = r == 0 || r == CORNER - 1 || c == 0 || c == CORNER - 1;
    if border {
        return true;
    }
    match which {
        Corner::TopLeft => true,
        Corner::TopRight => false,
        Corner::BottomLeft => 2 <= r && r < 4 && 2 <= c && c < 4,
        Corner::BottomRight => (r + c) % 2 == 0,
    }
}

/// The four corners with their top-left cell (row, col) on a `w x h` cell
/// grid.
pub open spec fn spec_corner_origins(w: int, h: int) -> Seq<(Corner, int, int)> {
    seq![
        (Corner::TopLeft, 0, 0),
        (Corner::TopRight, 0, w - CORNER),
        (Corner::BottomLeft, h - CORNER, 0),
        (Corner::BottomRight, h - CORNER, w - CORNER),
    ]
}

/// The four corners with their top-left cell (row, col).
pub fn corner_origins(w: usize, h: usize) -> (o: [(Corner, usize, usize); 4])
    requires
        w >= CORNER,
        h >= CORNER,
    ensures
        forall|k: int|
            0 <= k < 4 ==> (#[trigger] o@[k]).0 == spec_corner_origins(w as int, h as int)[k].0
                && o@[k].1 == spec_corner_origins(w as int, h as int)[k].1 && o@[k].2
                == spec_corner_origins(w as int, h as int)[k].2,
{
    [
        (Corner::TopLeft, 0, 0),
        (Corner::TopRight, 0, w - CORNER),
        (Corner::BottomLeft, h - CORNER, 0),
        (Corner::BottomRight, h - CORNER, w - CORNER),
    ]
}

/// Header area cell `i`: the top strip between the corners, row-major.
pub open spec fn spec_header_cell(w: int, i: int) -> (int, int) {
    (i / (w - 2 * CORNER), CORNER + i % (w - 2 * CORNER))
}

/// The header area cells of a `w`-wide grid, row-major: rows `0..STRIP_H`,
/// columns `CORNER..w - CORNER`.
pub fn header_cells(w: usize) -> (cells: Vec<(usize, usize)>)
    requires
        w >= 2 * CORNER,
    ensures
        cells@.len() == STRIP_H * (w - 2 * CORNER),
        forall|i: int|
            0 <= i < cells@.len() ==> (#[trigger] cells@[i]).0 == spec_header_cell(w as int, i).0
                && cells@[i].1 == spec_header_cell(w as int, i).1,
{
    let inner = w - 2 * CORNER;
    let mut cells: Vec<(usize, usize)> = Vec::new();
    let mut r: usize = 0;
    while r < STRIP_H
        invariant
            inner == w - 2 * CORNER,
            r <= STRIP_H,
            cells@.len() == r * inner,
            forall|i: int|
                0 <= i < cells@.len() ==> (#[trigger] cells@[i]).0 == spec_header_cell(w as int, i).0
                    && cells@[i].1 == spec_header_cell(w as int, i).1,
        decreases STRIP_H - r,
    {
        let mut c: usize = CORNER;
        while c < w - CORNER
            invariant
                inner == w - 2 * CORNER,
                r < STRIP_H,
                CORNER <= c <= w - CORNER,
                cells@.len() == r * inner + (c - CORNER),
                forall|i: int|
                    0 <= i < cells@.len() ==> (#[trigger] cells@[i]).0 == spec_header_cell(
                        w as int,
                        i,
                    ).0 && cells@[i].1 == spec_header_cell(w as int, i).1,
            decreases w - CORNER - c,
        {
            proof {
                let i = r * inner + (c - CORNER);
                vstd::arithmetic::div_mod::lemma_fundamental_div_mod_converse(
                    i as int,
                    inner as int,
                    r as int,
                    (c - CORNER) as int,
                );
            }
            cells.push((r, c));
            c += 1;
        }
        proof {
            assert(r * inner + inner == (r + 1) * inner) by (nonlinear_arith);
        }
        r += 1;
    }
    cells
}

/// Bit `k` (MSB first) of a byte sequence, as a boolean.
pub open spec fn bool_bit(bytes: Seq<u8>, k: int) -> bool {
    byte_bit(bytes, k) == 1
}

/// The MSB-first bits of a byte sequence.
pub open spec fn spec_byte_bits(bytes: Seq<u8>) -> Seq<bool> {
    Seq::new(8 * bytes.len(), |k: int| bool_bit(bytes, k))
}

/// Turns bytes into their MSB-first bits.
pub fn byte_bits(bytes: &[u8]) -> (bits: Vec<bool>)
    ensures
        bits@ == spec_byte_bits(bytes@),
{
    let mut bits: Vec<bool> = Vec::new();
    let mut i: usize = 0;
    while i < bytes.len()
        invariant
            i <= bytes@.len(),
            bits@.len() == 8 * i,
            forall|k: int| 0 <= k < bits@.len() ==> #[trigger] bits@[k] == bool_bit(bytes@, k),
        decreases bytes.len() - i,
    {
        let b = bytes[i];
        let mut j: u8 = 0;
        while j < 8
            invariant
                i < bytes@.len(),
                b == bytes@[i as int],
                j <= 8,
                bits@.len() == 8 * i + j,
                forall|k: int| 0 <= k < bits@.len() ==> #[trigger] bits@[k] == bool_bit(bytes@, k),
            decreases 8 - j,
        {
            let k = bits.len();
            assert(k / 8 == i && k % 8 == j);
            bits.push((b >> (7 - j)) & 1 == 1);
            j += 1;
        }
        i += 1;
    }
    bits
}

/// 1 for a set bit, 0 otherwise.
pub open spec fn bit_num(b: bool) -> nat {
    if b { 1 } else { 0 }
}

/// The bits of a boolean sequence as numbers; positions outside read as 0.
pub open spec fn bool_seq_bit(bits: Seq<bool>, k: int) -> nat {
    if 0 <= k < bits.len() { bit_num(bits[k]) } else { 0 }
}

/// Byte `j` of the packing of `bits` into bytes: chunk `8j .. 8j + 8`
/// (shorter for the last chunk), MSB first.
pub open spec fn chunk_value(bits: Seq<bool>, j: int) -> u8 {
    let n = if bits.len() - 8 * j < 8 { bits.len() - 8 * j } else { 8 };
    bits_value(|k: int| bool_seq_bit(bits, k), 8 * j, n as nat) as u8
}

/// MSB-first bits packed into bytes, 8 per byte (the last byte holds the
/// remaining bits).
pub open spec fn spec_bits_to_bytes(bits: Seq<bool>) -> Seq<u8> {
    Seq::new(((bits.len() + 7) / 8) as nat, |j: int| chunk_value(bits, j))
}

/// Packs MSB-first bits back into bytes.
pub fn bits_to_bytes(bits: &[bool]) -> (bytes: Vec<u8>)
    ensures
        bytes@ == spec_bits_to_bytes(bits@),
{
    let mut bytes: Vec<u8> = Vec::new();
    let len = bits.len();
    let n_chunks = len / 8 + if len % 8 != 0 { 1usize } else { 0usize };
    assert(n_chunks == (len + 7) / 8);
    let ghost f = |k: int| bool_seq_bit(bits@, k);
    let mut j: usize = 0;
    while j < n_chunks
        invariant
            f == (|k: int| bool_seq_bit(bits@, k)),
            len == bits@.len(),
            n_chunks == (len + 7) / 8,
            j <= n_chunks,
            bytes@.len() == j,
            forall|q: int| 0 <= q < bytes@.len() ==> #[trigger] bytes@[q] == chunk_value(bits@, q),
        decreases n_chunks - j,
    {
        let start = 8 * j;
        let end = if len - start < 8 { len } else { start + 8 };
        let mut acc: u8 = 0;
        let mut k: usize = start;
        proof {
            lemma2_to64();
        }
        while k < end
            invariant
                f == (|k: int| bool_seq_bit(bits@, k)),
                start <= k <= end,
                end <= bits@.len(),
                end - start <= 8,
                acc == bits_value(f, start as int, (k - start) as nat),
                acc < pow2((k - start) as nat),
            decreases end - k,
        {
            let b = bits[k];
            proof {
                lemma2_to64();
                vstd::arithmetic::power2::lemma_pow2_adds((k - start) as nat, 1);
                if k - start < 7 {
                    vstd::arithmetic::power2::lemma_pow2_strictly_increases((k - start) as nat, 7);
                }
                assert(acc < 128);
                assert(acc < 128 ==> (acc << 1u8) | (if b { 1u8 } else { 0u8 }) == 2 * acc + (if b { 1u8 } else { 0u8 })) by (bit_vector);
                assert(f(k as int) == bit_num(b));
            }
            acc = (acc << 1) | (b as u8);
            k += 1;
        }
        bytes.push(acc);
        j += 1;
    }
    assert(bytes@ =~= spec_bits_to_bytes(bits@));
    bytes
}

impl Layout {
    /// The cell sizes of this layout can be computed in `usize`.
    pub open spec fn sizes_fit(self) -> bool {
        &&& self.spec_width() <= usize::MAX
        &&& self.spec_height() <= usize::MAX
        &&& self.spec_block_count() <= usize::MAX
        &&& self.block * self.block <= usize::MAX
        &&& self.spec_width() + self.spec_height() <= usize::MAX
    }
}

/// Number of whole header copies that fit in the header area of a
/// `w`-wide grid.
pub open spec fn header_copies(w: int) -> int {
    STRIP_H * (w - 2 * CORNER) / (HEADER_LEN * 8)
}

/// Big-endian bytes of a `u16`.
pub open spec fn be16(x: u16) -> Seq<u8> {
    seq![(x >> 8u16) as u8, x as u8]
}

/// The bytes block `bi` carries: its payload followed by the payload's
/// CRC-16 (big-endian), or all zeros for a filler block.
pub open spec fn block_content(l: Layout, blocks: Seq<Seq<u8>>, bi: int) -> Seq<u8> {
    if bi < blocks.len() {
        blocks[bi] + be16(spec_crc16(blocks[bi]))
    } else {
        Seq::new(l.spec_block_bytes() as nat, |k: int| 0u8)
    }
}

/// Whether cell (r, c) of the frame encoding `h` and `blocks` is black.
pub open spec fn spec_frame_cell(h: FrameHeader, blocks: Seq<Seq<u8>>, r: int, c: int) -> bool {
    let l = h.layout;
    let w = l.spec_width();
    let ht = l.spec_height();
    if r < CORNER && c < CORNER {
        spec_corner_black(Corner::TopLeft, r, c)
    } else if r < CORNER && c >= w - CORNER {
        spec_corner_black(Corner::TopRight, r, c - (w - CORNER))
    } else if r >= ht - CORNER && c < CORNER {
        spec_corner_black(Corner::BottomLeft, r - (ht - CORNER), c)
    } else if r >= ht - CORNER && c >= w - CORNER {
        spec_corner_black(Corner::BottomRight, r - (ht - CORNER), c - (w - CORNER))
    } else if r < STRIP_H {
        let i = r * (w - 2 * CORNER) + (c - CORNER);
        i < header_copies(w) * (HEADER_LEN * 8) && bool_bit(spec_serialize(h), i % (HEADER_LEN * 8))
    } else if r >= ht - STRIP_H {
        (r + c) % 2 == 0
    } else {
        let br = r - STRIP_H;
        let bi = (br / (l.block as int)) * l.grid_w + c / (l.block as int);
        let k = (br % (l.block as int)) * l.block + c % (l.block as int);
        bool_bit(block_content(l, blocks, bi), k)
    }
}

/// The blocks of a `Vec<Vec<u8>>` as a sequence of sequences.
pub open spec fn blocks_view(blocks: Seq<Vec<u8>>) -> Seq<Seq<u8>> {
    Seq::new(blocks.len(), |i: int| blocks[i]@)
}

/// `encode_frame` accepts these arguments: the layout sizes fit, a header
/// copy fits between the corners, there are no more blocks than the layout
/// has, each has the layout's payload length, and the scaled image fits.
pub open spec fn frame_encodable(h: FrameHeader, blocks: Seq<Seq<u8>>, scale: int) -> bool {
    let l = h.layout;
    &&& l.sizes_fit()
    &&& scale >= 1
    &&& blocks.len() <= l.spec_block_count()
    &&& l.spec_width() > 2 * CORNER + (HEADER_LEN * 8) as int / (STRIP_H as int)
    &&& blocks.len() > 0 ==> l.spec_block_bytes() >= 2
    &&& forall|i: int| 0 <= i < blocks.len() ==> (#[trigger] blocks[i]).len()
        == l.spec_block_payload_len()
    &&& l.spec_width() * scale <= usize::MAX
    &&& l.spec_height() * scale <= usize::MAX
    &&& (l.spec_width() * scale) * (l.spec_height() * scale) <= usize::MAX
}

/// `bm` shows the frame encoding `h` and `blocks`: every cell is a
/// `scale x scale` square, black (0) or white (255) as `spec_frame_cell` says.
pub open spec fn frame_drawn(bm: &Bitmap, h: FrameHeader, blocks: Seq<Seq<u8>>, scale: int) -> bool {
    &&& bm.wf()
    &&& bm.w == h.layout.spec_width() * scale
    &&& bm.h == h.layout.spec_height() * scale
    &&& forall|x: int, y: int|
        0 <= x < bm.w && 0 <= y < bm.h ==> #[trigger] bm.pixel(x, y) == if spec_frame_cell(
            h,
            blocks,
            y / scale,
            x / scale,
        ) {
            0u8
        } else {
            255u8
        }
}

/// Colour of cell (r, c) of the frame, computed from the header bits and the
/// bits of every block.
fn frame_cell(
    layout: Layout,
    hdr_bits: &Vec<bool>,
    block_bits: &Vec<Vec<bool>>,
    copies: usize,
    r: usize,
    c: usize,
    Ghost(h): Ghost<FrameHeader>,
    Ghost(blocks): Ghost<Seq<Seq<u8>>>,
) -> (black: bool)
    requires
        layout == h.layout,
        layout.sizes_fit(),
        layout.block > 0,
        layout.grid_w > 0,
        layout.spec_width() > 2 * CORNER,
        STRIP_H * layout.spec_width() <= usize::MAX,
        r < layout.spec_height(),
        c < layout.spec_width(),
        hdr_bits@ == spec_byte_bits(spec_serialize(h)),
        copies == header_copies(layout.spec_width()),
        block_bits@.len() == layout.spec_block_count(),
        forall|i: int|
            0 <= i < block_bits@.len() ==> (#[trigger] block_bits@[i])@ == spec_byte_bits(
                block_content(layout, blocks, i),
            ),
    ensures
        black == spec_frame_cell(h, blocks, r as int, c as int),
{
    let w = layout.width();
    let ht = layout.height();
    if r < CORNER && c < CORNER {
        corner_black(Corner::TopLeft, r, c)
    } else if r < CORNER && c >= w - CORNER {
        corner_black(Corner::TopRight, r, c - (w - CORNER))
    } else if r >= ht - CORNER && c < CORNER {
        corner_black(Corner::BottomLeft, r - (ht - CORNER), c)
    } else if r >= ht - CORNER && c >= w - CORNER {
        corner_black(Corner::BottomRight, r - (ht - CORNER), c - (w - CORNER))
    } else if r < STRIP_H {
        proof {
            assert(r * (w - 2 * CORNER) + (c - CORNER) <= STRIP_H * w) by (nonlinear_arith)
                requires
                    r < STRIP_H,
                    c - CORNER < w - 2 * CORNER,
                    w > 2 * CORNER,
            ;
        }
        let i = r * (w - 2 * CORNER) + (c - CORNER);
        proof {
            vstd::arithmetic::div_mod::lemma_fundamental_div_mod(
                (STRIP_H * (w - 2 * CORNER)) as int,
                (HEADER_LEN * 8) as int,
            );
        }
        if i < copies * (HEADER_LEN * 8) {
            hdr_bits[i % (HEADER_LEN * 8)]
        } else {
            false
        }
    } else if r >= ht - STRIP_H {
        (r + c) % 2 == 0
    } else {
        let br = r - STRIP_H;
        let by = br / layout.block;
        let bx = c / layout.block;
        proof {
            assert(br < layout.grid_h * layout.block);
            vstd::arithmetic::div_mod::lemma_fundamental_div_mod(br as int, layout.block as int);
            vstd::arithmetic::div_mod::lemma_fundamental_div_mod(c as int, layout.block as int);
            assert(by < layout.grid_h) by (nonlinear_arith)
                requires
                    br == layout.block * by + br % layout.block,
                    0 <= br % layout.block,
                    br < layout.grid_h * layout.block,
                    layout.block > 0,
            ;
            assert(bx < layout.grid_w) by (nonlinear_arith)
                requires
                    c == layout.block * bx + c % layout.block,
                    0 <= c % layout.block,
                    c < layout.grid_w * layout.block,
                    layout.block > 0,
            ;
            assert(by * layout.grid_w + bx < layout.grid_w * layout.grid_h) by (nonlinear_arith)
                requires
                    by < layout.grid_h,
                    bx < layout.grid_w,
            ;
            assert((br % layout.block) * layout.block + c % layout.block < layout.block * layout.block) by (nonlinear_arith)
                requires
                    br % layout.block < layout.block,
                    c % layout.block < layout.block,
                    0 <= br % layout.block,
                    0 <= c % layout.block,
            ;
        }
        let bi = by * layout.grid_w + bx;
        let k = (br % layout.block) * layout.block + c % layout.block;
        let bits = &block_bits[bi];
        if k < bits.len() {
            bits[k]
        } else {
            false
        }
    }
}

/// Pixel coordinate `x` lies in cell `c` of size `s` exactly when `x / s == c`.
proof fn lemma_in_cell(x: int, s: int, c: int)
    requires
        s > 0,
        x >= 0,
        c >= 0,
    ensures
        (x / s == c) <==> (c * s <= x < c * s + s),
{
    vstd::arithmetic::div_mod::lemma_fundamental_div_mod(x, s);
    let q = x / s;
    let m = x % s;
    if c * s <= x < c * s + s {
        vstd::arithmetic::div_mod::lemma_fundamental_div_mod_converse(x, s, c, x - c * s);
    }
    if q == c {
        assert(c * s <= x < c * s + s) by (nonlinear_arith)
            requires
                x == s * q + m,
                0 <= m < s,
                q == c,
        ;
    }
}

/// Cell (row, col) comes before cell (r, c) in row-major order.
pub open spec fn cell_before(r: int, c: int, row: int, col: int) -> bool {
    row < r || (row == r && col < c)
}

/// Encodes one frame: corner markers, header copies, the bottom calibration
/// strip and the data blocks, each cell drawn as a `scale x scale` square.
/// `blocks` holds each block's payload (`block_payload_len()` bytes); when
/// there are fewer than `block_count()`, the rest are all-zero filler blocks
/// (whose CRC does not match, so a receiver reads them as missing).
pub fn encode_frame(header: &FrameHeader, blocks: &[Vec<u8>], scale: usize) -> (bm: Bitmap)
    requires
        frame_encodable(*header, blocks_view(blocks@), scale as int),
    ensures
        frame_drawn(&bm, *header, blocks_view(blocks@), scale as int),
{
    let layout = header.layout;
    let w = layout.width();
    let ht = layout.height();
    let ghost bv = blocks_view(blocks@);
    proof {
        assert(w * scale >= w && ht * scale >= ht) by (nonlinear_arith)
            requires
                scale >= 1,
        ;
        assert(STRIP_H * w <= (w * scale) * (ht * scale)) by (nonlinear_arith)
            requires
                scale >= 1,
                ht >= STRIP_H,
        ;
        assert(layout.block > 0 && layout.grid_w > 0) by (nonlinear_arith)
            requires
                w == layout.grid_w * layout.block,
                w > 2 * CORNER,
        ;
    }
    let mut bm = Bitmap::new_white(w * scale, ht * scale);

    let hdr = header.serialize();
    let hdr_bits = byte_bits(hdr.as_slice());
    let copies = STRIP_H * (w - 2 * CORNER) / (HEADER_LEN * 8);

    let block_count = layout.block_count();
    let mut block_bits: Vec<Vec<bool>> = Vec::new();
    let mut bi: usize = 0;
    while bi < block_count
        invariant
            layout == header.layout,
            frame_encodable(*header, bv, scale as int),
            bv == blocks_view(blocks@),
            block_count == layout.spec_block_count(),
            bi <= block_count,
            block_bits@.len() == bi,
            forall|i: int|
                0 <= i < bi ==> (#[trigger] block_bits@[i])@ == spec_byte_bits(
                    block_content(layout, bv, i),
                ),
        decreases block_count - bi,
    {
        let mut content: Vec<u8> = Vec::new();
        if bi < blocks.len() {
            assert(blocks@[bi as int]@ == bv[bi as int]);
            content.extend_from_slice(blocks[bi].as_slice());
            let crc = crc16(blocks[bi].as_slice());
            content.push((crc >> 8) as u8);
            content.push(crc as u8);
            assert(content@ =~= block_content(layout, bv, bi as int));
        } else {
            let n = layout.block_bytes();
            let mut k: usize = 0;
            while k < n
                invariant
                    k <= n,
                    content@ == Seq::new(k as nat, |q: int| 0u8),
                decreases n - k,
            {
                content.push(0);
                k += 1;
                assert(content@ =~= Seq::new(k as nat, |q: int| 0u8));
            }
            assert(content@ =~= block_content(layout, bv, bi as int));
        }
        let bits = byte_bits(content.as_slice());
        block_bits.push(bits);
        bi += 1;
    }

    proof {
        assert forall|x: int, y: int| 0 <= x < bm.w && 0 <= y < bm.h implies #[trigger] bm.pixel(x, y) == 255u8 && y / (scale as int) >= 0 by {
            assert(0 <= y * bm.w + x < bm.w * bm.h) by (nonlinear_arith)
                requires
                    0 <= x < bm.w,
                    0 <= y < bm.h,
            ;
            vstd::arithmetic::div_mod::lemma_div_pos_is_pos(y, scale as int);
        }
    }
    let mut r: usize = 0;
    while r < ht
        invariant
            layout == header.layout,
            frame_encodable(*header, bv, scale as int),
            bv == blocks_view(blocks@),
            w == layout.spec_width(),
            ht == layout.spec_height(),
            layout.block > 0,
            layout.grid_w > 0,
            STRIP_H * w <= usize::MAX,
            hdr_bits@ == spec_byte_bits(spec_serialize(*header)),
            copies == header_copies(w as int),
            block_bits@.len() == layout.spec_block_count(),
            forall|i: int|
                0 <= i < block_bits@.len() ==> (#[trigger] block_bits@[i])@ == spec_byte_bits(
                    block_content(layout, bv, i),
                ),
            r <= ht,
            bm.w == w * scale,
            bm.h == ht * scale,
            bm.wf(),
            forall|x: int, y: int|
                0 <= x < bm.w && 0 <= y < bm.h ==> #[trigger] bm.pixel(x, y) == if cell_before(
                    r as int,
                    0,
                    y / (scale as int),
                    x / (scale as int),
                ) {
                    if spec_frame_cell(*header, bv, y / (scale as int), x / (scale as int)) {
                        0u8
                    } else {
                        255u8
                    }
                } else {
                    255u8
                },
        decreases ht - r,
    {
        let mut c: usize = 0;
        while c < w
            invariant
                layout == header.layout,
                frame_encodable(*header, bv, scale as int),
                bv == blocks_view(blocks@),
                w == layout.spec_width(),
                ht == layout.spec_height(),
                layout.block > 0,
                layout.grid_w > 0,
                STRIP_H * w <= usize::MAX,
                hdr_bits@ == spec_byte_bits(spec_serialize(*header)),
                copies == header_copies(w as int),
                block_bits@.len() == layout.spec_block_count(),
                forall|i: int|
                    0 <= i < block_bits@.len() ==> (#[trigger] block_bits@[i])@ == spec_byte_bits(
                        block_content(layout, bv, i),
                    ),
                r < ht,
                c <= w,
                bm.w == w * scale,
                bm.h == ht * scale,
                bm.wf(),
                forall|x: int, y: int|
                    0 <= x < bm.w && 0 <= y < bm.h ==> #[trigger] bm.pixel(x, y) == if cell_before(
                        r as int,
                        c as int,
                        y / (scale as int),
                        x / (scale as int),
                    ) {
                        if spec_frame_cell(*header, bv, y / (scale as int), x / (scale as int)) {
                            0u8
                        } else {
                            255u8
                        }
                    } else {
                        255u8
                    },
            decreases w - c,
        {
            let black = frame_cell(
                layout,
                &hdr_bits,
                &block_bits,
                copies,
                r,
                c,
                Ghost(*header),
                Ghost(bv),
            );
            proof {
                assert((c + 1) * scale <= w * scale) by (nonlinear_arith)
                    requires
                        c < w,
                ;
                assert((r + 1) * scale <= ht * scale) by (nonlinear_arith)
                    requires
                        r < ht,
                ;
            }
            let ghost before = bm;
            bm.fill_cell(scale, r, c, black);
            proof {
                assert forall|x: int, y: int|
                    0 <= x < bm.w && 0 <= y < bm.h implies #[trigger] bm.pixel(x, y) == if cell_before(
                        r as int,
                        c + 1,
                        y / (scale as int),
                        x / (scale as int),
                    ) {
                        if spec_frame_cell(*header, bv, y / (scale as int), x / (scale as int)) {
                            0u8
                        } else {
                            255u8
                        }
                    } else {
                        255u8
                    } by {
                    lemma_in_cell(x, scale as int, c as int);
                    lemma_in_cell(y, scale as int, r as int);
                    assert(before.pixel(x, y) == if cell_before(
                        r as int,
                        c as int,
                        y / (scale as int),
                        x / (scale as int),
                    ) {
                        if spec_frame_cell(*header, bv, y / (scale as int), x / (scale as int)) {
                            0u8
                        } else {
                            255u8
                        }
                    } else {
                        255u8
                    });
                }
            }
            c += 1;
        }
        proof {
            assert forall|x: int, y: int|
                0 <= x < bm.w && 0 <= y < bm.h implies #[trigger] bm.pixel(x, y) == if cell_before(
                    r + 1,
                    0,
                    y / (scale as int),
                    x / (scale as int),
                ) {
                    if spec_frame_cell(*header, bv, y / (scale as int), x / (scale as int)) {
                        0u8
                    } else {
                        255u8
                    }
                } else {
                    255u8
                } by {
                vstd::arithmetic::div_mod::lemma_div_is_ordered(x, (w * scale) as int, scale as int);
                vstd::arithmetic::div_mod::lemma_div_multiples_vanish(w as int, scale as int);
                assert((w * scale) as int / (scale as int) == w) by {
                    vstd::arithmetic::div_mod::lemma_div_multiples_vanish(w as int, scale as int);
                    assert(w * scale == scale * w) by (nonlinear_arith);
                }
                vstd::arithmetic::div_mod::lemma_div_is_ordered(x + 1, (w * scale) as int, scale as int);
                if x / (scale as int) >= w {
                    lemma_in_cell(x, scale as int, x / (scale as int));
                    assert(false) by (nonlinear_arith)
                        requires
                            (x / (scale as int)) * scale <= x,
                            x < w * scale,
                            x / (scale as int) >= w,
                            scale > 0,
                    ;
                }
            }
        }
        r += 1;
    }
    proof {
        assert forall|x: int, y: int|
            0 <= x < bm.w && 0 <= y < bm.h implies #[trigger] bm.pixel(x, y) == if spec_frame_cell(
                *header,
                bv,
                y / (scale as int),
                x / (scale as int),
            ) {
                0u8
            } else {
                255u8
            } by {
            lemma_in_cell(y, scale as int, y / (scale as int));
            if y / (scale as int) >= ht {
                assert(false) by (nonlinear_arith)
                    requires
                        (y / (scale as int)) * scale <= y,
                        y < ht * scale,
                        y / (scale as int) >= ht,
                        scale > 0,
                ;
            }
        }
    }
    bm
}

/// The header stored at the start of `buf` (meaningful when
/// `header_valid(buf)`).
pub open spec fn spec_deserialize(buf: Seq<u8>) -> FrameHeader {
    FrameHeader {
        version: buf[1],
        bits_per_cell: buf[2],
        layout: Layout { block: buf[3] as usize, grid_w: buf[4] as usize, grid_h: buf[5] as usize },
        frame_seq: (buf[6] + 256 * buf[7]) as u16,
        oti: [buf[8], buf[9], buf[10], buf[11], buf[12], buf[13], buf[14], buf[15], buf[16], buf[17], buf[18], buf[19]],
    }
}

proof fn lemma_deserialize_fields(h: FrameHeader, buf: Seq<u8>)
    requires
        buf.len() >= HEADER_LEN,
        header_fields(h, buf),
    ensures
        h == spec_deserialize(buf),
{
    let d = spec_deserialize(buf);
    assert(d.oti@ =~= buf.subrange(8, 20));
    assert(h.oti =~= d.oti);
}

#[derive(Debug, PartialEq, Eq, Structural)]
pub enum FrameError {
    /// The bitmap is not a whole number of cells, or too small for the strips.
    BadDimensions,
    /// A corner marker does not match its pattern.
    CornerMismatch,
    /// No header copy passed its CRC.
    HeaderNotFound,
    /// The header's layout contradicts the bitmap size.
    LayoutMismatch,
}

/// A decoded frame. `blocks[i]` is the payload of block `i` when its CRC
/// matches, `None` when it is damaged (partial recovery).
#[derive(Debug)]
pub struct DecodedFrame {
    pub header: FrameHeader,
    pub blocks: Vec<Option<Vec<u8>>>,
}

/// The view of an optional byte vector.
pub open spec fn opt_view(b: Option<Vec<u8>>) -> Option<Seq<u8>> {
    match b {
        Some(v) => Some(v@),
        None => None,
    }
}

/// Cell (r, c) of a row-major `w`-wide cell grid.
pub open spec fn grid_at(grid: Seq<bool>, w: int, r: int, c: int) -> bool {
    grid[r * w + c]
}

/// Every corner marker of the `w x h` grid shows its pattern.
pub open spec fn spec_corners_ok(grid: Seq<bool>, w: int, h: int) -> bool {
    forall|k: int, r: int, c: int|
        0 <= k < 4 && 0 <= r < CORNER && 0 <= c < CORNER ==> #[trigger] grid_at(
            grid,
            w,
            spec_corner_origins(w, h)[k].1 + r,
            spec_corner_origins(w, h)[k].2 + c,
        ) == spec_corner_black(spec_corner_origins(w, h)[k].0, r, c)
}

/// The bits of the header area of a `w`-wide grid, row-major.
pub open spec fn spec_header_bits(grid: Seq<bool>, w: int) -> Seq<bool> {
    Seq::new(
        (STRIP_H * (w - 2 * CORNER)) as nat,
        |i: int| grid_at(grid, w, spec_header_cell(w, i).0, spec_header_cell(w, i).1),
    )
}

/// The bytes of header copy `k`.
pub open spec fn spec_copy_bytes(bits: Seq<bool>, k: int) -> Seq<u8> {
    spec_bits_to_bytes(bits.subrange(k * (HEADER_LEN * 8), (k + 1) * (HEADER_LEN * 8)))
}

/// The first header copy from `k` on (below `copies`) that passes its CRC.
pub open spec fn spec_find_header(bits: Seq<bool>, k: int, copies: int) -> Option<FrameHeader>
    decreases copies - k,
{
    if k >= copies {
        None
    } else if header_valid(spec_copy_bytes(bits, k)) {
        Some(spec_deserialize(spec_copy_bytes(bits, k)))
    } else {
        spec_find_header(bits, k + 1, copies)
    }
}

/// The bits of block `bi`, row-major within the block.
pub open spec fn spec_block_bits(grid: Seq<bool>, w: int, l: Layout, bi: int) -> Seq<bool> {
    let o = l.spec_block_origin(bi);
    Seq::new(
        (l.block * l.block) as nat,
        |i: int| grid_at(grid, w, o.0 + i / (l.block as int), o.1 + i % (l.block as int)),
    )
}

/// The payload of block `bi` if its CRC matches.
pub open spec fn spec_decode_block(grid: Seq<bool>, w: int, l: Layout, bi: int) -> Option<Seq<u8>> {
    let bytes = spec_bits_to_bytes(spec_block_bits(grid, w, l, bi));
    let pl = l.spec_block_payload_len();
    let payload = bytes.subrange(0, pl);
    if spec_crc16(payload) == bytes[pl] * 256 + bytes[pl + 1] {
        Some(payload)
    } else {
        None
    }
}

/// The header a `w x h` cell grid carries, once the size, the corners, a
/// header copy and the layout have been checked.
pub open spec fn spec_decode_header(grid: Seq<bool>, w: int, h: int) -> Result<FrameHeader, FrameError> {
    if w < 2 * CORNER + 1 || h < 2 * STRIP_H + 1 {
        Err(FrameError::BadDimensions)
    } else if !spec_corners_ok(grid, w, h) {
        Err(FrameError::CornerMismatch)
    } else {
        match spec_find_header(spec_header_bits(grid, w), 0, header_copies(w)) {
            None => Err(FrameError::HeaderNotFound),
            Some(hd) => if hd.layout.spec_width() != w || hd.layout.spec_height() != h
                || hd.bits_per_cell != 1 {
                Err(FrameError::LayoutMismatch)
            } else {
                Ok(hd)
            },
        }
    }
}

/// The decoding of a `w x h` cell grid: its header and every block.
pub open spec fn spec_decode_cells(grid: Seq<bool>, w: int, h: int) -> Result<
    (FrameHeader, Seq<Option<Seq<u8>>>),
    FrameError,
> {
    match spec_decode_header(grid, w, h) {
        Err(e) => Err(e),
        Ok(hd) => Ok(
            (
                hd,
                Seq::new(
                    hd.layout.spec_block_count() as nat,
                    |bi: int| spec_decode_block(grid, w, hd.layout, bi),
                ),
            ),
        ),
    }
}

/// A decoding result matches its specification.
pub open spec fn decoded_matches(
    res: Result<DecodedFrame, FrameError>,
    spec: Result<(FrameHeader, Seq<Option<Seq<u8>>>), FrameError>,
) -> bool {
    match (res, spec) {
        (Ok(d), Ok((hd, bs))) => d.header == hd && d.blocks@.len() == bs.len() && forall|i: int|
            0 <= i < bs.len() ==> #[trigger] opt_view(d.blocks@[i]) == bs[i],
        (Err(e), Err(f)) => e == f,
        _ => false,
    }
}

/// The grid can be decoded without reading past its blocks: a header that
/// passes every check has blocks of at least 2 bytes (room for the CRC).
pub open spec fn cells_decodable(grid: Seq<bool>, w: int, h: int) -> bool {
    &&& grid.len() == w * h
    &&& spec_decode_header(grid, w, h) matches Ok(hd) ==> hd.layout.spec_block_bytes() >= 2
}

/// Checks a `w x h` cell grid (row-major, `true` = black) up to its header:
/// size, corner markers, the first header copy that passes its CRC, and the
/// header's layout against the grid size.
pub fn decode_frame_header(grid: &[bool], w: usize, h: usize) -> (res: Result<FrameHeader, FrameError>)
    requires
        grid@.len() == w * h,
    ensures
        match (res, spec_decode_header(grid@, w as int, h as int)) {
            (Ok(a), Ok(b)) => a == b,
            (Err(e), Err(f)) => e == f,
            _ => false,
        },
        res matches Ok(hd) ==> hd.layout.block <= 255 && hd.layout.grid_w <= 255
            && hd.layout.grid_h <= 255,
{
    if w < 2 * CORNER + 1 || h < 2 * STRIP_H + 1 {
        return Err(FrameError::BadDimensions);
    }
    let _n = grid.len();
    let origins = corner_origins(w, h);
    let ghost og = spec_corner_origins(w as int, h as int);
    let mut k: usize = 0;
    while k < 4
        invariant
            grid@.len() == w * h,
            w * h <= usize::MAX,
            w >= 13,
            h >= 13,
            og == spec_corner_origins(w as int, h as int),
            forall|q: int|
                0 <= q < 4 ==> (#[trigger] origins@[q]).0 == og[q].0 && origins@[q].1 == og[q].1
                    && origins@[q].2 == og[q].2,
            k <= 4,
            forall|q: int, r: int, c: int|
                0 <= q < k && 0 <= r < CORNER && 0 <= c < CORNER ==> #[trigger] grid_at(
                    grid@,
                    w as int,
                    og[q].1 + r,
                    og[q].2 + c,
                ) == spec_corner_black(og[q].0, r, c),
        decreases 4 - k,
    {
        let (which, or, oc) = origins[k];
        assert(or + CORNER <= h && oc + CORNER <= w);
        let mut r: usize = 0;
        while r < CORNER
            invariant
                grid@.len() == w * h,
                w * h <= usize::MAX,
                w >= 13,
                h >= 13,
                og == spec_corner_origins(w as int, h as int),
                k < 4,
                which == og[k as int].0,
                or == og[k as int].1,
                oc == og[k as int].2,
                or + CORNER <= h,
                oc + CORNER <= w,
                r <= CORNER,
                forall|q: int, rr: int, c: int|
                    0 <= q < k && 0 <= rr < CORNER && 0 <= c < CORNER ==> #[trigger] grid_at(
                        grid@,
                        w as int,
                        og[q].1 + rr,
                        og[q].2 + c,
                    ) == spec_corner_black(og[q].0, rr, c),
                forall|rr: int, c: int|
                    0 <= rr < r && 0 <= c < CORNER ==> #[trigger] grid_at(
                        grid@,
                        w as int,
                        or + rr,
                        oc + c,
                    ) == spec_corner_black(which, rr, c),
            decreases CORNER - r,
        {
            let mut c: usize = 0;
            while c < CORNER
                invariant
                    grid@.len() == w * h,
                    w * h <= usize::MAX,
                    w >= 13,
                    h >= 13,
                    og == spec_corner_origins(w as int, h as int),
                    k < 4,
                    which == og[k as int].0,
                    or == og[k as int].1,
                    oc == og[k as int].2,
                    or + CORNER <= h,
                    oc + CORNER <= w,
                    r < CORNER,
                    c <= CORNER,
                    forall|q: int, rr: int, cc: int|
                        0 <= q < k && 0 <= rr < CORNER && 0 <= cc < CORNER ==> #[trigger] grid_at(
                            grid@,
                            w as int,
                            og[q].1 + rr,
                            og[q].2 + cc,
                        ) == spec_corner_black(og[q].0, rr, cc),
                    forall|rr: int, cc: int|
                        0 <= rr < r && 0 <= cc < CORNER ==> #[trigger] grid_at(
                            grid@,
                            w as int,
                            or + rr,
                            oc + cc,
                        ) == spec_corner_black(which, rr, cc),
                    forall|cc: int|
                        0 <= cc < c ==> #[trigger] grid_at(grid@, w as int, or + r, oc + cc)
                            == spec_corner_black(which, r as int, cc),
                decreases CORNER - c,
            {
                proof {
                    assert((or + r) * w + (oc + c) < w * h) by (nonlinear_arith)
                        requires
                            or + r < h,
                            oc + c < w,
                    ;
                }
                let cell = grid[(or + r) * w + oc + c];
                if cell != corner_black(which, r, c) {
                    proof {
                        assert(!spec_corners_ok(grid@, w as int, h as int)) by {
                            assert(grid_at(grid@, w as int, og[k as int].1 + r, og[k as int].2 + c)
                                != spec_corner_black(og[k as int].0, r as int, c as int));
                        }
                    }
                    return Err(FrameError::CornerMismatch);
                }
                c += 1;
            }
            r += 1;
        }
        k += 1;
    }
    assert(spec_corners_ok(grid@, w as int, h as int));

    let cells = header_cells(w);
    let mut bits: Vec<bool> = Vec::new();
    let mut i: usize = 0;
    while i < cells.len()
        invariant
            grid@.len() == w * h,
            w * h <= usize::MAX,
            w >= 13,
            h >= 13,
            cells@.len() == STRIP_H * (w - 2 * CORNER),
            forall|q: int|
                0 <= q < cells@.len() ==> (#[trigger] cells@[q]).0 == spec_header_cell(w as int, q).0
                    && cells@[q].1 == spec_header_cell(w as int, q).1,
            i <= cells@.len(),
            bits@ =~= spec_header_bits(grid@, w as int).subrange(0, i as int),
        decreases cells.len() - i,
    {
        let (r, c) = cells[i];
        proof {
            let inner: int = w - 2 * CORNER;
            let ii: int = i as int;
            vstd::arithmetic::div_mod::lemma_fundamental_div_mod(ii, inner);
            assert(r == ii / inner);
            assert(ii / inner < STRIP_H) by (nonlinear_arith)
                requires
                    ii == inner * (ii / inner) + ii % inner,
                    0 <= ii % inner,
                    ii < STRIP_H * inner,
                    inner > 0,
            ;
            assert(r * w + c < w * h) by (nonlinear_arith)
                requires
                    r < STRIP_H,
                    c < w,
                    h >= 13,
            ;
        }
        bits.push(grid[r * w + c]);
        i += 1;
    }
    let copy_bits = HEADER_LEN * 8;
    let nbits = bits.len();
    let copies = nbits / copy_bits;
    let ghost hb = spec_header_bits(grid@, w as int);
    assert(bits@ =~= hb);
    let mut k: usize = 0;
    let mut found: Option<FrameHeader> = None;
    while k < copies
        invariant_except_break
            found is None,
        invariant
            bits@ == hb,
            nbits == bits@.len(),
            copies == header_copies(w as int),
            copies == bits@.len() / (copy_bits as nat),
            copy_bits == 176,
            k <= copies,
            found is None ==> spec_find_header(hb, 0, copies as int) == spec_find_header(
                hb,
                k as int,
                copies as int,
            ),
            found matches Some(fh) ==> spec_find_header(hb, 0, copies as int) == Some(fh),
            found matches Some(fh) ==> fh.layout.block <= 255 && fh.layout.grid_w <= 255
                && fh.layout.grid_h <= 255,
        ensures
            found is None ==> k == copies,
        decreases copies - k,
    {
        proof {
            vstd::arithmetic::div_mod::lemma_fundamental_div_mod(bits@.len() as int, 176);
            assert((k + 1) * 176 <= bits@.len()) by (nonlinear_arith)
                requires
                    k < copies,
                    bits@.len() == 176 * copies + bits@.len() % 176,
                    bits@.len() % 176 >= 0,
            ;
            assert((k + 1) * 176 == k * 176 + 176) by (nonlinear_arith);
        }
        let copy = &bits.as_slice()[k * copy_bits..(k + 1) * copy_bits];
        let bytes = bits_to_bytes(copy);
        assert(bytes@ == spec_copy_bytes(hb, k as int));
        match FrameHeader::deserialize(bytes.as_slice()) {
            Some(fh) => {
                found = Some(fh);
                break;
            },
            None => {},
        }
        k += 1;
    }
    let hd = match found {
        Some(fh) => fh,
        None => {
            return Err(FrameError::HeaderNotFound);
        },
    };
    let layout = hd.layout;
    proof {
        assert(layout.block <= 255 && layout.grid_w <= 255 && layout.grid_h <= 255);
        assert(layout.grid_w * layout.block <= 255 * 255) by (nonlinear_arith)
            requires
                layout.block <= 255,
                layout.grid_w <= 255,
        ;
        assert(layout.grid_h * layout.block <= 255 * 255) by (nonlinear_arith)
            requires
                layout.block <= 255,
                layout.grid_h <= 255,
        ;
    }
    if layout.width() != w || layout.height() != h || hd.bits_per_cell != 1 {
        return Err(FrameError::LayoutMismatch);
    }
    Ok(hd)
}

/// Decodes block `bi` of the grid: its bits, row-major within the block,
/// packed into bytes; the payload if the CRC-16 after it matches.
fn decode_block(grid: &[bool], w: usize, h: usize, layout: Layout, bi: usize) -> (res: Option<Vec<u8>>)
    requires
        grid@.len() == w * h,
        layout.sizes_fit(),
        layout.grid_w > 0,
        layout.spec_width() == w,
        layout.spec_height() == h,
        layout.spec_block_bytes() >= 2,
        bi < layout.spec_block_count(),
    ensures
        opt_view(res) == spec_decode_block(grid@, w as int, layout, bi as int),
{
    let _n = grid.len();
    let (or, oc) = layout.block_origin(bi);
    let b = layout.block;
    proof {
        assert(b > 0) by (nonlinear_arith)
            requires
                b * b / 8 >= 2,
        ;
    }
    let n = b * b;
    let mut bits: Vec<bool> = Vec::new();
    let mut i: usize = 0;
    while i < n
        invariant
            grid@.len() == w * h,
            w * h <= usize::MAX,
            b == layout.block,
            n == b * b,
            b > 0,
            or == layout.spec_block_origin(bi as int).0,
            oc == layout.spec_block_origin(bi as int).1,
            or + b <= h,
            oc + b <= w,
            i <= n,
            bits@ =~= spec_block_bits(grid@, w as int, layout, bi as int).subrange(0, i as int),
        decreases n - i,
    {
        proof {
            vstd::arithmetic::div_mod::lemma_fundamental_div_mod(i as int, b as int);
            assert((i as int) / (b as int) < b) by (nonlinear_arith)
                requires
                    i == b * ((i as int) / (b as int)) + (i as int) % (b as int),
                    0 <= (i as int) % (b as int),
                    i < b * b,
                    b > 0,
            ;
            assert((or + i / b) * w + (oc + i % b) < w * h) by (nonlinear_arith)
                requires
                    or + i / b < h,
                    oc + i % b < w,
            ;
        }
        bits.push(grid[(or + i / b) * w + oc + i % b]);
        i += 1;
    }
    assert(bits@ =~= spec_block_bits(grid@, w as int, layout, bi as int));
    let bytes = bits_to_bytes(bits.as_slice());
    let pl = layout.block_payload_len();
    proof {
        assert(bytes@.len() >= pl + 2);
    }
    let payload = &bytes.as_slice()[0..pl];
    let c0 = bytes[pl];
    let c1 = bytes[pl + 1];
    let stored: u16 = ((c0 as u16) << 8) | (c1 as u16);
    assert(((c0 as u16) << 8u16) | (c1 as u16) == c0 * 256 + c1) by (bit_vector);
    if crc16(payload) == stored {
        let mut v: Vec<u8> = Vec::new();
        v.extend_from_slice(payload);
        assert(v@ =~= payload@);
        Some(v)
    } else {
        None
    }
}

/// Decodes a `w x h` cell grid (row-major, `true` = black): header checks,
/// then every block, keeping the blocks whose CRC matches (damaged blocks
/// are `None`). This is the decoding path shared by the ideal-channel
/// decoder and the camera scanner.
pub fn decode_from_cells(grid: &[bool], w: usize, h: usize) -> (res: Result<DecodedFrame, FrameError>)
    requires
        cells_decodable(grid@, w as int, h as int),
    ensures
        decoded_matches(res, spec_decode_cells(grid@, w as int, h as int)),
{
    let hd = match decode_frame_header(grid, w, h) {
        Ok(hd) => hd,
        Err(e) => {
            return Err(e);
        },
    };
    let layout = hd.layout;
    proof {
        assert(layout.grid_w > 0) by (nonlinear_arith)
            requires
                layout.grid_w * layout.block == w,
                w >= 13,
        ;
        assert(layout.grid_w * layout.grid_h <= 255 * 255) by (nonlinear_arith)
            requires
                layout.grid_w <= 255,
                layout.grid_h <= 255,
        ;
        assert(layout.block * layout.block <= 255 * 255) by (nonlinear_arith)
            requires
                layout.block <= 255,
        ;
        assert(layout.grid_w * layout.block <= 255 * 255) by (nonlinear_arith)
            requires
                layout.block <= 255,
                layout.grid_w <= 255,
        ;
        assert(layout.grid_h * layout.block <= 255 * 255) by (nonlinear_arith)
            requires
                layout.block <= 255,
                layout.grid_h <= 255,
        ;
    }
    let count = layout.block_count();
    let ghost bs = Seq::new(
        layout.spec_block_count() as nat,
        |bi: int| spec_decode_block(grid@, w as int, layout, bi),
    );
    let mut blocks: Vec<Option<Vec<u8>>> = Vec::new();
    let mut bi: usize = 0;
    while bi < count
        invariant
            cells_decodable(grid@, w as int, h as int),
            spec_decode_header(grid@, w as int, h as int) == Ok::<FrameHeader, FrameError>(hd),
            layout == hd.layout,
            layout.sizes_fit(),
            layout.grid_w > 0,
            layout.spec_width() == w,
            layout.spec_height() == h,
            count == layout.spec_block_count(),
            bs == Seq::new(
                layout.spec_block_count() as nat,
                |bi: int| spec_decode_block(grid@, w as int, layout, bi),
            ),
            bi <= count,
            blocks@.len() == bi,
            forall|i: int| 0 <= i < bi ==> #[trigger] opt_view(blocks@[i]) == bs[i],
        decreases count - bi,
    {
        let b = decode_block(grid, w, h, layout, bi);
        blocks.push(b);
        bi += 1;
    }
    Ok(DecodedFrame { header: hd, blocks })
}

/// The cell grid an ideal-channel bitmap shows at `scale`: each cell read
/// at its centre pixel, black when below 128.
pub open spec fn spec_sampled_grid(bm: &Bitmap, scale: int) -> Seq<bool> {
    let w = bm.w as int / scale;
    let h = bm.h as int / scale;
    Seq::new(
        (w * h) as nat,
        |i: int| bm.pixel((i % w) * scale + scale / 2, (i / w) * scale + scale / 2) < 128,
    )
}

/// What decoding an ideal-channel bitmap at `scale` gives.
pub open spec fn spec_decode_frame(bm: &Bitmap, scale: int) -> Result<
    (FrameHeader, Seq<Option<Seq<u8>>>),
    FrameError,
> {
    if scale <= 0 || bm.w as int % scale != 0 || bm.h as int % scale != 0 {
        Err(FrameError::BadDimensions)
    } else {
        spec_decode_cells(spec_sampled_grid(bm, scale), bm.w as int / scale, bm.h as int / scale)
    }
}

/// The cell grid `bm` shows at `scale`: each cell read at its centre pixel.
fn sample_grid(bm: &Bitmap, scale: usize) -> (grid: Vec<bool>)
    requires
        bm.wf(),
        scale > 0,
        bm.w % scale == 0,
        bm.h % scale == 0,
    ensures
        grid@ == spec_sampled_grid(bm, scale as int),
        grid@.len() == (bm.w as int / (scale as int)) * (bm.h as int / (scale as int)),
{
    let w = bm.w / scale;
    let h = bm.h / scale;
    proof {
        vstd::arithmetic::div_mod::lemma_fundamental_div_mod(bm.w as int, scale as int);
        vstd::arithmetic::div_mod::lemma_fundamental_div_mod(bm.h as int, scale as int);
        assert(w * scale == bm.w && h * scale == bm.h);
        assert(w * h <= bm.w * bm.h) by (nonlinear_arith)
            requires
                w * scale == bm.w,
                h * scale == bm.h,
                scale >= 1,
        ;
    }
    let _n = bm.data.len();
    let ghost g = spec_sampled_grid(bm, scale as int);
    let mut grid: Vec<bool> = Vec::new();
    let mut r: usize = 0;
    while r < h
        invariant
            bm.wf(),
            scale > 0,
            w == bm.w as int / (scale as int),
            h == bm.h as int / (scale as int),
            w * scale == bm.w,
            h * scale == bm.h,
            w * h <= usize::MAX,
            g == spec_sampled_grid(bm, scale as int),
            r <= h,
            grid@ =~= g.subrange(0, r * w),
        decreases h - r,
    {
        proof {
            assert((r + 1) * w <= w * h) by (nonlinear_arith)
                requires
                    r < h,
            ;
            assert((r + 1) * w == r * w + w) by (nonlinear_arith);
        }
        let mut c: usize = 0;
        while c < w
            invariant
                bm.wf(),
                scale > 0,
                w == bm.w as int / (scale as int),
                h == bm.h as int / (scale as int),
                w * scale == bm.w,
                h * scale == bm.h,
                w * h <= usize::MAX,
                g == spec_sampled_grid(bm, scale as int),
                r < h,
                (r + 1) * w <= w * h,
                (r + 1) * w == r * w + w,
                c <= w,
                grid@ =~= g.subrange(0, r * w + c),
            decreases w - c,
        {
            proof {
                assert((c + 1) * scale <= bm.w) by (nonlinear_arith)
                    requires
                        c < w,
                        w * scale == bm.w,
                ;
                assert((r + 1) * scale <= bm.h) by (nonlinear_arith)
                    requires
                        r < h,
                        h * scale == bm.h,
                ;
                let i = r * w + c;
                vstd::arithmetic::div_mod::lemma_fundamental_div_mod_converse(
                    i as int,
                    w as int,
                    r as int,
                    c as int,
                );
            }
            let black = bm.sample_cell(scale, r, c);
            grid.push(black);
            c += 1;
        }
        r += 1;
    }
    proof {
        assert(h * w == w * h) by (nonlinear_arith);
        assert(g.len() == w * h);
        assert(grid@ =~= g);
    }
    grid
}

/// Whether `decode_frame` accepts `bm` at `scale` (see `cells_decodable`):
/// a frame whose header passes every check must have blocks with room for
/// their CRC.
pub fn is_frame_decodable(bm: &Bitmap, scale: usize) -> (ok: bool)
    requires
        bm.wf(),
    ensures
        ok == (scale > 0 && bm.w % scale == 0 && bm.h % scale == 0 ==> cells_decodable(
            spec_sampled_grid(bm, scale as int),
            bm.w as int / (scale as int),
            bm.h as int / (scale as int),
        )),
{
    if scale == 0 || bm.w % scale != 0 || bm.h % scale != 0 {
        return true;
    }
    let w = bm.w / scale;
    let h = bm.h / scale;
    let grid = sample_grid(bm, scale);
    match decode_frame_header(grid.as_slice(), w, h) {
        Ok(hd) => {
            assert(hd.layout.block * hd.layout.block <= 255 * 255) by (nonlinear_arith)
                requires
                    hd.layout.block <= 255,
            ;
            hd.layout.block_bytes() >= 2
        },
        Err(_) => true,
    }
}

/// Decodes a frame from an ideal-channel bitmap (integer scale, no
/// distortion). Damaged blocks come back as `None`; the blocks that are
/// intact are recovered.
pub fn decode_frame(bm: &Bitmap, scale: usize) -> (res: Result<DecodedFrame, FrameError>)
    requires
        bm.wf(),
        scale > 0 && bm.w % scale == 0 && bm.h % scale == 0 ==> cells_decodable(
            spec_sampled_grid(bm, scale as int),
            bm.w as int / (scale as int),
            bm.h as int / (scale as int),
        ),
    ensures
        decoded_matches(res, spec_decode_frame(bm, scale as int)),
{
    if scale == 0 || bm.w % scale != 0 || bm.h % scale != 0 {
        return Err(FrameError::BadDimensions);
    }
    let w = bm.w / scale;
    let h = bm.h / scale;
    if w < 2 * CORNER + 1 || h < 2 * STRIP_H + 1 {
        return Err(FrameError::BadDimensions);
    }
    proof {
        vstd::arithmetic::div_mod::lemma_fundamental_div_mod(bm.w as int, scale as int);
        vstd::arithmetic::div_mod::lemma_fundamental_div_mod(bm.h as int, scale as int);
        assert(w * scale == bm.w && h * scale == bm.h);
        assert(w * h <= bm.w * bm.h) by (nonlinear_arith)
            requires
                w * scale == bm.w,
                h * scale == bm.h,
                scale >= 1,
        ;
        let _n = bm.data@.len();
    }
    let grid = sample_grid(bm, scale);
    decode_from_cells(grid.as_slice(), w, h)
}

/// The blocks a receiver recovers from a frame encoding `blocks` with layout
/// `l`: every given payload, then `None` for each all-zero filler block.
pub open spec fn expected_blocks(l: Layout, blocks: Seq<Seq<u8>>) -> Seq<Option<Seq<u8>>> {
    Seq::new(
        l.spec_block_count() as nat,
        |bi: int|
            if bi < blocks.len() {
                Some(blocks[bi])
            } else {
                None
            },
    )
}

/// The leading bytes of a bit sequence that starts with the MSB-first bits
/// of `bytes` are `bytes`.
proof fn lemma_bits_to_bytes_prefix(bits: Seq<bool>, bytes: Seq<u8>, j: int)
    requires
        0 <= j < bytes.len(),
        bits.len() >= 8 * bytes.len(),
        forall|k: int| 0 <= k < 8 * bytes.len() ==> #[trigger] bits[k] == bool_bit(bytes, k),
    ensures
        spec_bits_to_bytes(bits).len() >= bytes.len(),
        spec_bits_to_bytes(bits)[j] == bytes[j],
{
    let f = |k: int| bool_seq_bit(bits, k);
    let g = |k: int| byte_bit(bytes, k);
    assert forall|k: int| 8 * j <= k < 8 * j + 8 implies #[trigger] f(k) == g(k) by {
        lemma_bit_le_1(bytes, Seq::empty(), k);
        assert(bits[k] == bool_bit(bytes, k));
    }
    lemma_bits_value_ext(f, g, 8 * j, 8);
    lemma_byte_bits(bytes, j);
    assert(chunk_value(bits, j) == bytes[j]);
}

/// Sampling a drawn frame at the centre of cell (r, c) reads that cell.
proof fn lemma_sampled_cell(bm: &Bitmap, h: FrameHeader, blocks: Seq<Seq<u8>>, s: int, r: int, c: int)
    requires
        frame_drawn(bm, h, blocks, s),
        s >= 1,
        0 <= r < h.layout.spec_height(),
        0 <= c < h.layout.spec_width(),
    ensures
        spec_sampled_grid(bm, s).len() == h.layout.spec_width() * h.layout.spec_height(),
        grid_at(spec_sampled_grid(bm, s), h.layout.spec_width(), r, c) == spec_frame_cell(
            h,
            blocks,
            r,
            c,
        ),
{
    let w = h.layout.spec_width();
    let ht = h.layout.spec_height();
    vstd::arithmetic::div_mod::lemma_div_by_multiple(w, s);
    vstd::arithmetic::div_mod::lemma_div_by_multiple(ht, s);
    assert(bm.w as int / s == w);
    assert(bm.h as int / s == ht);
    let i = r * w + c;
    assert(0 <= i < w * ht) by (nonlinear_arith)
        requires
            0 <= r < ht,
            0 <= c < w,
            i == r * w + c,
    ;
    vstd::arithmetic::div_mod::lemma_fundamental_div_mod_converse(i, w, r, c);
    let x = c * s + s / 2;
    let y = r * s + s / 2;
    vstd::arithmetic::div_mod::lemma_fundamental_div_mod_converse(x, s, c, s / 2);
    vstd::arithmetic::div_mod::lemma_fundamental_div_mod_converse(y, s, r, s / 2);
    assert(0 <= x < w * s) by (nonlinear_arith)
        requires
            0 <= c < w,
            s >= 1,
            x == c * s + s / 2,
            0 <= s / 2 < s,
    ;
    assert(0 <= y < ht * s) by (nonlinear_arith)
        requires
            0 <= r < ht,
            s >= 1,
            y == r * s + s / 2,
            0 <= s / 2 < s,
    ;
    assert(bm.pixel(x, y) == if spec_frame_cell(h, blocks, r, c) { 0u8 } else { 255u8 });
}

/// A drawn frame shows every corner marker.
proof fn lemma_drawn_corners(bm: &Bitmap, h: FrameHeader, blocks: Seq<Seq<u8>>, s: int)
    requires
        frame_drawn(bm, h, blocks, s),
        s >= 1,
        h.layout.spec_width() > 2 * CORNER,
    ensures
        spec_corners_ok(
            spec_sampled_grid(bm, s),
            h.layout.spec_width(),
            h.layout.spec_height(),
        ),
{
    let w = h.layout.spec_width();
    let ht = h.layout.spec_height();
    let g = spec_sampled_grid(bm, s);
    let o = spec_corner_origins(w, ht);
    assert(ht >= 2 * STRIP_H);
    assert forall|k: int, r: int, c: int|
        0 <= k < 4 && 0 <= r < CORNER && 0 <= c < CORNER implies #[trigger] grid_at(
        g,
        w,
        o[k].1 + r,
        o[k].2 + c,
    ) == spec_corner_black(o[k].0, r, c) by {
        lemma_sampled_cell(bm, h, blocks, s, o[k].1 + r, o[k].2 + c);
    }
}

/// The header area of a drawn frame holds, from its start, the bits of the
/// serialized header.
proof fn lemma_drawn_header_bits(bm: &Bitmap, h: FrameHeader, blocks: Seq<Seq<u8>>, s: int, i: int)
    requires
        frame_drawn(bm, h, blocks, s),
        s >= 1,
        h.layout.spec_width() > 2 * CORNER + (HEADER_LEN * 8) as int / (STRIP_H as int),
        0 <= i < HEADER_LEN * 8,
    ensures
        header_copies(h.layout.spec_width()) >= 1,
        spec_header_bits(spec_sampled_grid(bm, s), h.layout.spec_width()).len() >= HEADER_LEN * 8,
        spec_header_bits(spec_sampled_grid(bm, s), h.layout.spec_width())[i] == bool_bit(
            spec_serialize(h),
            i,
        ),
{
    let w = h.layout.spec_width();
    let ht = h.layout.spec_height();
    let inner = w - 2 * CORNER;
    assert(ht >= 2 * STRIP_H);
    vstd::arithmetic::div_mod::lemma_fundamental_div_mod(i, inner);
    let r = i / inner;
    let c = CORNER + i % inner;
    assert(r < STRIP_H) by (nonlinear_arith)
        requires
            i == inner * r + (i % inner),
            0 <= i % inner,
            i < HEADER_LEN * 8,
            inner >= 30,
    ;
    assert(r >= 0) by (nonlinear_arith)
        requires
            i == inner * r + (i % inner),
            i % inner < inner,
            i >= 0,
            inner >= 30,
    ;
    lemma_sampled_cell(bm, h, blocks, s, r, c);
    assert(r * inner + (c - CORNER) == i);
    vstd::arithmetic::div_mod::lemma_fundamental_div_mod(STRIP_H * inner, HEADER_LEN * 8);
    assert(header_copies(w) >= 1);
    vstd::arithmetic::div_mod::lemma_small_mod(i as nat, (HEADER_LEN * 8) as nat);
    let copies = header_copies(w);
    assert(i < copies * (HEADER_LEN * 8)) by (nonlinear_arith)
        requires
            copies >= 1,
            i < 176,
    ;
}

/// A drawn frame carries its header: the first header copy passes its CRC
/// and reads back as `h`.
proof fn lemma_drawn_header(bm: &Bitmap, h: FrameHeader, blocks: Seq<Seq<u8>>, s: int)
    requires
        frame_drawn(bm, h, blocks, s),
        s >= 1,
        h.layout.spec_width() > 2 * CORNER + (HEADER_LEN * 8) as int / (STRIP_H as int),
        h.layout.block <= 255,
        h.layout.grid_w <= 255,
        h.layout.grid_h <= 255,
    ensures
        spec_find_header(
            spec_header_bits(spec_sampled_grid(bm, s), h.layout.spec_width()),
            0,
            header_copies(h.layout.spec_width()),
        ) == Some(h),
{
    let w = h.layout.spec_width();
    let bits = spec_header_bits(spec_sampled_grid(bm, s), w);
    let ser = spec_serialize(h);
    lemma_drawn_header_bits(bm, h, blocks, s, 0);
    let copy = bits.subrange(0, HEADER_LEN * 8);
    assert forall|k: int| 0 <= k < 8 * ser.len() implies #[trigger] copy[k] == bool_bit(ser, k) by {
        lemma_drawn_header_bits(bm, h, blocks, s, k);
    }
    assert forall|j: int| 0 <= j < ser.len() implies #[trigger] spec_bits_to_bytes(copy)[j]
        == ser[j] by {
        lemma_bits_to_bytes_prefix(copy, ser, j);
    }
    assert(spec_copy_bytes(bits, 0) =~= ser);
    lemma_header_roundtrip(h);
    lemma_deserialize_fields(h, ser);
}

/// Block `bi` of a drawn frame holds, from its start, the bits of its
/// content.
proof fn lemma_drawn_block_bits(
    bm: &Bitmap,
    h: FrameHeader,
    blocks: Seq<Seq<u8>>,
    s: int,
    bi: int,
    i: int,
)
    requires
        frame_drawn(bm, h, blocks, s),
        s >= 1,
        h.layout.block > 0,
        h.layout.grid_w > 0,
        0 <= bi < h.layout.spec_block_count(),
        0 <= i < h.layout.block * h.layout.block,
    ensures
        spec_block_bits(spec_sampled_grid(bm, s), h.layout.spec_width(), h.layout, bi)[i]
            == bool_bit(block_content(h.layout, blocks, bi), i),
{
    let l = h.layout;
    let b = l.block as int;
    let gw = l.grid_w as int;
    let gh = l.grid_h as int;
    let w = l.spec_width();
    let ht = l.spec_height();
    let by = bi / gw;
    let bx = bi % gw;
    let ir = i / b;
    let ic = i % b;
    vstd::arithmetic::div_mod::lemma_fundamental_div_mod(bi, gw);
    vstd::arithmetic::div_mod::lemma_fundamental_div_mod(i, b);
    assert(0 <= by < gh) by (nonlinear_arith)
        requires
            bi == gw * by + bx,
            0 <= bx < gw,
            0 <= bi < gw * gh,
            gw > 0,
    ;
    assert(0 <= ir < b) by (nonlinear_arith)
        requires
            i == b * ir + ic,
            0 <= ic < b,
            0 <= i < b * b,
            b > 0,
    ;
    let r = STRIP_H + by * b + ir;
    let c = bx * b + ic;
    assert(by * b + ir < gh * b) by (nonlinear_arith)
        requires
            0 <= by < gh,
            0 <= ir < b,
    ;
    assert(c < gw * b) by (nonlinear_arith)
        requires
            0 <= bx < gw,
            0 <= ic < b,
            c == bx * b + ic,
    ;
    assert(by * b >= 0 && bx * b >= 0) by (nonlinear_arith)
        requires
            by >= 0,
            bx >= 0,
            b > 0,
    ;
    lemma_sampled_cell(bm, h, blocks, s, r, c);
    let br = r - STRIP_H;
    vstd::arithmetic::div_mod::lemma_fundamental_div_mod_converse(br, b, by, ir);
    vstd::arithmetic::div_mod::lemma_fundamental_div_mod_converse(c, b, bx, ic);
    assert(ir * b + ic == i) by (nonlinear_arith)
        requires
            i == b * ir + ic,
    ;
    assert(by * gw + bx == bi) by (nonlinear_arith)
        requires
            bi == gw * by + bx,
    ;
}

/// Each block of a drawn frame decodes as the receiver expects: a given
/// payload comes back, a filler block reads as missing.
proof fn lemma_drawn_block(bm: &Bitmap, h: FrameHeader, blocks: Seq<Seq<u8>>, s: int, bi: int)
    requires
        frame_drawn(bm, h, blocks, s),
        frame_encodable(h, blocks, s),
        h.layout.spec_block_bytes() >= 2,
        0 <= bi < h.layout.spec_block_count(),
    ensures
        spec_decode_block(spec_sampled_grid(bm, s), h.layout.spec_width(), h.layout, bi)
            == expected_blocks(h.layout, blocks)[bi],
{
    let l = h.layout;
    let w = l.spec_width();
    let g = spec_sampled_grid(bm, s);
    let bits = spec_block_bits(g, w, l, bi);
    let content = block_content(l, blocks, bi);
    let bb = l.spec_block_bytes();
    let pl = l.spec_block_payload_len();
    assert(l.block > 0 && l.grid_w > 0) by (nonlinear_arith)
        requires
            l.grid_w * l.block > 2 * CORNER,
            l.block >= 0,
            l.grid_w >= 0,
    ;
    if bi < blocks.len() {
        assert(blocks[bi].len() == pl);
    }
    assert(content.len() == bb);
    assert(8 * bb <= l.block * l.block);
    assert forall|k: int| 0 <= k < 8 * content.len() implies #[trigger] bits[k] == bool_bit(
        content,
        k,
    ) by {
        lemma_drawn_block_bits(bm, h, blocks, s, bi, k);
    }
    let bytes = spec_bits_to_bytes(bits);
    assert forall|j: int| 0 <= j < content.len() implies #[trigger] bytes[j] == content[j] by {
        lemma_bits_to_bytes_prefix(bits, content, j);
    }
    lemma_bits_to_bytes_prefix(bits, content, 0);
    assert(bytes.subrange(0, pl) =~= content.subrange(0, pl));
    if bi < blocks.len() {
        let p = blocks[bi];
        let crc = spec_crc16(p);
        assert(content.subrange(0, pl) =~= p);
        assert(content[pl] == (crc >> 8u16) as u8);
        assert(content[pl + 1] == crc as u8);
        assert(((crc >> 8u16) as u8) * 256 + (crc as u8) == crc) by (bit_vector);
    } else {
        let zeros = Seq::new(pl as nat, |k: int| 0u8);
        assert(content.subrange(0, pl) =~= zeros);
        lemma_crc16_zeros_nonzero(pl as nat);
    }
}

/// The frame law: decoding a drawn frame at its scale gives back its header
/// and every given block; the filler blocks read as missing. The
/// header's layout fields must each fit their byte, the frame must have a
/// row of blocks, the header must say 1 bit per cell, and the blocks must
/// have room for their CRC.
pub proof fn lemma_frame_roundtrip(bm: &Bitmap, h: FrameHeader, blocks: Seq<Seq<u8>>, scale: int)
    requires
        frame_encodable(h, blocks, scale),
        frame_drawn(bm, h, blocks, scale),
        h.layout.block <= 255,
        h.layout.grid_w <= 255,
        h.layout.grid_h >= 1,
        h.layout.grid_h <= 255,
        h.bits_per_cell == 1,
        h.layout.spec_block_bytes() >= 2,
    ensures
        cells_decodable(
            spec_sampled_grid(bm, scale),
            h.layout.spec_width(),
            h.layout.spec_height(),
        ),
        spec_decode_frame(bm, scale) == Ok::<_, FrameError>((h, expected_blocks(h.layout, blocks))),
{
    let l = h.layout;
    let w = l.spec_width();
    let ht = l.spec_height();
    let g = spec_sampled_grid(bm, scale);
    vstd::arithmetic::div_mod::lemma_fundamental_div_mod_converse(bm.w as int, scale, w, 0);
    vstd::arithmetic::div_mod::lemma_fundamental_div_mod_converse(bm.h as int, scale, ht, 0);
    assert(l.block > 0) by (nonlinear_arith)
        requires
            l.grid_w * l.block > 2 * CORNER,
            l.block >= 0,
            l.grid_w >= 0,
    ;
    assert(l.grid_h * l.block >= 1) by (nonlinear_arith)
        requires
            l.grid_h >= 1,
            l.block >= 1,
    ;
    lemma_sampled_cell(bm, h, blocks, scale, 0, 0);
    lemma_drawn_corners(bm, h, blocks, scale);
    lemma_drawn_header(bm, h, blocks, scale);
    assert(spec_decode_header(g, w, ht) == Ok::<_, FrameError>(h));
    let expected = expected_blocks(l, blocks);
    let got = Seq::new(l.spec_block_count() as nat, |bi: int| spec_decode_block(g, w, l, bi));
    assert forall|bi: int| 0 <= bi < got.len() implies #[trigger] got[bi] == expected[bi] by {
        lemma_drawn_block(bm, h, blocks, scale, bi);
    }
    assert(got =~= expected);
}

/// Cell (r, c) lies in the square of block `bi` of layout `l`.
pub open spec fn in_block_area(l: Layout, bi: int, r: int, c: int) -> bool {
    let o = l.spec_block_origin(bi);
    &&& o.0 <= r < o.0 + l.block
    &&& o.1 <= c < o.1 + l.block
}

/// A cell of block `j` lies in the square of block `bi` only when `j == bi`.
proof fn lemma_block_areas_disjoint(l: Layout, bi: int, j: int, i: int)
    requires
        l.block > 0,
        l.grid_w > 0,
        0 <= bi < l.spec_block_count(),
        0 <= j < l.spec_block_count(),
        0 <= i < l.block * l.block,
        in_block_area(
            l,
            bi,
            l.spec_block_origin(j).0 + i / (l.block as int),
            l.spec_block_origin(j).1 + i % (l.block as int),
        ),
    ensures
        j == bi,
{
    let b = l.block as int;
    let gw = l.grid_w as int;
    vstd::arithmetic::div_mod::lemma_fundamental_div_mod(i, b);
    vstd::arithmetic::div_mod::lemma_fundamental_div_mod(j, gw);
    vstd::arithmetic::div_mod::lemma_fundamental_div_mod(bi, gw);
    let ir = i / b;
    let ic = i % b;
    assert(0 <= ir < b) by (nonlinear_arith)
        requires
            i == b * ir + ic,
            0 <= ic < b,
            0 <= i < b * b,
            b > 0,
    ;
    let yj = j / gw;
    let xj = j % gw;
    let yb = bi / gw;
    let xb = bi % gw;
    // Same block row: yj * b + ir lies in [yb * b, yb * b + b).
    assert(yj == yb) by (nonlinear_arith)
        requires
            yb * b <= yj * b + ir < yb * b + b,
            0 <= ir < b,
            b > 0,
    ;
    assert(xj == xb) by (nonlinear_arith)
        requires
            xb * b <= xj * b + ic < xb * b + b,
            0 <= ic < b,
            b > 0,
    ;
}

/// Partial recovery: damage confined to the square of one block leaves the
/// header and every other block as they decode undamaged. Grids `g1` and
/// `g2` agree on every cell outside block `bi`'s square, and `g1`'s header
/// passes its checks.
pub proof fn lemma_block_damage_is_local(
    g1: Seq<bool>,
    g2: Seq<bool>,
    w: int,
    h: int,
    hd: FrameHeader,
    bi: int,
)
    requires
        g1.len() == w * h,
        g2.len() == w * h,
        spec_decode_header(g1, w, h) == Ok::<FrameHeader, FrameError>(hd),
        0 <= bi < hd.layout.spec_block_count(),
        forall|r: int, c: int|
            0 <= r < h && 0 <= c < w && !in_block_area(hd.layout, bi, r, c) ==> #[trigger] grid_at(
                g1,
                w,
                r,
                c,
            ) == grid_at(g2, w, r, c),
    ensures
        spec_decode_header(g2, w, h) == Ok::<FrameHeader, FrameError>(hd),
        forall|j: int|
            0 <= j < hd.layout.spec_block_count() && j != bi ==> #[trigger] spec_decode_block(
                g2,
                w,
                hd.layout,
                j,
            ) == spec_decode_block(g1, w, hd.layout, j),
{
    let l = hd.layout;
    let b = l.block as int;
    assert(w == l.spec_width() && h == l.spec_height());
    assert(w >= 13);
    if b == 0 {
        assert(l.grid_w * l.block == 0) by (nonlinear_arith)
            requires
                l.block == 0,
        ;
    }
    if l.grid_w == 0 {
        assert(l.grid_w * l.block == 0) by (nonlinear_arith)
            requires
                l.grid_w == 0,
        ;
    }
    let ob = l.spec_block_origin(bi);
    vstd::arithmetic::div_mod::lemma_fundamental_div_mod(bi, l.grid_w as int);
    assert(bi / (l.grid_w as int) < l.grid_h) by (nonlinear_arith)
        requires
            bi == l.grid_w * (bi / (l.grid_w as int)) + bi % (l.grid_w as int),
            0 <= bi % (l.grid_w as int),
            bi < l.grid_w * l.grid_h,
            l.grid_w > 0,
    ;
    assert(0 <= bi / (l.grid_w as int));
    assert(ob.0 + b <= h - STRIP_H) by (nonlinear_arith)
        requires
            ob.0 == STRIP_H + (bi / (l.grid_w as int)) * b,
            bi / (l.grid_w as int) < l.grid_h,
            h == l.grid_h * b + 2 * STRIP_H,
            b > 0,
    ;
    assert(ob.0 >= STRIP_H) by (nonlinear_arith)
        requires
            ob.0 == STRIP_H + (bi / (l.grid_w as int)) * b,
            bi / (l.grid_w as int) >= 0,
            b > 0,
    ;
    // Corner markers and the header lie in the strips, outside every block.
    let o = spec_corner_origins(w, h);
    assert forall|k: int, r: int, c: int|
        0 <= k < 4 && 0 <= r < CORNER && 0 <= c < CORNER implies #[trigger] grid_at(
        g2,
        w,
        o[k].1 + r,
        o[k].2 + c,
    ) == grid_at(g1, w, o[k].1 + r, o[k].2 + c) by {
        assert(!in_block_area(l, bi, o[k].1 + r, o[k].2 + c));
    }
    assert(spec_corners_ok(g2, w, h));
    let inner = w - 2 * CORNER;
    assert forall|i: int| 0 <= i < STRIP_H * inner implies #[trigger] spec_header_bits(g2, w)[i]
        == spec_header_bits(g1, w)[i] by {
        vstd::arithmetic::div_mod::lemma_fundamental_div_mod(i, inner);
        assert(i / inner < STRIP_H) by (nonlinear_arith)
            requires
                i == inner * (i / inner) + i % inner,
                0 <= i % inner,
                i < STRIP_H * inner,
                inner > 0,
        ;
        assert(i / inner >= 0) by (nonlinear_arith)
            requires
                i == inner * (i / inner) + i % inner,
                i % inner < inner,
                i >= 0,
                inner > 0,
        ;
        let hc = spec_header_cell(w, i);
        assert(!in_block_area(l, bi, hc.0, hc.1));
    }
    assert(spec_header_bits(g2, w) =~= spec_header_bits(g1, w));
    assert forall|j: int|
        0 <= j < l.spec_block_count() && j != bi implies #[trigger] spec_decode_block(
        g2,
        w,
        l,
        j,
    ) == spec_decode_block(g1, w, l, j) by {
        let oj = l.spec_block_origin(j);
        assert forall|i: int| 0 <= i < b * b implies #[trigger] spec_block_bits(g2, w, l, j)[i]
            == spec_block_bits(g1, w, l, j)[i] by {
            let r = oj.0 + i / b;
            let c = oj.1 + i % b;
            if in_block_area(l, bi, r, c) {
                lemma_block_areas_disjoint(l, bi, j, i);
            }
            lemma_block_cell_in_grid(l, j, i);
        }
        assert(spec_block_bits(g2, w, l, j) =~= spec_block_bits(g1, w, l, j));
    }
}

/// Cell `i` of block `j` lies in the grid.
proof fn lemma_block_cell_in_grid(l: Layout, j: int, i: int)
    requires
        l.block > 0,
        l.grid_w > 0,
        0 <= j < l.spec_block_count(),
        0 <= i < l.block * l.block,
    ensures
        0 <= l.spec_block_origin(j).0 + i / (l.block as int) < l.spec_height(),
        0 <= l.spec_block_origin(j).1 + i % (l.block as int) < l.spec_width(),
{
    let b = l.block as int;
    let gw = l.grid_w as int;
    let gh = l.grid_h as int;
    vstd::arithmetic::div_mod::lemma_fundamental_div_mod(i, b);
    vstd::arithmetic::div_mod::lemma_fundamental_div_mod(j, gw);
    let ir = i / b;
    let ic = i % b;
    let y = j / gw;
    let x = j % gw;
    assert(0 <= ir < b) by (nonlinear_arith)
        requires
            i == b * ir + ic,
            0 <= ic < b,
            0 <= i < b * b,
            b > 0,
    ;
    assert(0 <= y < gh) by (nonlinear_arith)
        requires
            j == gw * y + x,
            0 <= x < gw,
            0 <= j < gw * gh,
            gw > 0,
    ;
    assert(y * b + ir < gh * b) by (nonlinear_arith)
        requires
            0 <= y < gh,
            0 <= ir < b,
    ;
    assert(x * b + ic < gw * b) by (nonlinear_arith)
        requires
            0 <= x < gw,
            0 <= ic < b,
    ;
    assert(y * b >= 0 && x * b >= 0) by (nonlinear_arith)
        requires
            y >= 0,
            x >= 0,
            b > 0,
    ;
}

/// A shift-register step never clears a nonzero register.
proof fn lemma_crc_step_nonzero(c: u16)
    requires
        c != 0,
    ensures
        crc_step(c) != 0,
{
    assert(c != 0 ==> (if c & 0x8000 != 0 {
        (c << 1u16) ^ 0x1021
    } else {
        c << 1u16
    }) != 0) by (bit_vector);
}

/// Nor do `n` steps.
proof fn lemma_crc_steps_nonzero(c: u16, n: nat)
    requires
        c != 0,
    ensures
        crc_steps(c, n) != 0,
    decreases n,
{
    if n > 0 {
        lemma_crc_steps_nonzero(c, (n - 1) as nat);
        lemma_crc_step_nonzero(crc_steps(c, (n - 1) as nat));
    }
}

/// The CRC-16 of any run of zero bytes is nonzero: zero bytes only shift
/// the register, which starts at 0xFFFF. So an all-zero block (zero
/// payload, zero CRC field) never passes its CRC.
pub proof fn lemma_crc16_zeros_nonzero(n: nat)
    ensures
        spec_crc16(Seq::new(n, |k: int| 0u8)) != 0,
    decreases n,
{
    let z = Seq::new(n, |k: int| 0u8);
    if n > 0 {
        lemma_crc16_zeros_nonzero((n - 1) as nat);
        assert(z.drop_last() =~= Seq::new((n - 1) as nat, |k: int| 0u8));
        let c = spec_crc16(z.drop_last());
        assert(c ^ ((0u8 as u16) << 8u16) == c) by (bit_vector);
        lemma_crc_steps_nonzero(c, 8);
    }
}

/// A shift-register step on a register whose top bit is clear is a plain
/// shift.
proof fn lemma_crc_step_shift(c: u16)
    requires
        c < 0x8000,
    ensures
        crc_step(c) == c << 1u16,
{
    assert(c < 0x8000 ==> c & 0x8000 == 0) by (bit_vector);
}

/// CRC laws: the CRC of nothing is the initial value 0xFFFF, and appending
/// a message's CRC (big-endian) to it leaves a zero register (the residue
/// of CRC-16/CCITT-FALSE, which has no final xor).
pub proof fn lemma_crc16_laws(data: Seq<u8>)
    ensures
        spec_crc16(Seq::empty()) == 0xFFFF,
        spec_crc16(data + be16(spec_crc16(data))) == 0,
{
    let c = spec_crc16(data);
    let s = data + be16(c);
    assert(s.drop_last() =~= data + seq![(c >> 8u16) as u8]);
    assert(s.drop_last().drop_last() =~= data);
    let hi = (c >> 8u16) as u8;
    let lo = c as u8;
    let x0 = c ^ ((hi as u16) << 8u16);
    assert(x0 == (lo as u16)) by (bit_vector)
        requires
            hi == (c >> 8u16) as u8,
            lo == c as u8,
            x0 == c ^ ((hi as u16) << 8u16),
    ;
    reveal_with_fuel(crc_steps, 9);
    lemma_crc_step_shift(x0);
    let x1 = x0 << 1u16;
    assert(x0 < 256 ==> x1 < 0x8000 && (x1 << 1u16) < 0x8000 && ((x1 << 1u16) << 1u16) < 0x8000
        && (((x1 << 1u16) << 1u16) << 1u16) < 0x8000 && ((((x1 << 1u16) << 1u16) << 1u16) << 1u16)
        < 0x8000 && (((((x1 << 1u16) << 1u16) << 1u16) << 1u16) << 1u16) < 0x8000 && ((((((x1
        << 1u16) << 1u16) << 1u16) << 1u16) << 1u16) << 1u16) < 0x8000) by (bit_vector)
        requires
            x1 == x0 << 1u16,
    ;
    let x2 = x1 << 1u16;
    let x3 = x2 << 1u16;
    let x4 = x3 << 1u16;
    let x5 = x4 << 1u16;
    let x6 = x5 << 1u16;
    let x7 = x6 << 1u16;
    lemma_crc_step_shift(x1);
    lemma_crc_step_shift(x2);
    lemma_crc_step_shift(x3);
    lemma_crc_step_shift(x4);
    lemma_crc_step_shift(x5);
    lemma_crc_step_shift(x6);
    lemma_crc_step_shift(x7);
    let x8 = x7 << 1u16;
    let c1 = crc_byte(c, hi);
    assert(c1 == x8);
    assert(x8 ^ ((lo as u16) << 8u16) == 0) by (bit_vector)
        requires
            x0 == lo as u16,
            x8 == (((((((x0 << 1u16) << 1u16) << 1u16) << 1u16) << 1u16) << 1u16) << 1u16) << 1u16,
    ;
    lemma_crc_steps_zero(8);
    assert(s.last() == lo);
    assert(spec_crc16(s.drop_last()) == c1);
    assert(spec_crc16(s) == crc_byte(c1, lo));
}

/// A zero register stays zero.
proof fn lemma_crc_steps_zero(n: nat)
    ensures
        crc_steps(0, n) == 0,
    decreases n,
{
    if n > 0 {
        lemma_crc_steps_zero((n - 1) as nat);
        lemma_crc_step_shift(0);
        assert((0u16 << 1u16) == 0) by (bit_vector);
    }
}

/// The CRC register step is linear over xor.
proof fn lemma_crc_steps_xor(a: u16, b: u16, n: nat)
    ensures
        crc_steps(a ^ b, n) == crc_steps(a, n) ^ crc_steps(b, n),
    decreases n,
{
    if n > 0 {
        lemma_crc_steps_xor(a, b, (n - 1) as nat);
        let x = crc_steps(a, (n - 1) as nat);
        let y = crc_steps(b, (n - 1) as nat);
        assert((if (x ^ y) & 0x8000 != 0 {
            ((x ^ y) << 1u16) ^ 0x1021
        } else {
            (x ^ y) << 1u16
        }) == (if x & 0x8000 != 0 {
            (x << 1u16) ^ 0x1021
        } else {
            x << 1u16
        }) ^ (if y & 0x8000 != 0 {
            (y << 1u16) ^ 0x1021
        } else {
            y << 1u16
        })) by (bit_vector);
    }
}

/// The CRCs of two equally long messages that differ in byte `i` only:
/// equal on every prefix up to `i`, different on every longer prefix.
proof fn lemma_crc16_prefix_diff(a: Seq<u8>, b: Seq<u8>, i: int, n: int)
    requires
        a.len() == b.len(),
        0 <= i < a.len(),
        0 <= n <= a.len(),
        a[i] != b[i],
        forall|j: int| 0 <= j < a.len() && j != i ==> a[j] == b[j],
    ensures
        n <= i ==> spec_crc16(a.subrange(0, n)) == spec_crc16(b.subrange(0, n)),
        n > i ==> spec_crc16(a.subrange(0, n)) != spec_crc16(b.subrange(0, n)),
    decreases n,
{
    if n == 0 {
        assert(a.subrange(0, 0) =~= b.subrange(0, 0));
    } else {
        lemma_crc16_prefix_diff(a, b, i, n - 1);
        let pa = a.subrange(0, n);
        let pb = b.subrange(0, n);
        assert(pa.drop_last() =~= a.subrange(0, n - 1));
        assert(pb.drop_last() =~= b.subrange(0, n - 1));
        let ca = spec_crc16(a.subrange(0, n - 1));
        let cb = spec_crc16(b.subrange(0, n - 1));
        let xa = a[n - 1];
        let xb = b[n - 1];
        let ra = ca ^ ((xa as u16) << 8u16);
        let rb = cb ^ ((xb as u16) << 8u16);
        lemma_crc_steps_xor(ra, rb, 8);
        assert(spec_crc16(pa) == crc_steps(ra, 8));
        assert(spec_crc16(pb) == crc_steps(rb, 8));
        let d = ra ^ rb;
        if n - 1 == i {
            assert(ca == cb);
            assert(xa != xb);
            assert(ca == cb && xa != xb ==> (ca ^ ((xa as u16) << 8u16)) ^ (cb ^ ((xb as u16) << 8u16))
                != 0) by (bit_vector);
        } else if n - 1 > i {
            assert(xa == xb);
            assert(ca != cb && xa == xb ==> (ca ^ ((xa as u16) << 8u16)) ^ (cb ^ ((xb as u16) << 8u16))
                != 0) by (bit_vector);
        }
        if n > i {
            lemma_crc_steps_nonzero(d, 8);
            let sa = crc_steps(ra, 8);
            let sb = crc_steps(rb, 8);
            assert(sa ^ sb != 0 ==> sa != sb) by (bit_vector);
        }
    }
}

/// CRC-16 detects every error confined to one byte, single bit flips
/// included: two equally long messages that differ in exactly one byte
/// have different CRCs.
pub proof fn lemma_crc16_detects_byte_error(a: Seq<u8>, b: Seq<u8>, i: int)
    requires
        a.len() == b.len(),
        0 <= i < a.len(),
        a[i] != b[i],
        forall|j: int| 0 <= j < a.len() && j != i ==> a[j] == b[j],
    ensures
        spec_crc16(a) != spec_crc16(b),
{
    lemma_crc16_prefix_diff(a, b, i, a.len() as int);
    assert(a.subrange(0, a.len() as int) =~= a);
    assert(b.subrange(0, b.len() as int) =~= b);
}

} // verus!
