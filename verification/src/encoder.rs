//! Encodes a payload into a frame.
//!
//! 1. Build `u32` BE length header + payload + zero padding up to the RS data
//!    area.
//! 2. Reed-Solomon encode in 191-byte blocks into 255-byte codewords.
//! 3. Zero-pad to the frame's data byte count.
//! 4. Pack 3 bits per cell into the data cells.
//! 5. Place data cells around the calibration and finder cells.

use vstd::prelude::*;
use vstd::arithmetic::power2::{pow2, lemma2_to64};
use crate::bitstream::{byte_bit, bits_value, packed_cell, spec_pack, lemma_bit_le_1, lemma_bits_value_bound, lemma_bits_value_split, lemma_bits_value_zero, lemma_byte_bits, lemma_packed_cell_small, lemma_shift_split};
use crate::palette::{Color, BITS_PER_CELL};
use crate::frame::{CellRole, Frame, FrameSpec, spec_place, spec_place_at, lemma_data_count_monotone, lemma_row_major, lemma_extract_place, LENGTH_HEADER_BYTES};
use crate::ecc::{encode_blocks, spec_encode_blocks, RS_BLOCK_SIZE, RS_DATA_PER_BLOCK};
use crate::decoder::{spec_decode, spec_frame_bytes, spec_parse_header, be32_value, decodable};
use crate::bitstream::{spec_unpack, lemma_unpack_pack};

verus! {

/// Takes 3 bits at a time, MSB first, from `bytes` to build `cell_count`
/// cells; bits past the end of `bytes` read as 0.
pub fn pack_bytes_to_cells(bytes: &[u8], cell_count: usize) -> (cells: Vec<Color>)
    ensures
        cells@ == spec_pack(bytes@, cell_count as nat),
{
    let mut cells: Vec<Color> = Vec::with_capacity(cell_count);
    let mut buffer: u32 = 0;
    let mut bits: u32 = 0;
    let mut idx: usize = 0;
    let ghost f = |k: int| byte_bit(bytes@, k);
    proof {
        assert forall|k: int| #[trigger] f(k) <= 1 by {
            lemma_bit_le_1(bytes@, Seq::empty(), k);
        }
        lemma2_to64();
    }

    while cells.len() < cell_count
        invariant
            f == (|k: int| byte_bit(bytes@, k)),
            forall|k: int| #[trigger] f(k) <= 1,
            cells.len() <= cell_count,
            forall|i: int| 0 <= i < cells.len() ==> #[trigger] cells@[i] == packed_cell(bytes@, i),
            bits <= 10,
            idx <= bytes.len(),
            3 * cells.len() + bits >= 8 * idx,
            idx < bytes.len() ==> 3 * cells.len() + bits == 8 * idx,
            buffer == bits_value(f, 3 * cells.len(), bits as nat),
        decreases 2 * (cell_count - cells.len()) + (if bits < 3 { 1int } else { 0int }),
    {
        let ghost pos = 3 * cells.len();
        if bits < BITS_PER_CELL {
            proof {
                lemma_bits_value_bound(f, pos, bits as nat);
                lemma2_to64();
            }
            if idx < bytes.len() {
                let byte = bytes[idx];
                proof {
                    lemma_bits_value_split(f, pos, bits as nat, 8);
                    lemma_byte_bits(bytes@, idx as int);
                    assert(buffer < 4);
                    assert(buffer < 4 ==> (buffer << 8u32) | (byte as u32) == buffer * 256 + byte)
                        by (bit_vector);
                }
                buffer = (buffer << 8) | byte as u32;
                bits += 8;
                idx += 1;
            } else {
                proof {
                    let pad = (3 - bits) as nat;
                    lemma_bits_value_split(f, pos, bits as nat, pad);
                    assert forall|k: int| pos + bits <= k < pos + bits + pad implies #[trigger] f(k)
                        == 0 by {}
                    lemma_bits_value_zero(f, pos + bits, pad);
                    assert(buffer < 4);
                    assert(buffer < 4 && bits < 3 ==> buffer << ((3u32 - bits) as u32) == buffer * (if bits
                        == 0 { 8u32 } else if bits == 1 { 4u32 } else { 2u32 })) by (bit_vector);
                    assert(pow2(pad) == if bits == 0 { 8nat } else if bits == 1 { 4nat } else { 2nat });
                }
                buffer <<= BITS_PER_CELL - bits;
                bits = BITS_PER_CELL;
            }
            continue;
        }
        let shift = bits - BITS_PER_CELL;
        proof {
            lemma_bits_value_split(f, pos, 3, shift as nat);
            lemma_bits_value_bound(f, pos + 3, shift as nat);
            lemma_packed_cell_small(bytes@, cells.len() as int);
            lemma_shift_split(
                buffer,
                shift,
                bits_value(f, pos, 3),
                bits_value(f, pos + 3, shift as nat),
            );
        }
        let top = buffer >> shift;
        proof {
            assert(top < 8 ==> top & 0b111 == top) by (bit_vector);
        }
        let c = (top & 0b111) as Color;
        buffer &= (1u32 << shift) - 1;
        bits -= BITS_PER_CELL;
        cells.push(c);
    }
    assert(cells@ =~= spec_pack(bytes@, cell_count as nat));
    cells
}

/// Lays out a frame: data cells take the entries of `data_cells` in
/// row-major order, calibration and finder cells their fixed colours.
pub fn place_cells_with_calibration(spec: FrameSpec, data_cells: &[Color]) -> (cells: Vec<Color>)
    requires
        spec.spec_total_cells() <= usize::MAX,
        spec.roles_fit(),
        data_cells@.len() == spec.spec_data_cell_total(),
    ensures
        cells@ == spec_place(spec, data_cells@),
{
    let total = spec.total_cells();
    let mut cells: Vec<Color> = vec![0u8; total];
    let mut data_idx: usize = 0;
    let w = spec.grid_width;
    let h = spec.grid_height;
    let mut row: usize = 0;
    while row < h
        invariant
            total == spec.spec_total_cells(),
            total <= usize::MAX,
            w == spec.grid_width,
            h == spec.grid_height,
            spec.roles_fit(),
            data_cells@.len() == spec.spec_data_cell_total(),
            row <= h,
            cells@.len() == total,
            data_idx == spec.spec_data_count(row * w),
            forall|j: int| 0 <= j < row * w ==> #[trigger] cells@[j] == spec_place_at(
                spec,
                data_cells@,
                j,
            ),
        decreases h - row,
    {
        proof {
            assert((row + 1) * w <= w * h) by (nonlinear_arith)
                requires
                    row < h,
            ;
            assert((row + 1) * w == row * w + w) by (nonlinear_arith);
        }
        let mut col: usize = 0;
        while col < w
            invariant
                total == spec.spec_total_cells(),
                total <= usize::MAX,
                w == spec.grid_width,
                h == spec.grid_height,
                spec.roles_fit(),
                data_cells@.len() == spec.spec_data_cell_total(),
                row < h,
                (row + 1) * w <= total,
                (row + 1) * w == row * w + w,
                col <= w,
                cells@.len() == total,
                data_idx == spec.spec_data_count(row * w + col),
                forall|j: int| 0 <= j < row * w + col ==> #[trigger] cells@[j] == spec_place_at(
                    spec,
                    data_cells@,
                    j,
                ),
            decreases w - col,
        {
            let idx = row * w + col;
            proof {
                lemma_row_major(spec, row as int, col as int);
            }
            let role = spec.cell_role(row, col);
            let c = match role {
                CellRole::Data => {
                    proof {
                        lemma_data_count_monotone(spec, idx + 1, total as int);
                    }
                    let c = data_cells[data_idx];
                    data_idx += 1;
                    c
                },
                CellRole::Calibration(c) => c,
                CellRole::Finder(c) => c,
            };
            cells.set(idx, c);
            col += 1;
        }
        row += 1;
    }
    proof {
        assert(h * w == w * h) by (nonlinear_arith);
    }
    assert(cells@ =~= spec_place(spec, data_cells@));
    cells
}

#[derive(Debug, PartialEq, Eq, Structural)]
pub enum EncodeError {
    PayloadTooLarge { max: usize, given: usize },
}

/// `n` zero bytes.
pub open spec fn zeros(n: int) -> Seq<u8> {
    Seq::new(n as nat, |k: int| 0u8)
}

/// Big-endian bytes of a `u32`.
pub open spec fn be32_bytes(x: u32) -> Seq<u8> {
    seq![(x >> 24u32) as u8, (x >> 16u32) as u8, (x >> 8u32) as u8, x as u8]
}

/// The RS data area of `n_blocks` blocks: length header, payload, then zero
/// bytes.
pub open spec fn spec_data_area(payload: Seq<u8>, n_blocks: int) -> Seq<u8> {
    be32_bytes(payload.len() as u32) + payload + zeros(191 * n_blocks - 4 - payload.len())
}

/// The bytes a frame carries: the RS codewords of the data area, zero-padded
/// to `data_bytes`.
pub open spec fn spec_code_stream(payload: Seq<u8>, spec: FrameSpec) -> Seq<u8> {
    let n = spec.spec_rs_blocks();
    spec_encode_blocks(spec_data_area(payload, n)) + zeros(spec.spec_data_bytes() - 255 * n)
}

/// The cells of the frame encoding `payload`.
pub open spec fn spec_encode_cells(payload: Seq<u8>, spec: FrameSpec) -> Seq<Color> {
    spec_place(spec, spec_pack(spec_code_stream(payload, spec), spec.spec_data_cells() as nat))
}

/// Encoding is possible on this geometry: the counts fit, there is at least
/// one RS block, and the layout has exactly `data_cells()` data cells.
pub open spec fn encodable(spec: FrameSpec) -> bool {
    &&& spec.counts_fit()
    &&& spec.roles_fit()
    &&& spec.spec_rs_blocks() >= 1
    &&& spec.spec_data_cell_total() == spec.spec_data_cells()
}

/// Whether `encode_payload` accepts geometry `spec` (see `encodable`).
pub fn is_encodable(spec: FrameSpec) -> (ok: bool)
    ensures
        ok == encodable(spec),
{
    if !spec.sizes_fit() {
        return false;
    }
    if spec.rs_blocks() < 1 {
        return false;
    }
    spec.data_cell_count() == spec.data_cells()
}

/// Every regular geometry (finders, disabled or not, and the calibration
/// band fit the grid) whose sizes fit and that holds an RS block is
/// encodable.
pub proof fn lemma_regular_encodable(spec: FrameSpec)
    requires
        spec.layout_regular(),
        spec.counts_fit(),
        spec.roles_fit(),
        spec.spec_rs_blocks() >= 1,
    ensures
        encodable(spec),
{
    crate::frame::lemma_regular_data_cells(spec);
}

/// Every geometry the encoder accepts, the decoder accepts too.
pub proof fn lemma_encodable_decodable(spec: FrameSpec)
    requires
        encodable(spec),
    ensures
        decodable(spec),
{
    let d = spec.spec_data_cells();
    assert(spec.spec_rs_blocks() * 255 <= d * 3 / 8) by {
        vstd::arithmetic::div_mod::lemma_fundamental_div_mod(d * 3 / 8, 255);
    }
}

/// Encodes `payload` into a frame of geometry `spec`. Fails exactly when the
/// payload is longer than `max_payload_bytes()`; a frame it returns decodes
/// back to the payload.
pub fn encode_payload(payload: &[u8], spec: FrameSpec) -> (res: Result<Frame, EncodeError>)
    requires
        encodable(spec),
    ensures
        payload@.len() > spec.spec_max_payload_bytes() ==> res == Err::<Frame, EncodeError>(
            EncodeError::PayloadTooLarge {
                max: spec.spec_max_payload_bytes() as usize,
                given: payload@.len() as usize,
            },
        ),
        payload@.len() <= spec.spec_max_payload_bytes() ==> (res matches Ok(f) && f.spec == spec
            && f.cells@ == spec_encode_cells(payload@, spec)),
        res matches Ok(f) ==> f.cells@.len() == spec.spec_total_cells() && forall|i: int|
            0 <= i < f.cells@.len() ==> #[trigger] f.cells@[i] < 8,
        res matches Ok(f) ==> (payload@.len() <= u32::MAX ==> spec_decode(f.spec, f.cells@) == Ok::<
            Seq<u8>,
            crate::decoder::DecodeError,
        >(payload@)),
{
    let max = spec.max_payload_bytes();
    if payload.len() > max {
        return Err(EncodeError::PayloadTooLarge { max, given: payload.len() });
    }
    let n_blocks = spec.rs_blocks();
    let data_byte_count = n_blocks * RS_DATA_PER_BLOCK;
    let payload_end = LENGTH_HEADER_BYTES + payload.len();
    let mut data: Vec<u8> = vec![0u8; data_byte_count];
    let len32 = payload.len() as u32;
    data.set(0, (len32 >> 24) as u8);
    data.set(1, (len32 >> 16) as u8);
    data.set(2, (len32 >> 8) as u8);
    data.set(3, len32 as u8);
    let mut i: usize = 0;
    while i < payload.len()
        invariant
            data@.len() == data_byte_count,
            payload_end == 4 + payload@.len(),
            payload_end <= data_byte_count,
            i <= payload@.len(),
            data@.subrange(0, 4) == be32_bytes(payload@.len() as u32),
            forall|j: int| 0 <= j < i ==> #[trigger] data@[4 + j] == payload@[j],
            forall|j: int| payload_end <= j < data_byte_count ==> #[trigger] data@[j] == 0,
        decreases payload.len() - i,
    {
        let ghost prev = data@;
        data.set(LENGTH_HEADER_BYTES + i, payload[i]);
        i += 1;
        assert(data@.subrange(0, 4) =~= prev.subrange(0, 4));
    }
    let ghost before_fill = data@;
    assert(data@ =~= spec_data_area(payload@, n_blocks as int)) by {
        let hdr = be32_bytes(payload@.len() as u32);
        assert forall|j: int| 0 <= j < payload_end implies #[trigger] before_fill[j] == (hdr
            + payload@)[j] by {
            if j < 4 {
                assert(before_fill.subrange(0, 4)[j] == hdr[j]);
            } else {
                assert(before_fill[4 + (j - 4)] == payload@[j - 4]);
            }
        }
        assert(before_fill.subrange(0, payload_end as int) =~= hdr + payload@);
        assert(before_fill.subrange(payload_end as int, data_byte_count as int) =~= zeros(
            data_byte_count - payload_end,
        ));
        assert(before_fill =~= before_fill.subrange(0, payload_end as int) + before_fill.subrange(
            payload_end as int,
            data_byte_count as int,
        ));
    }

    let mut encoded = encode_blocks(data.as_slice());
    let encoded_len = encoded.len();
    let data_bytes = spec.data_bytes();
    let ghost before_pad = encoded@;
    encoded.resize(data_bytes, 0);
    proof {
        assert forall|j: int| encoded_len <= j < data_bytes implies #[trigger] encoded@[j] == 0u8 by {
            assert(cloned::<u8>(0u8, encoded@[j]));
        }
        assert(encoded@.subrange(0, encoded_len as int) == before_pad);
        assert(encoded@ =~= before_pad + zeros(data_bytes - encoded_len));
    }
    assert(encoded@ =~= spec_code_stream(payload@, spec));

    let data_cells = pack_bytes_to_cells(encoded.as_slice(), spec.data_cells());
    let cells = place_cells_with_calibration(spec, data_cells.as_slice());
    proof {
        lemma_encoded_cells_small(payload@, spec);
        lemma_encode_decode(payload@, spec, data@);
    }
    Ok(Frame::new(spec, cells))
}

/// Every cell of an encoded frame is a palette index.
proof fn lemma_encoded_cells_small(payload: Seq<u8>, spec: FrameSpec)
    requires
        encodable(spec),
    ensures
        forall|i: int|
            0 <= i < spec.spec_total_cells() ==> #[trigger] spec_encode_cells(payload, spec)[i] < 8,
{
    assert forall|i: int| 0 <= i < spec.spec_total_cells() implies #[trigger] spec_encode_cells(
        payload,
        spec,
    )[i] < 8 by {
        let stream = spec_code_stream(payload, spec);
        let dc = spec.spec_data_cells();
        let packed = spec_pack(stream, dc as nat);
        let j = spec.spec_data_count(i);
        crate::bitstream::lemma_packed_cell_small(stream, j);
        lemma_data_count_monotone(spec, i + 1, spec.spec_total_cells());
        let row = i / (spec.grid_width as int);
        let col = i % (spec.grid_width as int);
        assert(spec.grid_width > 0) by {
            if spec.grid_width == 0 {
                assert(spec.spec_total_cells() == 0);
            }
        }
        crate::frame::lemma_role_color_small(spec, row, col);
        assert(spec_encode_cells(payload, spec)[i] == spec_place_at(spec, packed, i));
        match spec.spec_role_at(i) {
            CellRole::Data => {
                crate::frame::lemma_data_count_nonneg(spec, i);
                assert(spec.spec_data_count(i + 1) == j + 1);
                assert(0 <= j < dc);
                assert(packed[j] == crate::bitstream::packed_cell(stream, j));
            },
            _ => {},
        }
    }
}

/// The frame `encode_payload` builds decodes back to the payload.
proof fn lemma_encode_decode(payload: Seq<u8>, spec: FrameSpec, data: Seq<u8>)
    requires
        encodable(spec),
        payload.len() <= spec.spec_max_payload_bytes(),
        data == spec_data_area(payload, spec.spec_rs_blocks()),
        crate::ecc::spec_decode_blocks(spec_encode_blocks(data)) == Ok::<Seq<u8>, crate::ecc::EccError>(data),
        spec_encode_blocks(data).len() == spec.spec_rs_blocks() * 255,
    ensures
        payload.len() <= u32::MAX ==> spec_decode(spec, spec_encode_cells(payload, spec)) == Ok::<
            Seq<u8>,
            crate::decoder::DecodeError,
        >(payload),
{
    if payload.len() <= u32::MAX {
        let n = spec.spec_rs_blocks();
        let stream = spec_code_stream(payload, spec);
        let dc = spec.spec_data_cells();
        let packed = spec_pack(stream, dc as nat);
        lemma_extract_place(spec, packed);
        assert(stream.len() == spec.spec_data_bytes());
        assert(8 * stream.len() <= 3 * dc);
        lemma_unpack_pack(stream, dc as nat);
        assert(spec_frame_bytes(spec, spec_encode_cells(payload, spec)) == stream);
        assert(stream.subrange(0, n * 255) =~= spec_encode_blocks(data));
        let len32 = payload.len() as u32;
        assert(be32_value(data.subrange(0, 4)) == payload.len()) by {
            assert(data.subrange(0, 4) =~= be32_bytes(len32));
            assert(((len32 >> 24u32) as u8) * 0x100_0000 + ((len32 >> 16u32) as u8) * 0x1_0000
                + ((len32 >> 8u32) as u8) * 0x100 + (len32 as u8) == len32) by (bit_vector);
        }
        assert(data.subrange(4, 4 + payload.len() as int) =~= payload);
    }
}

} // verus!
