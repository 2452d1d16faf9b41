//! Decodes the payload of a frame.
//!
//! 1. Collect the data cells in row-major order, skipping finder and
//!    calibration cells.
//! 2. Unpack the cells at 3 bits per cell into bytes.
//! 3. Reed-Solomon decode the first `rs_blocks * 255` bytes.
//! 4. Read the length from the 4-byte header and cut out the payload.

use vstd::prelude::*;
use vstd::arithmetic::power2::{pow2, lemma2_to64};
use crate::bitstream::{cell_bit, bits_value, unpacked_byte, unpacked_len, spec_unpack, lemma_bit_le_1, lemma_bits_value_bound, lemma_bits_value_split, lemma_cell_bits, lemma_shift_split};
use crate::palette::{Color, BITS_PER_CELL};
use crate::frame::{CellRole, Frame, FrameSpec, spec_extract, lemma_row_major, LENGTH_HEADER_BYTES};
use crate::ecc::{correctable, decode_blocks, spec_decode_blocks, EccError, RS_BLOCK_SIZE};

verus! {

/// Concatenates the cells MSB first, 3 bits each, and cuts the stream into
/// bytes: the whole bytes the cells hold, at most `target_bytes`.
pub fn unpack_cells_to_bytes(cells: &[Color], target_bytes: usize) -> (bytes: Vec<u8>)
    ensures
        bytes@ == spec_unpack(cells@, target_bytes as nat),
{
    let mut bytes: Vec<u8> = Vec::with_capacity(target_bytes);
    let mut buffer: u32 = 0;
    let mut bits: u32 = 0;
    let ghost f = |k: int| cell_bit(cells@, k);
    proof {
        assert forall|k: int| #[trigger] f(k) <= 1 by {
            lemma_bit_le_1(Seq::empty(), cells@, k);
        }
        lemma2_to64();
    }
    let mut i: usize = 0;
    while i < cells.len()
        invariant_except_break
            bits < 8,
        invariant
            f == (|k: int| cell_bit(cells@, k)),
            forall|k: int| #[trigger] f(k) <= 1,
            i <= cells.len(),
            bytes.len() <= target_bytes,
            bits <= 10,
            3 * i == 8 * bytes.len() + bits,
            forall|j: int| 0 <= j < bytes.len() ==> #[trigger] bytes@[j] == unpacked_byte(cells@, j),
            buffer == bits_value(f, 8 * bytes.len(), bits as nat),
        ensures
            i == cells.len() || bytes.len() == target_bytes,
            bits < 8 || bytes.len() == target_bytes,
        decreases cells.len() - i,
    {
        let c = cells[i];
        proof {
            lemma2_to64();
            lemma_bits_value_bound(f, 8 * bytes.len(), bits as nat);
            lemma_bits_value_split(f, 8 * bytes.len(), bits as nat, 3);
            lemma_cell_bits(cells@, i as int);
            if bits < 7 {
                vstd::arithmetic::power2::lemma_pow2_strictly_increases(bits as nat, 7);
            }
            assert(buffer < 128);
            assert(buffer < 128 ==> (buffer << 3u32) | ((c as u32) & 7) == buffer * 8 + (c & 7))
                by (bit_vector);
        }
        let ghost old_bits = bits;
        buffer = (buffer << BITS_PER_CELL) | (c as u32 & 0b111);
        bits += BITS_PER_CELL;
        i += 1;
        assert((old_bits as nat + 3) as nat == bits as nat);
        assert(8 * bytes.len() + old_bits == 3 * (i - 1));
        assert(buffer == bits_value(f, 8 * bytes.len(), bits as nat));
        while bits >= 8 && bytes.len() < target_bytes
            invariant
                f == (|k: int| cell_bit(cells@, k)),
                forall|k: int| #[trigger] f(k) <= 1,
                i <= cells.len(),
                bytes.len() <= target_bytes,
                bits <= 10,
                3 * i == 8 * bytes.len() + bits,
                forall|j: int| 0 <= j < bytes.len() ==> #[trigger] bytes@[j] == unpacked_byte(
                    cells@,
                    j,
                ),
                buffer == bits_value(f, 8 * bytes.len(), bits as nat),
            decreases bits,
        {
            let shift = bits - 8;
            let ghost pos = 8 * bytes.len();
            proof {
                lemma2_to64();
                lemma_bits_value_split(f, pos, 8, shift as nat);
                lemma_bits_value_bound(f, pos + 8, shift as nat);
                lemma_bits_value_bound(f, pos, 8);
                lemma_shift_split(
                    buffer,
                    shift,
                    bits_value(f, pos, 8),
                    bits_value(f, pos + 8, shift as nat),
                );
            }
            let top = buffer >> shift;
            proof {
                assert(top < 256 ==> top & 0xFF == top) by (bit_vector);
            }
            let byte = (top & 0xFF) as u8;
            assert(byte == unpacked_byte(cells@, bytes.len() as int));
            buffer &= (1u32 << shift) - 1;
            bits -= 8;
            bytes.push(byte);
            assert(8 * bytes.len() == pos + 8);
        }
        if bytes.len() == target_bytes {
            break;
        }
    }
    proof {
        assert(bytes.len() == unpacked_len(cells@, target_bytes as nat)) by {
            if bytes.len() < target_bytes {
                assert(i == cells.len());
            }
        }
    }
    assert(bytes@ =~= spec_unpack(cells@, target_bytes as nat));
    bytes
}

/// Collects the data cells of a frame in row-major order, skipping finder
/// and calibration cells.
pub fn extract_data_cells(spec: FrameSpec, cells: &[Color]) -> (data: Vec<Color>)
    requires
        spec.spec_total_cells() <= usize::MAX,
        spec.roles_fit(),
        cells@.len() >= spec.spec_total_cells(),
    ensures
        data@ == spec_extract(spec, cells@, spec.spec_total_cells()),
{
    let w = spec.grid_width;
    let h = spec.grid_height;
    let mut data: Vec<Color> = Vec::new();
    let mut row: usize = 0;
    while row < h
        invariant
            w == spec.grid_width,
            h == spec.grid_height,
            spec.spec_total_cells() <= usize::MAX,
            spec.roles_fit(),
            cells@.len() >= spec.spec_total_cells(),
            row <= h,
            data@ == spec_extract(spec, cells@, row * w),
        decreases h - row,
    {
        proof {
            assert((row + 1) * w <= w * h) by (nonlinear_arith)
                requires
                    row < h,
            ;
            assert((row + 1) * w == row * w + w) by (nonlinear_arith);
        }
        let mut col: usize = 0;
        while col < w
            invariant
                w == spec.grid_width,
                h == spec.grid_height,
                spec.spec_total_cells() <= usize::MAX,
                spec.roles_fit(),
                cells@.len() >= spec.spec_total_cells(),
                row < h,
                (row + 1) * w <= spec.spec_total_cells(),
                (row + 1) * w == row * w + w,
                col <= w,
                data@ == spec_extract(spec, cells@, row * w + col),
            decreases w - col,
        {
            let idx = row * w + col;
            proof {
                lemma_row_major(spec, row as int, col as int);
            }
            if matches!(spec.cell_role(row, col), CellRole::Data) {
                data.push(cells[idx]);
            }
            col += 1;
        }
        row += 1;
    }
    proof {
        assert(h * w == w * h) by (nonlinear_arith);
    }
    data
}

#[derive(Debug, PartialEq, Eq, Structural)]
pub enum DecodeError {
    /// Reed-Solomon decoding failed.
    Ecc(EccError),
    /// The RS data is too short to hold the length header.
    TruncatedHeader,
    /// The declared payload length exceeds the RS data after the header.
    InvalidLength { declared: usize, available: usize },
}

/// The number a 4-byte big-endian header holds.
pub open spec fn be32_value(h: Seq<u8>) -> int {
    h[0] * 0x100_0000 + h[1] * 0x1_0000 + h[2] * 0x100 + h[3]
}

/// Reads the payload out of the RS data: a 4-byte big-endian length, then
/// that many payload bytes.
pub open spec fn spec_parse_header(data: Seq<u8>) -> Result<Seq<u8>, DecodeError> {
    if data.len() < 4 {
        Err(DecodeError::TruncatedHeader)
    } else {
        let len = be32_value(data.subrange(0, 4));
        let available = data.len() - 4;
        if len > available {
            Err(DecodeError::InvalidLength { declared: len as usize, available: available as usize })
        } else {
            Ok(data.subrange(4, 4 + len))
        }
    }
}

/// The bytes a frame's data cells carry: the data cells in row-major order,
/// unpacked at 3 bits per cell into at most `data_bytes` bytes.
pub open spec fn spec_frame_bytes(spec: FrameSpec, cells: Seq<Color>) -> Seq<u8> {
    spec_unpack(spec_extract(spec, cells, spec.spec_total_cells()), spec.spec_data_bytes() as nat)
}

/// What decoding a frame with geometry `spec` and cells `cells` gives.
pub open spec fn spec_decode(spec: FrameSpec, cells: Seq<Color>) -> Result<Seq<u8>, DecodeError> {
    let codewords = spec_frame_bytes(spec, cells).subrange(0, spec.spec_rs_blocks() * 255);
    match spec_decode_blocks(codewords) {
        Err(e) => Err(DecodeError::Ecc(e)),
        Ok(data) => spec_parse_header(data),
    }
}

/// `decode_payload` reads past no array end on this geometry: the frame's
/// data cells hold all the RS codewords.
pub open spec fn decodable(spec: FrameSpec) -> bool {
    &&& spec.counts_fit()
    &&& spec.roles_fit()
    &&& spec.spec_data_cell_total() * 3 / 8 >= spec.spec_rs_blocks() * 255
}

/// Whether `decode_payload` accepts geometry `spec` (see `decodable`).
pub fn is_decodable(spec: FrameSpec) -> (ok: bool)
    ensures
        ok == decodable(spec),
{
    if !spec.sizes_fit() {
        return false;
    }
    let n = spec.data_cell_count() as u128;
    let blocks = spec.rs_blocks() as u128;
    n * 3 / 8 >= blocks * 255
}

/// Decodes the payload of a frame. Up to 32 corrupted bytes in each RS
/// block of the frame's codeword bytes are corrected.
pub fn decode_payload(frame: &Frame) -> (res: Result<Vec<u8>, DecodeError>)
    requires
        decodable(frame.spec),
        frame.cells@.len() >= frame.spec.spec_total_cells(),
    ensures
        match (res, spec_decode(frame.spec, frame.cells@)) {
            (Ok(v), Ok(p)) => v@ == p,
            (Err(e), Err(f)) => e == f,
            _ => false,
        },
        forall|data: Seq<u8>|
            #[trigger] correctable(
                spec_frame_bytes(frame.spec, frame.cells@).subrange(0, frame.spec.spec_rs_blocks() * 255),
                data,
            ) ==> match spec_parse_header(data) {
                Ok(p) => res matches Ok(v) && v@ == p,
                Err(e) => res == Err::<Vec<u8>, DecodeError>(e),
            },
{
    let spec = frame.spec;
    let data_cells = extract_data_cells(spec, frame.cells.as_slice());
    proof {
        crate::frame::lemma_extract_len(spec, frame.cells@, spec.spec_total_cells());
    }
    let bytes = unpack_cells_to_bytes(data_cells.as_slice(), spec.data_bytes());
    let codeword_bytes = spec.rs_blocks() * RS_BLOCK_SIZE;
    let codewords = &bytes.as_slice()[0..codeword_bytes];
    let data = match decode_blocks(codewords) {
        Ok(d) => d,
        Err(e) => {
            return Err(DecodeError::Ecc(e));
        },
    };
    if data.len() < LENGTH_HEADER_BYTES {
        return Err(DecodeError::TruncatedHeader);
    }
    let h0 = data[0];
    let h1 = data[1];
    let h2 = data[2];
    let h3 = data[3];
    let len32: u32 = ((h0 as u32) << 24) | ((h1 as u32) << 16) | ((h2 as u32) << 8) | (h3 as u32);
    assert(((h0 as u32) << 24u32) | ((h1 as u32) << 16u32) | ((h2 as u32) << 8u32) | (h3 as u32)
        == h0 * 0x100_0000 + h1 * 0x1_0000 + h2 * 0x100 + h3) by (bit_vector);
    assert(data@.subrange(0, 4)[0] == h0 && data@.subrange(0, 4)[1] == h1 && data@.subrange(0, 4)[2]
        == h2 && data@.subrange(0, 4)[3] == h3);
    let len = len32 as usize;
    let available = data.len() - LENGTH_HEADER_BYTES;
    if len > available {
        return Err(DecodeError::InvalidLength { declared: len, available });
    }
    let mut payload: Vec<u8> = Vec::new();
    payload.extend_from_slice(&data.as_slice()[LENGTH_HEADER_BYTES..LENGTH_HEADER_BYTES + len]);
    assert(payload@ =~= data@.subrange(4, 4 + len));
    Ok(payload)
}

} // verus!
