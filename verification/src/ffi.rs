//! The logic behind the C ABI: encoding into and decoding from caller
//! buffers of a given capacity, with negative error codes. Reading and
//! writing the caller's raw buffers is left to the C shim.

use vstd::prelude::*;
use crate::decoder::{decode_payload, decodable, spec_decode, DecodeError};
use crate::encoder::{encode_payload, encodable, spec_encode_cells, EncodeError};
use crate::frame::{Frame, FrameSpec};
use crate::palette::{palette, spec_palette_entry, PALETTE_SIZE};

verus! {

/// Errors reported to C callers.
#[derive(Debug, Clone, Copy, PartialEq, Eq, Structural)]
pub enum FfiError {
    /// Input and geometry sizes disagree (cells.len() != total_cells).
    SizeMismatch,
    /// The payload exceeds the capacity.
    PayloadTooLarge,
    /// Reed-Solomon decoding failed (too many errors).
    DecodeFailure,
    /// The length header is invalid.
    InvalidLength,
    /// The output buffer is too small.
    OutputTooSmall,
}

/// The code of each error, as C sees it.
pub open spec fn spec_ffi_code(e: FfiError) -> i32 {
    match e {
        FfiError::SizeMismatch => -1i32,
        FfiError::PayloadTooLarge => -2i32,
        FfiError::DecodeFailure => -3i32,
        FfiError::InvalidLength => -4i32,
        FfiError::OutputTooSmall => -5i32,
    }
}

impl FfiError {
    /// The negative code C callers receive.
    pub fn code(&self) -> (c: i32)
        ensures
            c == spec_ffi_code(*self),
    {
        match self {
            FfiError::SizeMismatch => -1i32,
            FfiError::PayloadTooLarge => -2,
            FfiError::DecodeFailure => -3,
            FfiError::InvalidLength => -4,
            FfiError::OutputTooSmall => -5,
        }
    }
}

/// Encodes `payload` into the cells of a frame of geometry `spec`, for an
/// output buffer of `out_capacity` cells: too small a buffer comes first,
/// then too large a payload.
pub fn encode_cells(payload: &[u8], spec: FrameSpec, out_capacity: usize) -> (res: Result<Vec<u8>, FfiError>)
    requires
        encodable(spec),
    ensures
        out_capacity < spec.spec_total_cells() ==> res == Err::<Vec<u8>, FfiError>(FfiError::OutputTooSmall),
        out_capacity >= spec.spec_total_cells() && payload@.len() > spec.spec_max_payload_bytes()
            ==> res == Err::<Vec<u8>, FfiError>(FfiError::PayloadTooLarge),
        out_capacity >= spec.spec_total_cells() && payload@.len() <= spec.spec_max_payload_bytes()
            ==> (res matches Ok(cells) && cells@ == spec_encode_cells(payload@, spec)),
{
    let total_cells = spec.total_cells();
    if out_capacity < total_cells {
        return Err(FfiError::OutputTooSmall);
    }
    match encode_payload(payload, spec) {
        Ok(frame) => Ok(frame.cells),
        Err(EncodeError::PayloadTooLarge { .. }) => Err(FfiError::PayloadTooLarge),
    }
}

/// The C error a decoding error is reported as.
pub open spec fn spec_decode_ffi_error(e: DecodeError) -> FfiError {
    match e {
        DecodeError::Ecc(_) => FfiError::DecodeFailure,
        DecodeError::TruncatedHeader => FfiError::InvalidLength,
        DecodeError::InvalidLength { .. } => FfiError::InvalidLength,
    }
}

/// Decodes the payload of the cells of a frame of geometry `spec`, for an
/// output buffer of `out_capacity` bytes.
pub fn decode_cells(cells: &[u8], spec: FrameSpec, out_capacity: usize) -> (res: Result<Vec<u8>, FfiError>)
    requires
        decodable(spec),
    ensures
        cells@.len() != spec.spec_total_cells() ==> res == Err::<Vec<u8>, FfiError>(FfiError::SizeMismatch),
        cells@.len() == spec.spec_total_cells() ==> match spec_decode(spec, cells@) {
            Err(e) => res == Err::<Vec<u8>, FfiError>(spec_decode_ffi_error(e)),
            Ok(p) => if out_capacity < p.len() {
                res == Err::<Vec<u8>, FfiError>(FfiError::OutputTooSmall)
            } else {
                res matches Ok(v) && v@ == p
            },
        },
{
    if cells.len() != spec.total_cells() {
        return Err(FfiError::SizeMismatch);
    }
    let frame = Frame::new(spec, vstd::slice::slice_to_vec(cells));
    let payload = match decode_payload(&frame) {
        Ok(p) => p,
        Err(DecodeError::Ecc(_)) => return Err(FfiError::DecodeFailure),
        Err(DecodeError::TruncatedHeader) => return Err(FfiError::InvalidLength),
        Err(DecodeError::InvalidLength { .. }) => return Err(FfiError::InvalidLength),
    };
    if out_capacity < payload.len() {
        return Err(FfiError::OutputTooSmall);
    }
    Ok(payload)
}

/// The palette as 24 bytes `r0, g0, b0, ..., r7, g7, b7`, for an output
/// buffer of `out_capacity` bytes.
pub fn palette_rgb_bytes(out_capacity: usize) -> (res: Result<Vec<u8>, FfiError>)
    ensures
        out_capacity < 24 ==> res == Err::<Vec<u8>, FfiError>(FfiError::OutputTooSmall),
        out_capacity >= 24 ==> (res matches Ok(out) && out@.len() == 24 && forall|i: int|
            0 <= i < 8 ==> {
                &&& #[trigger] out@[3 * i] == spec_palette_entry(i).r
                &&& out@[3 * i + 1] == spec_palette_entry(i).g
                &&& out@[3 * i + 2] == spec_palette_entry(i).b
            }),
{
    if out_capacity < 24 {
        return Err(FfiError::OutputTooSmall);
    }
    let p = palette();
    let mut out: Vec<u8> = Vec::new();
    let mut i: usize = 0;
    while i < PALETTE_SIZE
        invariant
            i <= 8,
            out@.len() == 3 * i,
            forall|k: int| 0 <= k < 8 ==> #[trigger] p@[k] == spec_palette_entry(k),
            forall|k: int|
                0 <= k < i ==> {
                    &&& #[trigger] out@[3 * k] == spec_palette_entry(k).r
                    &&& out@[3 * k + 1] == spec_palette_entry(k).g
                    &&& out@[3 * k + 2] == spec_palette_entry(k).b
                },
        decreases 8 - i,
    {
        let rgb = p[i];
        let ghost prev = out@;
        out.push(rgb.r);
        out.push(rgb.g);
        out.push(rgb.b);
        proof {
            assert(rgb == spec_palette_entry(i as int));
            assert forall|k: int| 0 <= k < i + 1 implies {
                &&& #[trigger] out@[3 * k] == spec_palette_entry(k).r
                &&& out@[3 * k + 1] == spec_palette_entry(k).g
                &&& out@[3 * k + 2] == spec_palette_entry(k).b
            } by {
                if k < i {
                    assert(out@[3 * k] == prev[3 * k]);
                    assert(out@[3 * k + 1] == prev[3 * k + 1]);
                    assert(out@[3 * k + 2] == prev[3 * k + 2]);
                }
            }
        }
        i += 1;
    }
    Ok(out)
}

} // verus!
