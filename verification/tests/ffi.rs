use beyond_qr::ffi::{decode_cells, encode_cells, palette_rgb_bytes, FfiError};
use beyond_qr::frame::FrameSpec;

#[test]
fn ffi_roundtrip_500_byte() {
    let payload: Vec<u8> = (0..500).map(|i| (i as u8).wrapping_mul(31)).collect();
    let spec = FrameSpec::phase_0();
    let total_cells = spec.total_cells();
    let cells = encode_cells(&payload, spec, total_cells).unwrap();
    assert_eq!(cells.len(), total_cells);
    let out = decode_cells(&cells, spec, 1024).unwrap();
    assert_eq!(out.len(), payload.len());
    assert_eq!(&out[..], &payload[..]);
}

#[test]
fn ffi_palette() {
    let out = palette_rgb_bytes(24).unwrap();
    assert_eq!(out.len(), 24);
    assert_eq!(&out[0..3], &[0, 0, 0]);
    assert_eq!(&out[21..24], &[255, 255, 255]);
}

#[test]
fn ffi_error_codes() {
    assert_eq!(FfiError::SizeMismatch.code(), -1);
    assert_eq!(FfiError::PayloadTooLarge.code(), -2);
    assert_eq!(FfiError::DecodeFailure.code(), -3);
    assert_eq!(FfiError::InvalidLength.code(), -4);
    assert_eq!(FfiError::OutputTooSmall.code(), -5);
}

#[test]
fn ffi_buffer_checks() {
    let spec = FrameSpec::phase_0();
    let total = spec.total_cells();
    assert_eq!(encode_cells(&[1, 2, 3], spec, total - 1), Err(FfiError::OutputTooSmall));
    let too_big = vec![0u8; spec.max_payload_bytes() + 1];
    assert_eq!(encode_cells(&too_big, spec, total), Err(FfiError::PayloadTooLarge));
    let cells = encode_cells(&[9u8; 40], spec, total).unwrap();
    assert_eq!(decode_cells(&cells[1..], spec, 100), Err(FfiError::SizeMismatch));
    assert_eq!(decode_cells(&cells, spec, 39), Err(FfiError::OutputTooSmall));
    assert_eq!(decode_cells(&cells, spec, 40), Ok(vec![9u8; 40]));
    assert_eq!(palette_rgb_bytes(23), Err(FfiError::OutputTooSmall));
}

#[test]
fn ffi_reports_rs_failure() {
    let spec = FrameSpec::phase_0();
    let cells: Vec<u8> = (0..spec.total_cells()).map(|i| ((i * 5 + i / 7) % 8) as u8).collect();
    assert_eq!(decode_cells(&cells, spec, 10_000), Err(FfiError::DecodeFailure));
}
