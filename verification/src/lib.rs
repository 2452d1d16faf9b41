//! Optical data transfer from a screen to a camera.
//!
//! - `palette`, `frame`, `bitstream`, `ecc`, `encoder`, `decoder`: the
//!   8-colour cell frame: payload -> Reed-Solomon blocks -> 3-bit cells ->
//!   frame with finder patterns and a calibration row, and back.
//! - `ffi`: the buffer and error-code logic behind the C ABI.
//! - `vcode`: the video-native black/white frame format of independent
//!   CRC-checked blocks, with partial recovery of damaged frames.
//! - `scan`, `link`: the integer side of scanning camera images and of the
//!   sender and receiver ends of a vcode link.
//! - `qr`: QR module matrices through the `qrcode` crate.

pub mod bitstream;
pub mod decoder;
pub mod ecc;
pub mod encoder;
pub mod ffi;
pub mod frame;
pub mod link;
pub mod palette;
pub mod qr;
pub mod scan;
pub mod vcode;
