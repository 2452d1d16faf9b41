//! QR codes as module matrices (drawing is left to the caller), with the
//! version and error-correction level under the caller's control. The
//! symbol itself is built by the `qrcode` crate.

use vstd::prelude::*;
use vstd::utf8::encode_utf8;
use qrcode::{EcLevel, QrCode, Version};
use qrcode::types::Color;

verus! {

/// A QR module matrix: `size * size` modules, row-major, 1 = dark, 0 = light.
pub struct QrMatrix {
    pub size: u32,
    pub modules: Vec<u8>,
}

/// A QR error-correction level.
#[derive(Clone, Copy, Debug, PartialEq, Eq, Structural)]
pub enum EcChoice {
    L,
    M,
    Q,
    H,
}

/// The level a name selects, given as its UTF-8 bytes: "L", "Q" and "H"
/// select those levels, anything else selects M.
pub open spec fn spec_ec_level(ec: Seq<u8>) -> EcChoice {
    if ec == seq![76u8] {
        EcChoice::L
    } else if ec == seq![81u8] {
        EcChoice::Q
    } else if ec == seq![72u8] {
        EcChoice::H
    } else {
        EcChoice::M
    }
}

/// The error-correction level named by `ec` (M unless it is "L", "Q" or
/// "H").
pub fn ec_level(ec: &str) -> (level: EcChoice)
    ensures
        level == spec_ec_level(encode_utf8(ec@)),
{
    let b = ec.as_bytes();
    if b.len() == 1 {
        if b[0] == 76 {
            assert(b@ =~= seq![76u8]);
            return EcChoice::L;
        } else if b[0] == 81 {
            assert(b@ =~= seq![81u8]);
            return EcChoice::Q;
        } else if b[0] == 72 {
            assert(b@ =~= seq![72u8]);
            return EcChoice::H;
        }
    }
    EcChoice::M
}

/// What `QrCode::with_error_correction_level` makes of `data` at `level`
/// (the smallest version that holds it): the symbol's width and, row-major,
/// which modules are dark; or the message of its error.
pub uninterp spec fn qr_auto_result(data: Seq<u8>, level: EcChoice) -> Result<(int, Seq<bool>), Seq<char>>;

/// What `QrCode::with_version` makes of `data` at normal version `version`
/// and `level`: the symbol's width and its dark modules, or the message of
/// its error.
pub uninterp spec fn qr_version_result(data: Seq<u8>, version: u8, level: EcChoice) -> Result<(int, Seq<bool>), Seq<char>>;

/// A symbol (width and dark modules) or an error message, by their views.
pub open spec fn qr_view(r: Result<(usize, Vec<bool>), String>) -> Result<(int, Seq<bool>), Seq<char>> {
    match r {
        Ok((w, dark)) => Ok((w as int, dark@)),
        Err(e) => Err(e@),
    }
}

/// Calls `QrCode::with_error_correction_level` and hands back the width and
/// the dark modules of the symbol, or the `Display` text of its error. The
/// contract names the outcome `qr_auto_result`; as the crate's source shows,
/// a symbol it builds is of a normal version (width 21 to 177) and has
/// width * width modules. What the symbol holds is not stated.
#[verifier::external_body]
fn qr_with_level(data: &[u8], level: EcChoice) -> (res: Result<(usize, Vec<bool>), String>)
    ensures
        qr_view(res) == qr_auto_result(data@, level),
        res matches Ok((w, dark)) ==> 21 <= w <= 177 && dark@.len() == w * w,
{
    let l = match level {
        EcChoice::L => EcLevel::L,
        EcChoice::M => EcLevel::M,
        EcChoice::Q => EcLevel::Q,
        EcChoice::H => EcLevel::H,
    };
    match QrCode::with_error_correction_level(data, l) {
        Ok(code) => Ok((code.width(), code.into_colors().into_iter().map(|c| c == Color::Dark).collect())),
        Err(e) => Err(e.to_string()),
    }
}

/// Calls `QrCode::with_version` with `Version::Normal(version)` and hands
/// back the width and the dark modules of the symbol, or the `Display` text
/// of its error. The contract names the outcome `qr_version_result`; as the
/// crate's source shows, a symbol it builds has a normal version from 1 to
/// 40 (width 21 to 177) and width * width modules.
#[verifier::external_body]
fn qr_with_version(data: &[u8], version: u8, level: EcChoice) -> (res: Result<(usize, Vec<bool>), String>)
    ensures
        qr_view(res) == qr_version_result(data@, version, level),
        res matches Ok((w, dark)) ==> 21 <= w <= 177 && dark@.len() == w * w,
{
    let l = match level {
        EcChoice::L => EcLevel::L,
        EcChoice::M => EcLevel::M,
        EcChoice::Q => EcLevel::Q,
        EcChoice::H => EcLevel::H,
    };
    match QrCode::with_version(data, Version::Normal(version as i16), l) {
        Ok(code) => Ok((code.width(), code.into_colors().into_iter().map(|c| c == Color::Dark).collect())),
        Err(e) => Err(e.to_string()),
    }
}

/// Dark modules as bytes: 1 for dark, 0 for light.
pub open spec fn module_bytes(dark: Seq<bool>) -> Seq<u8> {
    Seq::new(dark.len(), |i: int| if dark[i] { 1u8 } else { 0u8 })
}

/// The matrix of a symbol of width `width` whose dark modules are `dark`.
pub fn qr_matrix(width: usize, dark: &Vec<bool>) -> (m: QrMatrix)
    requires
        width <= u32::MAX,
    ensures
        m.size == width,
        m.modules@ == module_bytes(dark@),
{
    let mut modules: Vec<u8> = Vec::new();
    let mut i: usize = 0;
    while i < dark.len()
        invariant
            i <= dark@.len(),
            modules@ =~= module_bytes(dark@).subrange(0, i as int),
        decreases dark.len() - i,
    {
        modules.push(if dark[i] { 1u8 } else { 0u8 });
        i += 1;
    }
    assert(modules@ =~= module_bytes(dark@));
    QrMatrix { size: width as u32, modules }
}

/// The matrix, or the message, a QR outcome gives.
pub open spec fn qr_matrix_matches(res: Result<QrMatrix, String>, outcome: Result<(int, Seq<bool>), Seq<char>>) -> bool {
    match (res, outcome) {
        (Ok(m), Ok((w, dark))) => m.size == w && m.modules@ == module_bytes(dark) && m.modules@.len()
            == w * w,
        (Err(e), Err(msg)) => e@ == msg,
        _ => false,
    }
}

/// Encodes `data` as a QR code at the level `ec` names. With `min_version`
/// 0 the smallest version that holds the data is used; 1 to 40 fixes the
/// version. On failure the error is the message of the QR encoder.
pub fn make_qr(data: Vec<u8>, ec: String, min_version: u8) -> (res: Result<QrMatrix, String>)
    ensures
        qr_matrix_matches(
            res,
            if min_version == 0 {
                qr_auto_result(data@, spec_ec_level(encode_utf8(ec@)))
            } else {
                qr_version_result(data@, min_version, spec_ec_level(encode_utf8(ec@)))
            },
        ),
{
    let level = ec_level(ec.as_str());
    let code = if min_version == 0 {
        qr_with_level(data.as_slice(), level)
    } else {
        qr_with_version(data.as_slice(), min_version, level)
    };
    match code {
        Ok((width, dark)) => Ok(qr_matrix(width, &dark)),
        Err(e) => Err(e),
    }
}

} // verus!
