//! The 2D layout engines this library hands finished payloads to: the
//! `datamatrix` crate (Data Matrix ECC200) and the `qrcode` crate (QR Code).
//! Their symbol construction is taken as given; what comes back is
//! turned into plain values.

use vstd::prelude::*;

use datamatrix::SymbolSize;
use qrcode::bits::Bits;
use qrcode::{Color, EcLevel, QrCode, Version};

use self::QrStep::{Fnc1FirstPosition, OptimalData, Terminator, WithBits};

verus! {

/// A Data Matrix symbol size, by its place among the standard sizes:
/// 24 squares (10x10 to 144x144) then 6 rectangles (8x18 to 16x48).
#[derive(Debug, Clone, Copy, PartialEq, Eq, Structural)]
pub struct DmSize {
    pub index: u8,
}

/// Which Data Matrix sizes the layout may choose from.
#[derive(Debug, Clone, Copy, PartialEq, Eq, Structural)]
pub enum DmShape {
    /// Exactly this size.
    Only(DmSize),
    /// The smallest standard square that fits.
    Square,
    /// The smallest standard rectangle that fits.
    Rectangular,
}

/// A Data Matrix bitmap: its size and its dark modules `(x, y)`.
pub struct DmBitmap {
    pub width: usize,
    pub height: usize,
    pub dark: Vec<(usize, usize)>,
}

/// The model of a Data Matrix bitmap.
pub open spec fn dm_view(b: DmBitmap) -> (usize, usize, Seq<(usize, usize)>) {
    (b.width, b.height, b.dark@)
}

/// A layout result: the bitmap, or the engine's error in words.
pub open spec fn dm_result_view(r: Result<DmBitmap, String>) -> Result<
    (usize, usize, Seq<(usize, usize)>),
    Seq<char>,
> {
    match r {
        Ok(b) => Ok(dm_view(b)),
        Err(e) => Err(e@),
    }
}

/// Every dark module lies inside a bitmap of positive width.
pub open spec fn dm_bitmap_ok(m: (usize, usize, Seq<(usize, usize)>)) -> bool {
    &&& m.0 > 0
    &&& m.0 * m.1 <= usize::MAX
    &&& forall|k: int| 0 <= k < m.2.len() ==> (#[trigger] m.2[k]).0 < m.0 && m.2[k].1 < m.1
}

/// What `datamatrix::DataMatrix::encode` lays out for `data` with the
/// sizes `shape` allows (its bitmap), or its error.
pub uninterp spec fn dm_plain_symbol(data: Seq<u8>, shape: DmShape) -> Result<
    (usize, usize, Seq<(usize, usize)>),
    Seq<char>,
>;

/// What `datamatrix::DataMatrix::encode_gs1` (FNC1 in first position)
/// lays out for `data` with the sizes `shape` allows, or its error.
pub uninterp spec fn dm_gs1_symbol(data: Seq<u8>, shape: DmShape) -> Result<
    (usize, usize, Seq<(usize, usize)>),
    Seq<char>,
>;

#[verifier::external_type_specification]
#[verifier::external_body]
pub struct ExSymbolList(datamatrix::SymbolList);

/// The `datamatrix::SymbolList` for a shape: a one-size whitelist, or the
/// default list restricted to squares or to rectangles
/// (`SymbolList::with_whitelist`, `enforce_square`, `enforce_rectangular`).
/// Nothing is claimed of the list; it only travels to the encoder.
#[verifier::external_body]
fn dm_symbol_list(shape: DmShape) -> (l: datamatrix::SymbolList)
    requires
        shape matches DmShape::Only(s) ==> s.index < 30,
{
    match shape {
        DmShape::Only(s) => datamatrix::SymbolList::with_whitelist([[SymbolSize::Square10, SymbolSize::Square12, SymbolSize::Square14,
            SymbolSize::Square16, SymbolSize::Square18, SymbolSize::Square20, SymbolSize::Square22, SymbolSize::Square24, SymbolSize::Square26, SymbolSize::Square32,
            SymbolSize::Square36, SymbolSize::Square40, SymbolSize::Square44, SymbolSize::Square48, SymbolSize::Square52, SymbolSize::Square64, SymbolSize::Square72,
            SymbolSize::Square80, SymbolSize::Square88, SymbolSize::Square96, SymbolSize::Square104, SymbolSize::Square120, SymbolSize::Square132, SymbolSize::Square144,
            SymbolSize::Rect8x18, SymbolSize::Rect8x32, SymbolSize::Rect12x26, SymbolSize::Rect12x36, SymbolSize::Rect16x36, SymbolSize::Rect16x48][s.index as usize]]),
        DmShape::Square => datamatrix::SymbolList::default().enforce_square(),
        DmShape::Rectangular => datamatrix::SymbolList::default().enforce_rectangular(),
    }
}

/// `datamatrix::DataMatrix::encode`: the symbol for `data`, returned as
/// its bitmap (width, height, dark modules in row order), or the error's
/// `Debug` text.  Claimed: the result is [`dm_plain_symbol`] of the
/// arguments, and the dark modules lie inside a bitmap of positive width
/// (`Bitmap::pixels` yields `(i % w, i / w)` for the set bits of a
/// `w`-wide bitmap).
#[verifier::external_body]
pub(crate) fn dm_encode(data: &[u8], shape: DmShape) -> (r: Result<DmBitmap, String>)
    requires
        shape matches DmShape::Only(s) ==> s.index < 30,
    ensures
        dm_result_view(r) == dm_plain_symbol(data@, shape),
        r matches Ok(b) ==> dm_bitmap_ok(dm_view(b)),
{
    match datamatrix::DataMatrix::encode(data, dm_symbol_list(shape)) {
        Ok(dm) => {
            let b = dm.bitmap();
            Ok(DmBitmap { width: b.width(), height: b.height(), dark: b.pixels().collect() })
        },
        Err(e) => Err(format!("{e:?}")),
    }
}

/// `datamatrix::DataMatrix::encode_gs1`: as [`dm_encode`] with the FNC1
/// codeword in first position.  Claimed: the result is [`dm_gs1_symbol`]
/// of the arguments, and the dark modules lie inside the bitmap.
#[verifier::external_body]
pub(crate) fn dm_encode_gs1(data: &[u8], shape: DmShape) -> (r: Result<DmBitmap, String>)
    requires
        shape matches DmShape::Only(s) ==> s.index < 30,
    ensures
        dm_result_view(r) == dm_gs1_symbol(data@, shape),
        r matches Ok(b) ==> dm_bitmap_ok(dm_view(b)),
{
    match datamatrix::DataMatrix::encode_gs1(data, dm_symbol_list(shape)) {
        Ok(dm) => {
            let b = dm.bitmap();
            Ok(DmBitmap { width: b.width(), height: b.height(), dark: b.pixels().collect() })
        },
        Err(e) => Err(format!("{e:?}")),
    }
}

/// QR Code error-correction level.
#[derive(Debug, Clone, Copy, PartialEq, Eq, Structural)]
pub enum QrEc {
    L,
    M,
    Q,
    H,
}

/// A QR Code symbol: its width and its modules, row-major, dark `true`.
pub struct QrModules {
    pub width: usize,
    pub dark: Vec<bool>,
}

/// The step of the QR bit-stream construction that failed.
#[derive(Debug, Clone, Copy, PartialEq, Eq, Structural)]
pub enum QrStep {
    /// `Bits::push_fnc1_first_position`.
    Fnc1FirstPosition,
    /// `Bits::push_optimal_data`.
    OptimalData,
    /// `Bits::push_terminator`.
    Terminator,
    /// `QrCode::with_bits`.
    WithBits,
}

/// A QR result: the modules, or the failing step and the `Debug` text of
/// its error.
pub open spec fn qr_result_view(r: Result<QrModules, (QrStep, String)>) -> Result<
    (usize, Seq<bool>),
    (QrStep, Seq<char>),
> {
    match r {
        Ok(m) => Ok((m.width, m.dark@)),
        Err((step, e)) => Err((step, e@)),
    }
}

/// A normal QR version `v` is `4v + 17` modules wide, square.
pub open spec fn qr_modules_ok(m: (usize, Seq<bool>), version: u8) -> bool {
    &&& m.0 == 4 * version + 17
    &&& m.0 <= 177
    &&& m.1.len() == m.0 * m.0
}

/// What `qrcode::QrCode::with_bits` builds from the bit stream "FNC1 in
/// first position, `payload` in optimal segments, terminator" at normal
/// version `version` and level `ec`, or the first failing step and the
/// `Debug` text of its error.
pub uninterp spec fn qr_gs1_symbol(payload: Seq<u8>, version: u8, ec: QrEc) -> Result<
    (usize, Seq<bool>),
    (QrStep, Seq<char>),
>;

/// What `qrcode::QrCode::with_bits` builds from the bit stream "`payload`
/// in optimal segments, terminator" at normal version `version` and level
/// `ec`, or the first failing step and the `Debug` text of its error.
pub uninterp spec fn qr_plain_symbol(payload: Seq<u8>, version: u8, ec: QrEc) -> Result<
    (usize, Seq<bool>),
    (QrStep, Seq<char>),
>;

/// `qrcode::QrCode::with_bits` on `Bits::new(Version::Normal(version))`
/// filled by `push_fnc1_first_position`, `push_optimal_data(payload)` and
/// `push_terminator(ec)`; an error comes back as the step that gave it and
/// its `Debug` text.  Claimed: the result is [`qr_gs1_symbol`] of the
/// arguments, and a symbol is `4 * version + 17` modules wide with that
/// many squared modules (`Version::width`, `Canvas::new`).
#[verifier::external_body]
pub(crate) fn qr_encode_gs1(payload: &[u8], version: u8, ec: QrEc) -> (r: Result<QrModules, (QrStep, String)>)
    requires
        1 <= version <= 40,
    ensures
        qr_result_view(r) == qr_gs1_symbol(payload@, version, ec),
        r matches Ok(m) ==> qr_modules_ok((m.width, m.dark@), version),
{
    let lv = match ec { QrEc::L => EcLevel::L, QrEc::M => EcLevel::M, QrEc::Q => EcLevel::Q, QrEc::H => EcLevel::H };
    let mut bits = Bits::new(Version::Normal(version as i16));
    bits.push_fnc1_first_position().map_err(|e| (Fnc1FirstPosition, format!("{e:?}")))?;
    bits.push_optimal_data(payload).map_err(|e| (OptimalData, format!("{e:?}")))?;
    bits.push_terminator(lv).map_err(|e| (Terminator, format!("{e:?}")))?;
    let code = QrCode::with_bits(bits, lv).map_err(|e| (WithBits, format!("{e:?}")))?;
    Ok(QrModules { width: code.width(), dark: code.to_colors().iter().map(|c| *c == Color::Dark).collect() })
}

/// As [`qr_encode_gs1`] without the FNC1 mode indicator.  Claimed: the
/// result is [`qr_plain_symbol`] of the arguments, with the same size.
#[verifier::external_body]
pub(crate) fn qr_encode_plain(payload: &[u8], version: u8, ec: QrEc) -> (r: Result<QrModules, (QrStep, String)>)
    requires
        1 <= version <= 40,
    ensures
        qr_result_view(r) == qr_plain_symbol(payload@, version, ec),
        r matches Ok(m) ==> qr_modules_ok((m.width, m.dark@), version),
{
    let lv = match ec { QrEc::L => EcLevel::L, QrEc::M => EcLevel::M, QrEc::Q => EcLevel::Q, QrEc::H => EcLevel::H };
    let mut bits = Bits::new(Version::Normal(version as i16));
    bits.push_optimal_data(payload).map_err(|e| (OptimalData, format!("{e:?}")))?;
    bits.push_terminator(lv).map_err(|e| (Terminator, format!("{e:?}")))?;
    let code = QrCode::with_bits(bits, lv).map_err(|e| (WithBits, format!("{e:?}")))?;
    Ok(QrModules { width: code.width(), dark: code.to_colors().iter().map(|c| *c == Color::Dark).collect() })
}

} // verus!
