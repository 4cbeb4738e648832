//! Data Matrix: the symbol sizes by name, the `version` / `shape` options,
//! and the plain Data Matrix encoder.

use vstd::prelude::*;

use vstd::utf8::encode_utf8;

use crate::encoding::BitMatrix;
use crate::error::Error;
use crate::matrix::{is_dm_matrix, matrix_from_dm};
use crate::options::{option_value, Options};
use crate::qrcode_::opt_str;
use crate::substrate::{dm_encode, dm_plain_symbol, DmShape, DmSize};
use crate::text::str_eq;

verus! {

/// The name of standard size `i`: rows `x` columns.
pub open spec fn dm_size_name_spec(i: int) -> Seq<char> {
    if i == 0 {
        "10x10"@
    } else if i == 1 {
        "12x12"@
    } else if i == 2 {
        "14x14"@
    } else if i == 3 {
        "16x16"@
    } else if i == 4 {
        "18x18"@
    } else if i == 5 {
        "20x20"@
    } else if i == 6 {
        "22x22"@
    } else if i == 7 {
        "24x24"@
    } else if i == 8 {
        "26x26"@
    } else if i == 9 {
        "32x32"@
    } else if i == 10 {
        "36x36"@
    } else if i == 11 {
        "40x40"@
    } else if i == 12 {
        "44x44"@
    } else if i == 13 {
        "48x48"@
    } else if i == 14 {
        "52x52"@
    } else if i == 15 {
        "64x64"@
    } else if i == 16 {
        "72x72"@
    } else if i == 17 {
        "80x80"@
    } else if i == 18 {
        "88x88"@
    } else if i == 19 {
        "96x96"@
    } else if i == 20 {
        "104x104"@
    } else if i == 21 {
        "120x120"@
    } else if i == 22 {
        "132x132"@
    } else if i == 23 {
        "144x144"@
    } else if i == 24 {
        "8x18"@
    } else if i == 25 {
        "8x32"@
    } else if i == 26 {
        "12x26"@
    } else if i == 27 {
        "12x36"@
    } else if i == 28 {
        "16x36"@
    } else {
        "16x48"@
    }
}

/// The name of standard size `i`.
pub fn dm_size_name(i: u8) -> (s: &'static str)
    requires
        i < 30,
    ensures
        s@ == dm_size_name_spec(i as int),
{
    match i {
        0 => "10x10",
        1 => "12x12",
        2 => "14x14",
        3 => "16x16",
        4 => "18x18",
        5 => "20x20",
        6 => "22x22",
        7 => "24x24",
        8 => "26x26",
        9 => "32x32",
        10 => "36x36",
        11 => "40x40",
        12 => "44x44",
        13 => "48x48",
        14 => "52x52",
        15 => "64x64",
        16 => "72x72",
        17 => "80x80",
        18 => "88x88",
        19 => "96x96",
        20 => "104x104",
        21 => "120x120",
        22 => "132x132",
        23 => "144x144",
        24 => "8x18",
        25 => "8x32",
        26 => "12x26",
        27 => "12x36",
        28 => "16x36",
        _ => "16x48",
    }
}

/// The first standard size from `i` on named `s`.
pub open spec fn dm_size_from(s: Seq<char>, i: int) -> Option<int>
    decreases 30 - i,
{
    if i < 0 || i >= 30 {
        None
    } else if dm_size_name_spec(i) == s {
        Some(i)
    } else {
        dm_size_from(s, i + 1)
    }
}

/// The message for a size name no standard size has.
pub open spec fn unknown_size_message(s: Seq<char>) -> Seq<char> {
    "no Data Matrix symbol of size "@ + s
}

/// The standard size a name such as `"16x16"` or `"8x18"` names.
pub fn parse_symbol_size(spec: &str) -> (r: Result<DmSize, Error>)
    ensures
        match (r, dm_size_from(spec@, 0)) {
            (Ok(s), Some(i)) => s.index as int == i && i < 30,
            (Err(Error::InvalidOption(m)), None) => m@ == unknown_size_message(spec@),
            _ => false,
        },
{
    let mut i: u8 = 0;
    while i < 30
        invariant
            i <= 30,
            dm_size_from(spec@, 0) == dm_size_from(spec@, i as int),
        decreases 30 - i,
    {
        if str_eq(spec, dm_size_name(i)) {
            return Ok(DmSize { index: i });
        }
        i = i + 1;
    }
    let mut m = String::from_str("no Data Matrix symbol of size ");
    m.append(spec);
    proof {
        reveal_strlit("no Data Matrix symbol of size ");
    }
    Err(Error::InvalidOption(m))
}

/// The sizes the `version` and `shape` options allow: the named size when
/// `version` is given, else squares or rectangles per `shape`, squares by
/// default; or the message of an unknown value.
pub open spec fn dm_shape_spec(version: Option<Seq<char>>, shape: Option<Seq<char>>) -> Result<
    DmShape,
    Seq<char>,
> {
    match version {
        Some(v) => match dm_size_from(v, 0) {
            Some(i) => Ok(DmShape::Only(DmSize { index: i as u8 })),
            None => Err(unknown_size_message(v)),
        },
        None => match shape {
            Some(sh) => if sh == "square"@ {
                Ok(DmShape::Square)
            } else if sh == "rectangular"@ {
                Ok(DmShape::Rectangular)
            } else {
                Err("shape="@ + sh + " (use square|rectangular)"@)
            },
            None => Ok(DmShape::Square),
        },
    }
}

/// The sizes the `version` and `shape` option values allow.
pub fn dm_shape_from(version: Option<&str>, shape: Option<&str>) -> (r: Result<DmShape, Error>)
    ensures
        match (r, dm_shape_spec(opt_str(version), opt_str(shape))) {
            (Ok(a), Ok(b)) => a == b,
            (Err(Error::InvalidOption(m)), Err(w)) => m@ == w,
            _ => false,
        },
        r matches Ok(DmShape::Only(s)) ==> s.index < 30,
{
    match version {
        Some(v) => {
            let s = parse_symbol_size(v)?;
            Ok(DmShape::Only(s))
        },
        None => match shape {
            Some(sh) => {
                if str_eq(sh, "square") {
                    Ok(DmShape::Square)
                } else if str_eq(sh, "rectangular") {
                    Ok(DmShape::Rectangular)
                } else {
                    let mut m = String::from_str("shape=");
                    m.append(sh);
                    m.append(" (use square|rectangular)");
                    proof {
                        reveal_strlit("shape=");
                        reveal_strlit(" (use square|rectangular)");
                    }
                    Err(Error::InvalidOption(m))
                }
            },
            None => Ok(DmShape::Square),
        },
    }
}

/// The sizes the options allow (`version`, then `shape`).
pub fn symbol_list_from_opts(opts: &Options) -> (r: Result<DmShape, Error>)
    ensures
        match (r, dm_shape_spec(option_value(*opts, "version"@), option_value(*opts, "shape"@))) {
            (Ok(a), Ok(b)) => a == b,
            (Err(Error::InvalidOption(m)), Err(w)) => m@ == w,
            _ => false,
        },
        r matches Ok(DmShape::Only(s)) ==> s.index < 30,
{
    dm_shape_from(opts.get("version"), opts.get("shape"))
}

/// What the plain Data Matrix encoder gives for `data` with `opts`: the
/// grid of the symbol for the text's UTF-8 bytes in the allowed sizes, or
/// the option or layout error.
pub open spec fn dm_plain_ok(r: Result<BitMatrix, Error>, data: Seq<char>, opts: Options) -> bool {
    match dm_shape_spec(option_value(opts, "version"@), option_value(opts, "shape"@)) {
        Err(w) => r matches Err(Error::InvalidOption(m)) && m@ == w,
        Ok(sh) => match dm_plain_symbol(encode_utf8(data), sh) {
            Err(e) => r matches Err(Error::Backend(m)) && m@ == "Data Matrix: "@ + e,
            Ok(b) => r matches Ok(m) && is_dm_matrix(m, b),
        },
    }
}

/// Encodes text as a plain Data Matrix in the sizes the options allow.
pub fn encode(data: &str, opts: &Options) -> (r: Result<BitMatrix, Error>)
    ensures
        dm_plain_ok(r, data@, *opts),
{
    let shape = symbol_list_from_opts(opts)?;
    match dm_encode(data.as_bytes(), shape) {
        Ok(b) => Ok(matrix_from_dm(&b)),
        Err(e) => {
            let mut m = String::from_str("Data Matrix: ");
            m.append(e.as_str());
            proof {
                reveal_strlit("Data Matrix: ");
            }
            Err(Error::Backend(m))
        },
    }
}

} // verus!
