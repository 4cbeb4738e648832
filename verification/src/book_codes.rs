//! ISBN-13 and ISSN main symbols, drawn as EAN-13.
//!
//! An ISBN is read as its digits (hyphens and spaces are separators). A
//! 12- or 13-digit ISBN-13 (prefix 978 or 979) is the EAN-13 itself; a 9-
//! or 10-character ISBN-10 becomes `978` + its first nine digits. An ISSN
//! becomes the EAN-13 `977` + its first seven digits + issue code `00`.

use vstd::prelude::*;

use crate::ean::{ean13_spec, encode_ean13, lemma_digits_of_all_digits};
use crate::encoding::{LinearModel, LinearPattern, linear_result};
use crate::error::Error;
use crate::options::Options;
use crate::text::{decimal, digits_of, digits_only, push_decimal};

verus! {

/// Model of `encode_isbn`.
pub open spec fn isbn_spec(data: Seq<char>, include_text: bool) -> Result<LinearModel, Seq<char>> {
    let ds = digits_of(data);
    if ds.len() == 12 || ds.len() == 13 {
        if ds.subrange(0, 3) == seq!['9', '7', '8'] || ds.subrange(0, 3) == seq!['9', '7', '9'] {
            ean13_spec(ds, include_text)
        } else {
            Err("ISBN: an ISBN-13 must start with 978 or 979"@)
        }
    } else if ds.len() == 9 || ds.len() == 10 {
        ean13_spec(seq!['9', '7', '8'] + ds.subrange(0, 9), include_text)
    } else {
        Err("ISBN: expected 10 or 13 digits, got "@ + decimal(ds.len()))
    }
}

/// Model of `encode_issn`.
pub open spec fn issn_spec(data: Seq<char>, include_text: bool) -> Result<LinearModel, Seq<char>> {
    let ds = digits_of(data);
    if ds.len() == 7 || ds.len() == 8 {
        ean13_spec(seq!['9', '7', '7'] + ds.subrange(0, 7) + seq!['0', '0'], include_text)
    } else {
        Err("ISSN: expected 8 characters, got "@ + decimal(ds.len()) + " digits"@)
    }
}

/// Encode an ISBN as EAN-13.
pub fn encode_isbn(data: &str, opts: &Options) -> (r: Result<LinearPattern, Error>)
    ensures
        linear_result(r, isbn_spec(data@, opts.include_text)),
{
    let digits = digits_only(data);
    let ds = digits.as_str();
    let n = ds.unicode_len();
    proof {
        lemma_digits_of_all_digits(data@);
    }
    if n == 12 || n == 13 {
        let a = ds.get_char(0);
        let b = ds.get_char(1);
        let c = ds.get_char(2);
        proof {
            assert(ds@.subrange(0, 3) =~= seq![a, b, c]);
        }
        if a == '9' && b == '7' && (c == '8' || c == '9') {
            encode_ean13(ds, opts)
        } else {
            Err(Error::InvalidData(String::from_str("ISBN: an ISBN-13 must start with 978 or 979")))
        }
    } else if n == 9 || n == 10 {
        let mut s = String::from_str("978");
        s.append(ds.substring_char(0, 9));
        proof {
            reveal_strlit("978");
            assert(s@ =~= seq!['9', '7', '8'] + ds@.subrange(0, 9));
        }
        encode_ean13(s.as_str(), opts)
    } else {
        let mut msg = String::from_str("ISBN: expected 10 or 13 digits, got ");
        push_decimal(&mut msg, n as u64);
        Err(Error::InvalidData(msg))
    }
}

/// Encode an ISSN as EAN-13 (`977` + seven digits + `00`).
pub fn encode_issn(data: &str, opts: &Options) -> (r: Result<LinearPattern, Error>)
    ensures
        linear_result(r, issn_spec(data@, opts.include_text)),
{
    let digits = digits_only(data);
    let ds = digits.as_str();
    let n = ds.unicode_len();
    if n == 7 || n == 8 {
        let mut s = String::from_str("977");
        s.append(ds.substring_char(0, 7));
        s.append("00");
        proof {
            reveal_strlit("977");
            reveal_strlit("00");
            assert(s@ =~= seq!['9', '7', '7'] + ds@.subrange(0, 7) + seq!['0', '0']);
        }
        encode_ean13(s.as_str(), opts)
    } else {
        let mut msg = String::from_str("ISSN: expected 8 characters, got ");
        push_decimal(&mut msg, n as u64);
        msg.append(" digits");
        Err(Error::InvalidData(msg))
    }
}

} // verus!
