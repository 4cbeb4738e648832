//! EAN-2 and EAN-5 supplemental add-on barcodes.
//!
//! Both are short add-on symbols printed to the right of an EAN-13 / UPC
//! main symbol. They open with their own start guard (`1011`), separate
//! digits with `01`, and draw each digit from the L or G set as a parity
//! table dictates: indexed by `value mod 4` (EAN-2) or by a weighted check
//! digit of the five digits (EAN-5).

use vstd::prelude::*;

use crate::encoding::{rle, LinearModel, LinearPattern, linear_result};
use crate::error::Error;
use crate::options::Options;
use crate::text::{char_debug, debug_char, decimal, digit_value, digits_of, digits_only, is_digit, push_decimal};
use crate::ean::{all_digits, lemma_digits_of_all_digits, text_for};
pub use crate::ean::{G_PATTERNS, L_PATTERNS};

verus! {

/// EAN-2 parity pattern indexed by `value mod 4`.
pub const EAN2_PARITY: [&'static str; 4] = ["LL", "LG", "GL", "GG"];

/// EAN-5 parity pattern indexed by the EAN-5 check digit.
pub const EAN5_PARITY: [&'static str; 10] = [
    "GGLLL", "GLGLL", "GLLGL", "GLLLG", "LGGLL", "LLGGL", "LLLGG", "LGLGL", "LGLLG", "LLGLG",
];

/// Add-on start guard: bar, space, bar, bar.
pub const ADDON_START: &'static str = "1011";

/// Inter-digit separator inside an add-on: space, bar.
pub const ADDON_SEP: &'static str = "01";

/// The L or G pattern of digit `d`.
pub open spec fn addon_pattern(d: int, parity: char) -> Seq<char> {
    if parity == 'L' {
        L_PATTERNS@[d]@
    } else {
        G_PATTERNS@[d]@
    }
}

/// Patterns of the first `k` digits of `ds`, separated by `ADDON_SEP`.
pub open spec fn addon_body(ds: Seq<char>, par: Seq<char>, k: int) -> Seq<char>
    decreases k,
{
    if k <= 0 {
        Seq::empty()
    } else {
        addon_body(ds, par, k - 1) + (if k > 1 { ADDON_SEP@ } else { Seq::empty() })
            + addon_pattern(digit_value(ds[k - 1]), par[k - 1])
    }
}

/// Module string of an add-on with digits `ds` and parity `par`.
pub open spec fn addon_modules(ds: Seq<char>, par: Seq<char>) -> Seq<char> {
    ADDON_START@ + addon_body(ds, par, ds.len() as int)
}

/// The EAN-5 check digit.
pub open spec fn ean5_check(ds: Seq<char>) -> int {
    ((digit_value(ds[0]) + digit_value(ds[2]) + digit_value(ds[4])) * 3
        + (digit_value(ds[1]) + digit_value(ds[3])) * 9) % 10
}

/// The EAN-5 weights by position: 3 for the 1st, 3rd and 5th digits, 9
/// for the 2nd and 4th.
pub open spec fn ean5_weight(k: int) -> int {
    if k % 2 == 0 {
        3
    } else {
        9
    }
}

/// The sum of the first `k` digits, each times its position's weight.
pub open spec fn ean5_weighted_sum(ds: Seq<char>, k: int) -> int
    decreases k,
{
    if k <= 0 {
        0
    } else {
        ean5_weighted_sum(ds, k - 1) + ean5_weight(k - 1) * digit_value(ds[k - 1])
    }
}

/// The EAN-5 check value, which picks the parity pattern, is the last
/// decimal digit of the position-weighted sum of the five digits; raising
/// one digit by one moves it by that position's weight, modulo 10.
pub proof fn law_ean5_check_is_weighted_sum(ds: Seq<char>, k: int, up: Seq<char>)
    requires
        ds.len() == 5,
        0 <= k < 5,
        up.len() == 5,
        forall|j: int| 0 <= j < 5 && j != k ==> #[trigger] up[j] == ds[j],
        digit_value(up[k]) == digit_value(ds[k]) + 1,
    ensures
        ean5_check(ds) == ean5_weighted_sum(ds, 5) % 10,
        ean5_check(up) == (ean5_check(ds) + ean5_weight(k)) % 10,
{
    let v = |q: Seq<char>| digit_value(q[0]) * 3 + digit_value(q[1]) * 9 + digit_value(q[2]) * 3
        + digit_value(q[3]) * 9 + digit_value(q[4]) * 3;
    assert forall|q: Seq<char>| #[trigger] ean5_weighted_sum(q, 5) == v(q) by {
        assert(ean5_weighted_sum(q, 0) == 0);
        assert(ean5_weighted_sum(q, 1) == digit_value(q[0]) * 3);
        assert(ean5_weighted_sum(q, 2) == ean5_weighted_sum(q, 1) + digit_value(q[1]) * 9);
        assert(ean5_weighted_sum(q, 3) == ean5_weighted_sum(q, 2) + digit_value(q[2]) * 3);
        assert(ean5_weighted_sum(q, 4) == ean5_weighted_sum(q, 3) + digit_value(q[3]) * 9);
        assert(ean5_weighted_sum(q, 5) == ean5_weighted_sum(q, 4) + digit_value(q[4]) * 3);
    }
    assert(ean5_weighted_sum(ds, 5) == v(ds));
    assert(ean5_weighted_sum(up, 5) == v(up));
    assert(v(up) == v(ds) + ean5_weight(k));
    let a = v(ds);
    vstd::arithmetic::div_mod::lemma_add_mod_noop(a, ean5_weight(k), 10);
    vstd::arithmetic::div_mod::lemma_mod_twice(ean5_weight(k), 10);
    assert(ean5_weight(k) % 10 == ean5_weight(k));
}

/// Model of `encode_ean2`.
pub open spec fn ean2_spec(data: Seq<char>, include_text: bool) -> Result<LinearModel, Seq<char>> {
    let ds = digits_of(data);
    if ds.len() != 2 {
        Err("EAN-2 add-on must be exactly 2 digits (got "@ + decimal(ds.len()) + ")"@)
    } else {
        let value = digit_value(ds[0]) * 10 + digit_value(ds[1]);
        Ok(LinearModel {
            bars: rle(addon_modules(ds, EAN2_PARITY@[value % 4]@)),
            text: text_for(include_text, ds),
        })
    }
}

/// Model of `encode_ean5`.
pub open spec fn ean5_spec(data: Seq<char>, include_text: bool) -> Result<LinearModel, Seq<char>> {
    let ds = digits_of(data);
    if ds.len() != 5 {
        Err("EAN-5 add-on must be exactly 5 digits (got "@ + decimal(ds.len()) + ")"@)
    } else {
        Ok(LinearModel {
            bars: rle(addon_modules(ds, EAN5_PARITY@[ean5_check(ds)]@)),
            text: text_for(include_text, ds),
        })
    }
}

/// Numeric value of a decimal digit, or `InvalidData` naming the character.
pub fn digit(c: char) -> (r: Result<usize, Error>)
    ensures
        is_digit(c) ==> r == Ok::<usize, Error>(digit_value(c) as usize),
        !is_digit(c) ==> (r matches Err(Error::InvalidData(m))
            && m@ == "EAN add-on accepts digits only (got "@ + char_debug(c) + ")"@),
{
    if '0' <= c && c <= '9' {
        Ok((c as u32 - '0' as u32) as usize)
    } else {
        let mut msg = String::from_str("EAN add-on accepts digits only (got ");
        let d = debug_char(c);
        msg.append(d.as_str());
        msg.append(")");
        Err(Error::InvalidData(msg))
    }
}

/// The L or G pattern for digit `d`.
pub fn pattern_for(d: usize, parity: char) -> (r: &'static str)
    requires
        d < 10,
        parity == 'L' || parity == 'G',
    ensures
        r@ == addon_pattern(d as int, parity),
{
    if parity == 'L' {
        L_PATTERNS[d]
    } else {
        G_PATTERNS[d]
    }
}

/// Appends the add-on body for `ds` with parity `par`.
fn append_addon_body(modules: &mut String, ds: &str, par: &str)
    requires
        all_digits(ds@),
        ds@.len() <= par@.len(),
        forall|j: int| 0 <= j < par@.len() ==> (#[trigger] par@[j] == 'L' || par@[j] == 'G'),
    ensures
        final(modules)@ == old(modules)@ + addon_body(ds@, par@, ds@.len() as int),
{
    let n = ds.unicode_len();
    let mut k: usize = 0;
    while k < n
        invariant
            n == ds@.len(),
            k <= n,
            all_digits(ds@),
            n <= par@.len(),
            forall|j: int| 0 <= j < par@.len() ==> (#[trigger] par@[j] == 'L' || par@[j] == 'G'),
            modules@ == old(modules)@ + addon_body(ds@, par@, k as int),
        decreases n - k,
    {
        if k > 0 {
            modules.append(ADDON_SEP);
        }
        let c = ds.get_char(k);
        assert(is_digit(ds@[k as int]));
        let p = par.get_char(k);
        assert(p == 'L' || p == 'G');
        let d = (c as u32 - '0' as u32) as usize;
        modules.append(pattern_for(d, p));
        proof {
            assert(modules@ =~= old(modules)@ + addon_body(ds@, par@, k + 1));
        }
        k = k + 1;
    }
}

proof fn reveal_parity_tables()
    ensures
        forall|i: int| 0 <= i < 4 ==> (#[trigger] EAN2_PARITY@[i])@.len() == 2,
        forall|i: int, j: int| 0 <= i < 4 && 0 <= j < 2 ==> (#[trigger] EAN2_PARITY@[i]@[j] == 'L' || EAN2_PARITY@[i]@[j] == 'G'),
        forall|i: int| 0 <= i < 10 ==> (#[trigger] EAN5_PARITY@[i])@.len() == 5,
        forall|i: int, j: int| 0 <= i < 10 && 0 <= j < 5 ==> (#[trigger] EAN5_PARITY@[i]@[j] == 'L' || EAN5_PARITY@[i]@[j] == 'G'),
{
    reveal_strlit("LL");
    reveal_strlit("LG");
    reveal_strlit("GL");
    reveal_strlit("GG");
    reveal_strlit("GGLLL");
    reveal_strlit("GLGLL");
    reveal_strlit("GLLGL");
    reveal_strlit("GLLLG");
    reveal_strlit("LGGLL");
    reveal_strlit("LLGGL");
    reveal_strlit("LLLGG");
    reveal_strlit("LGLGL");
    reveal_strlit("LGLLG");
    reveal_strlit("LLGLG");
}

/// Encode a 2-digit EAN add-on.
pub fn encode_ean2(data: &str, opts: &Options) -> (r: Result<LinearPattern, Error>)
    ensures
        linear_result(r, ean2_spec(data@, opts.include_text)),
{
    let digits = digits_only(data);
    let n = digits.as_str().unicode_len();
    if n != 2 {
        let mut msg = String::from_str("EAN-2 add-on must be exactly 2 digits (got ");
        push_decimal(&mut msg, n as u64);
        msg.append(")");
        return Err(Error::InvalidData(msg));
    }
    proof {
        lemma_digits_of_all_digits(data@);
        reveal_parity_tables();
    }
    let ds = digits.as_str();
    assert(is_digit(ds@[0]) && is_digit(ds@[1]));
    let d0 = (ds.get_char(0) as u32 - '0' as u32) as usize;
    let d1 = (ds.get_char(1) as u32 - '0' as u32) as usize;
    let value = d0 * 10 + d1;
    let parity = EAN2_PARITY[value % 4];
    let mut modules = String::from_str(ADDON_START);
    append_addon_body(&mut modules, ds, parity);
    let text = if opts.include_text {
        Some(digits)
    } else {
        None
    };
    Ok(LinearPattern::from_modules(modules.as_str(), text))
}

/// Encode a 5-digit EAN add-on.
pub fn encode_ean5(data: &str, opts: &Options) -> (r: Result<LinearPattern, Error>)
    ensures
        linear_result(r, ean5_spec(data@, opts.include_text)),
{
    let digits = digits_only(data);
    let n = digits.as_str().unicode_len();
    if n != 5 {
        let mut msg = String::from_str("EAN-5 add-on must be exactly 5 digits (got ");
        push_decimal(&mut msg, n as u64);
        msg.append(")");
        return Err(Error::InvalidData(msg));
    }
    proof {
        lemma_digits_of_all_digits(data@);
        reveal_parity_tables();
    }
    let ds = digits.as_str();
    assert(is_digit(ds@[0]) && is_digit(ds@[1]) && is_digit(ds@[2]) && is_digit(ds@[3]) && is_digit(ds@[4]));
    let d0 = ds.get_char(0) as u32 - '0' as u32;
    let d1 = ds.get_char(1) as u32 - '0' as u32;
    let d2 = ds.get_char(2) as u32 - '0' as u32;
    let d3 = ds.get_char(3) as u32 - '0' as u32;
    let d4 = ds.get_char(4) as u32 - '0' as u32;
    let sum_odd = d0 + d2 + d4;
    let sum_even = d1 + d3;
    let check = ((sum_odd * 3) + (sum_even * 9)) % 10;
    let parity = EAN5_PARITY[check as usize];
    let mut modules = String::from_str(ADDON_START);
    append_addon_body(&mut modules, ds, parity);
    let text = if opts.include_text {
        Some(digits)
    } else {
        None
    };
    Ok(LinearPattern::from_modules(modules.as_str(), text))
}

} // verus!
