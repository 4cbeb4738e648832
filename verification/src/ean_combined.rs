//! EAN / UPC main symbols with 2- or 5-digit add-ons.
//!
//! The input holds the main digits and the add-on digits as two
//! whitespace-separated fields. Both symbols keep their own layout; they
//! are joined with a quiet gap of `ADDON_GAP_MODULES` modules.

use vstd::prelude::*;

use crate::book_codes::{encode_isbn, encode_issn, isbn_spec, issn_spec};
use crate::ean::{ean13_modules, ean8_modules, upce_modules, CENTER_GUARD, NORMAL_GUARD, UPCE_END_GUARD, normalize_spec, upce_body_spec, ean13_spec, ean8_spec, encode_ean13, encode_ean8, encode_upca, encode_upce, upca_spec, upce_spec};
use crate::ean_addons::{ean2_spec, ean5_spec, encode_ean2, encode_ean5};
use crate::encoding::{
    expand, lemma_expand_concat, lemma_expand_push, lemma_rle_ends_dark, linear_result, opt_view, rle,
    LinearModel, LinearPattern,
};
use crate::error::Error;
use crate::options::Options;
use crate::text::{count_digits, debug_str, decimal, digits_of, push_decimal, split_whitespace_spans, str_debug, tokens, token_spans};

verus! {

/// Quiet modules between the main symbol and the add-on.
pub const ADDON_GAP_MODULES: u8 = 12;

/// Model of `split_pair`: the main and add-on fields, or the message.
pub open spec fn split_spec(data: Seq<char>, expected_addon: nat) -> Result<(Seq<char>, Seq<char>), Seq<char>> {
    let t = tokens(data);
    if t.len() == 0 {
        Err("EAN/UPC add-on: missing main barcode data"@)
    } else if t.len() == 1 {
        Err("EAN/UPC add-on: missing add-on digits"@)
    } else if t.len() > 2 {
        Err("EAN/UPC add-on: expected exactly two whitespace-separated fields"@)
    } else if digits_of(t[1]).len() != expected_addon {
        Err("EAN/UPC add-on: expected "@ + decimal(expected_addon) + "-digit add-on, got "@ + str_debug(t[1]))
    } else {
        Ok((t[0], t[1]))
    }
}

/// Model of `combine`.
pub open spec fn combine_spec(main: LinearModel, addon: LinearModel, gap: u8) -> LinearModel {
    let text = match (main.text, addon.text) {
        (Some(m), Some(a)) => Some(m + seq![' '] + a),
        (Some(m), None) => Some(m),
        (None, Some(a)) => Some(a),
        (None, None) => None,
    };
    if main.bars.len() == 0 {
        LinearModel { bars: addon.bars, text: addon.text }
    } else if ((main.bars.len() - 1) as int) % 2 == 0 {
        LinearModel { bars: main.bars.push(gap) + addon.bars, text }
    } else {
        LinearModel {
            bars: main.bars.update(main.bars.len() - 1, (main.bars.last() + gap) as u8) + addon.bars,
            text,
        }
    }
}

/// `combine` is defined on `main`: a trailing space can absorb the gap.
pub open spec fn combinable(main: LinearModel, gap: u8) -> bool {
    main.bars.len() > 0 && ((main.bars.len() - 1) as int) % 2 != 0 ==> main.bars.last() + gap <= 255
}

/// Composition of a split, a main model and an add-on model.
pub open spec fn pair_spec(
    split: Result<(Seq<char>, Seq<char>), Seq<char>>,
    main: spec_fn(Seq<char>) -> Result<LinearModel, Seq<char>>,
    addon: spec_fn(Seq<char>) -> Result<LinearModel, Seq<char>>,
) -> Result<LinearModel, Seq<char>> {
    match split {
        Err(e) => Err(e),
        Ok((m, a)) => match main(m) {
            Err(e) => Err(e),
            Ok(mp) => match addon(a) {
                Err(e) => Err(e),
                Ok(ap) => Ok(combine_spec(mp, ap, ADDON_GAP_MODULES)),
            },
        },
    }
}

/// Split user input into `(main, addon)`, checking that the add-on field
/// holds exactly `expected_addon` digits.
pub fn split_pair(data: &str, expected_addon: usize) -> (r: Result<(&str, &str), Error>)
    ensures
        match (r, split_spec(data@, expected_addon as nat)) {
            (Ok((m, a)), Ok((sm, sa))) => m@ == sm && a@ == sa,
            (Err(Error::InvalidData(msg)), Err(e)) => msg@ == e,
            _ => false,
        },
{
    let spans = split_whitespace_spans(data);
    let k = spans.len();
    if k == 0 {
        return Err(Error::InvalidData(String::from_str("EAN/UPC add-on: missing main barcode data")));
    }
    if k == 1 {
        return Err(Error::InvalidData(String::from_str("EAN/UPC add-on: missing add-on digits")));
    }
    if k > 2 {
        return Err(Error::InvalidData(
            String::from_str("EAN/UPC add-on: expected exactly two whitespace-separated fields"),
        ));
    }
    let (m0, m1) = spans[0];
    let (a0, a1) = spans[1];
    let main = data.substring_char(m0, m1);
    let addon = data.substring_char(a0, a1);
    proof {
        assert(tokens(data@)[0] == main@);
        assert(tokens(data@)[1] == addon@);
    }
    if count_digits(addon) != expected_addon {
        let mut msg = String::from_str("EAN/UPC add-on: expected ");
        push_decimal(&mut msg, expected_addon as u64);
        msg.append("-digit add-on, got ");
        let d = debug_str(addon);
        msg.append(d.as_str());
        return Err(Error::InvalidData(msg));
    }
    Ok((main, addon))
}

/// Concatenate `main` and `addon` with a quiet gap of `gap` modules,
/// keeping the bar/space alternation.
pub fn combine(main: LinearPattern, addon: LinearPattern, gap: u8) -> (p: LinearPattern)
    requires
        combinable(main@, gap),
    ensures
        p@ == combine_spec(main@, addon@, gap),
{
    let mut bars = main.bars;
    let mut abars = addon.bars;
    if bars.len() == 0 {
        return LinearPattern { bars: abars, text: addon.text };
    }
    let last = bars.len() - 1;
    if last % 2 == 0 {
        bars.push(gap);
    } else {
        let w = bars[last];
        bars.set(last, w + gap);
    }
    bars.append(&mut abars);
    let text = match (main.text, addon.text) {
        (Some(m), Some(a)) => {
            let mut t = m;
            crate::text::push_char(&mut t, ' ');
            t.append(a.as_str());
            assert(t@ =~= m@ + seq![' '] + a@);
            Some(t)
        },
        (Some(m), None) => Some(m),
        (None, Some(a)) => Some(a),
        (None, None) => None,
    };
    let p = LinearPattern { bars, text };
    assert(p@.bars =~= combine_spec(main@, addon@, gap).bars);
    p
}

/// A model whose last run is a bar.
pub open spec fn ends_on_bar(m: LinearModel) -> bool {
    m.bars.len() > 0 && ((m.bars.len() - 1) as int) % 2 == 0
}

proof fn lemma_guard_tails()
    ensures
        NORMAL_GUARD@.len() == 3,
        NORMAL_GUARD@.last() == '1',
        UPCE_END_GUARD@.len() == 6,
        UPCE_END_GUARD@.last() == '1',
{
    reveal_strlit("101");
    reveal_strlit("010101");
}

proof fn lemma_ean13_modules_tail(ds: Seq<char>)
    ensures
        ean13_modules(ds).len() > 0,
        ean13_modules(ds).last() == '1',
{
    lemma_guard_tails();
    let m = ean13_modules(ds);
    assert(m[m.len() - 1] == NORMAL_GUARD@[2]);
}

proof fn lemma_ean13_spec_ends(d: Seq<char>, t: bool)
    ensures
        ean13_spec(d, t) matches Ok(p) ==> ends_on_bar(p),
{
    if let Ok(ds) = normalize_spec(d, 13, "EAN-13"@) {
        lemma_ean13_modules_tail(ds);
        lemma_rle_ends_dark(ean13_modules(ds));
    }
}

/// Every main symbol of this module ends on a bar.
pub proof fn lemma_mains_end_on_bar(data: Seq<char>, t: bool)
    ensures
        ean13_spec(data, t) matches Ok(p) ==> ends_on_bar(p),
        ean8_spec(data, t) matches Ok(p) ==> ends_on_bar(p),
        upca_spec(data, t) matches Ok(p) ==> ends_on_bar(p),
        upce_spec(data, t) matches Ok(p) ==> ends_on_bar(p),
        isbn_spec(data, t) matches Ok(p) ==> ends_on_bar(p),
        issn_spec(data, t) matches Ok(p) ==> ends_on_bar(p),
{
    lemma_guard_tails();
    lemma_ean13_spec_ends(data, t);
    if let Ok(ds) = normalize_spec(data, 8, "EAN-8"@) {
        let m = ean8_modules(ds);
        assert(m[m.len() - 1] == NORMAL_GUARD@[2]);
        lemma_rle_ends_dark(m);
    }
    if let Ok(ds) = normalize_spec(data, 12, "UPC-A"@) {
        lemma_ean13_spec_ends(seq!['0'] + ds, t);
    }
    if let Ok(body) = upce_body_spec(data) {
        let m = upce_modules(body);
        assert(m[m.len() - 1] == UPCE_END_GUARD@[5]);
        lemma_rle_ends_dark(m);
    }
    let ds = digits_of(data);
    lemma_ean13_spec_ends(ds, t);
    if ds.len() >= 9 {
        lemma_ean13_spec_ends(seq!['9', '7', '8'] + ds.subrange(0, 9), t);
    }
    if ds.len() >= 7 {
        lemma_ean13_spec_ends(seq!['9', '7', '7'] + ds.subrange(0, 7) + seq!['0', '0'], t);
    }
}

/// Joining a main symbol that ends on a bar and an add-on puts exactly the
/// gap of light modules between them: the joined modules are the main
/// symbol's, then `gap` light modules, then the add-on's.
pub proof fn law_combine_modules(main: LinearModel, addon: LinearModel, gap: u8)
    requires
        ends_on_bar(main),
    ensures
        expand(combine_spec(main, addon, gap).bars) == expand(main.bars) + Seq::new(
            gap as nat,
            |k: int| '0',
        ) + expand(addon.bars),
{
    let mp = main.bars.push(gap);
    lemma_expand_push(main.bars, gap);
    assert(((mp.len()) as int) % 2 == 0);
    lemma_expand_concat(mp, addon.bars);
    assert(Seq::new(gap as nat, |k: int| if (main.bars.len() as int) % 2 == 0 { '1' } else { '0' })
        =~= Seq::new(gap as nat, |k: int| '0'));
}

/// EAN-13 with an add-on: the bars are those of the EAN-13 symbol, then
/// one space of [`ADDON_GAP_MODULES`] modules, then those of the add-on.
pub proof fn law_ean13_addon_bars(data: Seq<char>, t: bool)
    ensures
        split_spec(data, 2) matches Ok((m, a)) ==> (ean13_spec(m, t) matches Ok(mp) ==> (ean2_spec(
            a,
            t,
        ) matches Ok(ap) ==> (pair_spec(
            split_spec(data, 2),
            |x: Seq<char>| ean13_spec(x, t),
            |y: Seq<char>| ean2_spec(y, t),
        ) matches Ok(p) && p.bars == mp.bars.push(ADDON_GAP_MODULES) + ap.bars))),
        split_spec(data, 5) matches Ok((m, a)) ==> (ean13_spec(m, t) matches Ok(mp) ==> (ean5_spec(
            a,
            t,
        ) matches Ok(ap) ==> (pair_spec(
            split_spec(data, 5),
            |x: Seq<char>| ean13_spec(x, t),
            |y: Seq<char>| ean5_spec(y, t),
        ) matches Ok(p) && p.bars == mp.bars.push(ADDON_GAP_MODULES) + ap.bars))),
{
    if let Ok((m, a)) = split_spec(data, 2) {
        lemma_mains_end_on_bar(m, t);
    }
    if let Ok((m, a)) = split_spec(data, 5) {
        lemma_mains_end_on_bar(m, t);
    }
}

/// Encode EAN-13 with a 2-digit add-on.
pub fn encode_ean13_p2(data: &str, opts: &Options) -> (r: Result<LinearPattern, Error>)
    ensures
        linear_result(r, pair_spec(split_spec(data@, 2), |m: Seq<char>| ean13_spec(m, opts.include_text), |a: Seq<char>| ean2_spec(a, opts.include_text))),
{
    let (main, addon) = split_pair(data, 2)?;
    let m = encode_ean13(main, opts)?;
    proof { lemma_mains_end_on_bar(main@, opts.include_text); }
    let a = encode_ean2(addon, opts)?;
    Ok(combine(m, a, ADDON_GAP_MODULES))
}

/// Encode EAN-13 with a 5-digit add-on.
pub fn encode_ean13_p5(data: &str, opts: &Options) -> (r: Result<LinearPattern, Error>)
    ensures
        linear_result(r, pair_spec(split_spec(data@, 5), |m: Seq<char>| ean13_spec(m, opts.include_text), |a: Seq<char>| ean5_spec(a, opts.include_text))),
{
    let (main, addon) = split_pair(data, 5)?;
    let m = encode_ean13(main, opts)?;
    proof { lemma_mains_end_on_bar(main@, opts.include_text); }
    let a = encode_ean5(addon, opts)?;
    Ok(combine(m, a, ADDON_GAP_MODULES))
}

/// Encode EAN-8 with a 2-digit add-on.
pub fn encode_ean8_p2(data: &str, opts: &Options) -> (r: Result<LinearPattern, Error>)
    ensures
        linear_result(r, pair_spec(split_spec(data@, 2), |m: Seq<char>| ean8_spec(m, opts.include_text), |a: Seq<char>| ean2_spec(a, opts.include_text))),
{
    let (main, addon) = split_pair(data, 2)?;
    let m = encode_ean8(main, opts)?;
    proof { lemma_mains_end_on_bar(main@, opts.include_text); }
    let a = encode_ean2(addon, opts)?;
    Ok(combine(m, a, ADDON_GAP_MODULES))
}

/// Encode EAN-8 with a 5-digit add-on.
pub fn encode_ean8_p5(data: &str, opts: &Options) -> (r: Result<LinearPattern, Error>)
    ensures
        linear_result(r, pair_spec(split_spec(data@, 5), |m: Seq<char>| ean8_spec(m, opts.include_text), |a: Seq<char>| ean5_spec(a, opts.include_text))),
{
    let (main, addon) = split_pair(data, 5)?;
    let m = encode_ean8(main, opts)?;
    proof { lemma_mains_end_on_bar(main@, opts.include_text); }
    let a = encode_ean5(addon, opts)?;
    Ok(combine(m, a, ADDON_GAP_MODULES))
}

/// Encode UPC-A with a 2-digit add-on.
pub fn encode_upca_p2(data: &str, opts: &Options) -> (r: Result<LinearPattern, Error>)
    ensures
        linear_result(r, pair_spec(split_spec(data@, 2), |m: Seq<char>| upca_spec(m, opts.include_text), |a: Seq<char>| ean2_spec(a, opts.include_text))),
{
    let (main, addon) = split_pair(data, 2)?;
    let m = encode_upca(main, opts)?;
    proof { lemma_mains_end_on_bar(main@, opts.include_text); }
    let a = encode_ean2(addon, opts)?;
    Ok(combine(m, a, ADDON_GAP_MODULES))
}

/// Encode UPC-A with a 5-digit add-on.
pub fn encode_upca_p5(data: &str, opts: &Options) -> (r: Result<LinearPattern, Error>)
    ensures
        linear_result(r, pair_spec(split_spec(data@, 5), |m: Seq<char>| upca_spec(m, opts.include_text), |a: Seq<char>| ean5_spec(a, opts.include_text))),
{
    let (main, addon) = split_pair(data, 5)?;
    let m = encode_upca(main, opts)?;
    proof { lemma_mains_end_on_bar(main@, opts.include_text); }
    let a = encode_ean5(addon, opts)?;
    Ok(combine(m, a, ADDON_GAP_MODULES))
}

/// Encode UPC-E with a 2-digit add-on.
pub fn encode_upce_p2(data: &str, opts: &Options) -> (r: Result<LinearPattern, Error>)
    ensures
        linear_result(r, pair_spec(split_spec(data@, 2), |m: Seq<char>| upce_spec(m, opts.include_text), |a: Seq<char>| ean2_spec(a, opts.include_text))),
{
    let (main, addon) = split_pair(data, 2)?;
    let m = encode_upce(main, opts)?;
    proof { lemma_mains_end_on_bar(main@, opts.include_text); }
    let a = encode_ean2(addon, opts)?;
    Ok(combine(m, a, ADDON_GAP_MODULES))
}

/// Encode UPC-E with a 5-digit add-on.
pub fn encode_upce_p5(data: &str, opts: &Options) -> (r: Result<LinearPattern, Error>)
    ensures
        linear_result(r, pair_spec(split_spec(data@, 5), |m: Seq<char>| upce_spec(m, opts.include_text), |a: Seq<char>| ean5_spec(a, opts.include_text))),
{
    let (main, addon) = split_pair(data, 5)?;
    let m = encode_upce(main, opts)?;
    proof { lemma_mains_end_on_bar(main@, opts.include_text); }
    let a = encode_ean5(addon, opts)?;
    Ok(combine(m, a, ADDON_GAP_MODULES))
}

/// Encode ISBN-13 with a 5-digit add-on (the book-pricing add-on).
pub fn encode_isbn_p5(data: &str, opts: &Options) -> (r: Result<LinearPattern, Error>)
    ensures
        linear_result(r, pair_spec(split_spec(data@, 5), |m: Seq<char>| isbn_spec(m, opts.include_text), |a: Seq<char>| ean5_spec(a, opts.include_text))),
{
    let (main, addon) = split_pair(data, 5)?;
    let m = encode_isbn(main, opts)?;
    proof { lemma_mains_end_on_bar(main@, opts.include_text); }
    let a = encode_ean5(addon, opts)?;
    Ok(combine(m, a, ADDON_GAP_MODULES))
}

/// Encode ISSN with a 2-digit add-on.
pub fn encode_issn_p2(data: &str, opts: &Options) -> (r: Result<LinearPattern, Error>)
    ensures
        linear_result(r, pair_spec(split_spec(data@, 2), |m: Seq<char>| issn_spec(m, opts.include_text), |a: Seq<char>| ean2_spec(a, opts.include_text))),
{
    let (main, addon) = split_pair(data, 2)?;
    let m = encode_issn(main, opts)?;
    proof { lemma_mains_end_on_bar(main@, opts.include_text); }
    let a = encode_ean2(addon, opts)?;
    Ok(combine(m, a, ADDON_GAP_MODULES))
}

} // verus!
