//! GS1-128: Code 128 carrying a GS1 element string, with the SSCC-18,
//! UPC coupon and EAN-14 wrappers.

use vstd::prelude::*;

use crate::code128::{code128_spec, encode_tokens, Token};
use crate::ean::{all_digits, gs1_check, gs1_check_char};
use crate::encoding::{LinearModel, LinearPattern};
use crate::error::Error;
use crate::gs1::{
    elements_view, encode_with_fnc1, failure_message, fnc1_body, fnc1_stream, lemma_parse_facts,
    parse, parse_spec, FNC1,
};
use crate::options::Options;
use crate::text::{decimal, digit_value, digits_of, digits_only, is_ws, push_decimal};

verus! {

/// The composite linkage flag appended before the check character.
#[derive(Debug, Clone, Copy, PartialEq, Eq, Structural)]
pub enum Linkage {
    /// Standalone symbol.
    Standalone,
    /// CC-A or CC-B companion.
    A,
    /// CC-C companion.
    C,
}

/// Code 128 tokens of a GS1 byte stream (without its leading FNC1).
pub open spec fn tokens_of(bytes: Seq<u8>) -> Seq<Token> {
    bytes.map_values(|b: u8| if b == FNC1 {
        Token::Fnc1
    } else {
        Token::Ascii(b)
    })
}

/// The linkage token, if any.
pub open spec fn link_tokens(l: Linkage) -> Seq<Token> {
    match l {
        Linkage::Standalone => Seq::empty(),
        Linkage::A => seq![Token::LinkA],
        Linkage::C => seq![Token::LinkC],
    }
}

/// The pattern (or error message) for an element string.
#[verifier::opaque]
pub open spec fn gs1_128_spec(data: Seq<char>, include_text: bool, l: Linkage) -> Result<LinearModel, Seq<char>> {
    match parse_spec(data) {
        Err(f) => Err(failure_message(f)),
        Ok(els) => {
            let toks = seq![Token::Fnc1] + tokens_of(fnc1_stream(els).drop_first()) + link_tokens(l);
            match code128_spec(toks) {
                Ok(m) => Ok(if include_text {
                    LinearModel { bars: m.bars, text: Some(data) }
                } else {
                    m
                }),
                Err(e) => Err(e),
            }
        },
    }
}

/// `r` is what `s` says.
pub open spec fn pattern_result(r: Result<LinearPattern, Error>, s: Result<LinearModel, Seq<char>>) -> bool {
    match (r, s) {
        (Ok(p), Ok(m)) => p@ == m,
        (Err(Error::InvalidData(msg)), Err(e)) => msg@ == e,
        _ => false,
    }
}

/// Encodes an element string `(AI)data...` as GS1-128.
pub fn encode(data: &str, opts: &Options) -> (r: Result<LinearPattern, Error>)
    requires
        data@.len() < 0x800_0000,
    ensures
        pattern_result(r, gs1_128_spec(data@, opts.include_text, Linkage::Standalone)),
{
    encode_with_linkage(data, opts, Linkage::Standalone)
}

/// Encodes an element string as GS1-128 with a composite linkage flag.
pub fn encode_with_linkage(data: &str, opts: &Options, linkage: Linkage) -> (r: Result<LinearPattern, Error>)
    requires
        data@.len() < 0x800_0000,
    ensures
        pattern_result(r, gs1_128_spec(data@, opts.include_text, linkage)),
{
    proof {
        reveal(gs1_128_spec);
    }
    let elements = match parse(data) {
        Ok(e) => e,
        Err(e) => return Err(Error::InvalidData(e.message())),
    };
    let ghost els = elements_view(elements@);
    proof {
        lemma_parse_facts(data@, 0);
        assert forall|k: int| 0 <= k < elements@.len() implies crate::gs1::valid_ai(
            #[trigger] elements@[k].ai@,
        ) by {
            assert(els[k].0 == elements@[k].ai@);
        }
    }
    let bytes = encode_with_fnc1(&elements);
    let mut tokens: Vec<Token> = Vec::new();
    tokens.push(Token::Fnc1);
    let nb = bytes.len();
    let mut k: usize = 1;
    proof {
        assert(fnc1_stream(els).len() == 1 + fnc1_body(els, 0).len());
        assert(tokens@ =~= seq![Token::Fnc1] + tokens_of(bytes@.subrange(1, 1)));
    }
    while k < nb
        invariant
            nb == bytes@.len(),
            1 <= k <= nb,
            nb < 0x800_0001,
            tokens@ == seq![Token::Fnc1] + tokens_of(bytes@.subrange(1, k as int)),
        decreases nb - k,
    {
        let b = bytes[k];
        if b == FNC1 {
            tokens.push(Token::Fnc1);
        } else {
            tokens.push(Token::Ascii(b));
        }
        k = k + 1;
        assert(tokens@ =~= seq![Token::Fnc1] + tokens_of(bytes@.subrange(1, k as int)));
    }
    match linkage {
        Linkage::Standalone => {},
        Linkage::A => tokens.push(Token::LinkA),
        Linkage::C => tokens.push(Token::LinkC),
    }
    proof {
        assert(bytes@.subrange(1, nb as int) =~= bytes@.drop_first());
        assert(tokens@ =~= seq![Token::Fnc1] + tokens_of(fnc1_stream(els).drop_first()) + link_tokens(
            linkage,
        ));
    }
    match encode_tokens(tokens.as_slice(), opts) {
        Ok(mut p) => {
            if opts.include_text {
                p.text = Some(String::from_str(data));
            }
            Ok(p)
        },
        Err(e) => Err(e),
    }
}

/// Message for a wrong SSCC-18 length.
pub open spec fn sscc_message(n: int) -> Seq<char> {
    "SSCC-18: expected 18 digits, got "@ + decimal(n as nat)
}

/// `"(00)"` followed by the digits of `data`, when there are eighteen.
pub open spec fn sscc_spec(data: Seq<char>, include_text: bool) -> Result<LinearModel, Seq<char>> {
    let d = digits_of(data);
    if d.len() != 18 {
        Err(sscc_message(d.len() as int))
    } else {
        gs1_128_spec("(00)"@ + d, include_text, Linkage::Standalone)
    }
}

/// Encodes an 18-digit SSCC as GS1-128 under AI (00).
pub fn encode_sscc18(data: &str, opts: &Options) -> (r: Result<LinearPattern, Error>)
    requires
        data@.len() < 0x7ff_fff0,
    ensures
        pattern_result(r, sscc_spec(data@, opts.include_text)),
{
    let digits = digits_only(data);
    let n = digits.as_str().unicode_len();
    if n != 18 {
        let mut m = String::from_str("SSCC-18: expected 18 digits, got ");
        push_decimal(&mut m, n as u64);
        return Err(Error::InvalidData(m));
    }
    let mut s = String::from_str("(00)");
    s.append(digits.as_str());
    proof {
        reveal_strlit("(00)");
    }
    encode(s.as_str(), opts)
}

/// Index of the first non-whitespace character at or after `i`.
pub open spec fn skip_ws(s: Seq<char>, i: int) -> int
    decreases s.len() - i,
{
    if i < 0 || i >= s.len() {
        s.len() as int
    } else if is_ws(s[i]) {
        skip_ws(s, i + 1)
    } else {
        i
    }
}

/// One past the last non-whitespace character before `j`.
pub open spec fn trim_end(s: Seq<char>, lo: int, j: int) -> int
    decreases j - lo,
{
    if j <= lo {
        lo
    } else if is_ws(s[j - 1]) {
        trim_end(s, lo, j - 1)
    } else {
        j
    }
}

/// `s` without leading and trailing whitespace.
pub open spec fn trimmed(s: Seq<char>) -> Seq<char> {
    let lo = skip_ws(s, 0);
    s.subrange(lo, trim_end(s, lo, s.len() as int))
}

proof fn lemma_skip_ws(s: Seq<char>, i: int)
    requires
        0 <= i <= s.len(),
    ensures
        i <= skip_ws(s, i) <= s.len(),
    decreases s.len() - i,
{
    if i < s.len() && is_ws(s[i]) {
        lemma_skip_ws(s, i + 1);
    }
}

proof fn lemma_trim_end(s: Seq<char>, lo: int, j: int)
    requires
        0 <= lo <= j <= s.len(),
    ensures
        lo <= trim_end(s, lo, j) <= j,
    decreases j - lo,
{
    if j > lo && is_ws(s[j - 1]) {
        lemma_trim_end(s, lo, j - 1);
    }
}

/// `s` without leading and trailing whitespace.
pub fn trim_ws(s: &str) -> (t: &str)
    ensures
        t@ == trimmed(s@),
{
    let n = s.unicode_len();
    let mut lo: usize = 0;
    while lo < n && crate::text::is_whitespace(s.get_char(lo))
        invariant
            n == s@.len(),
            lo <= n,
            skip_ws(s@, 0) == skip_ws(s@, lo as int),
        decreases n - lo,
    {
        lo = lo + 1;
    }
    let mut hi: usize = n;
    while hi > lo && crate::text::is_whitespace(s.get_char(hi - 1))
        invariant
            n == s@.len(),
            lo <= hi <= n,
            skip_ws(s@, 0) == lo,
            trim_end(s@, lo as int, n as int) == trim_end(s@, lo as int, hi as int),
        decreases hi - lo,
    {
        hi = hi - 1;
    }
    s.substring_char(lo, hi)
}

/// Message for an empty coupon.
pub open spec fn coupon_empty_message() -> Seq<char> {
    "UPC Coupon: payload is empty"@
}

/// `"(8110)"` followed by the trimmed payload, when it is not empty.
pub open spec fn coupon_spec(data: Seq<char>, include_text: bool) -> Result<LinearModel, Seq<char>> {
    let body = trimmed(data);
    if body.len() == 0 {
        Err(coupon_empty_message())
    } else {
        gs1_128_spec("(8110)"@ + body, include_text, Linkage::Standalone)
    }
}

/// Encodes a UPC coupon payload as GS1-128 under AI (8110).
pub fn encode_coupon(data: &str, opts: &Options) -> (r: Result<LinearPattern, Error>)
    requires
        data@.len() < 0x7ff_fff0,
    ensures
        pattern_result(r, coupon_spec(data@, opts.include_text)),
{
    let body = trim_ws(data);
    proof {
        lemma_skip_ws(data@, 0);
        lemma_trim_end(data@, skip_ws(data@, 0), data@.len() as int);
    }
    if body.unicode_len() == 0 {
        return Err(Error::InvalidData(String::from_str("UPC Coupon: payload is empty")));
    }
    let mut s = String::from_str("(8110)");
    s.append(body);
    proof {
        reveal_strlit("(8110)");
    }
    encode(s.as_str(), opts)
}

/// `s` without a leading `"(01)"`.
pub open spec fn strip_01(s: Seq<char>) -> Seq<char> {
    if s.len() >= 4 && s.subrange(0, 4) == "(01)"@ {
        s.subrange(4, s.len() as int)
    } else {
        s
    }
}

/// Message for a wrong EAN-14 length.
pub open spec fn ean14_length_message(n: int) -> Seq<char> {
    "EAN-14: expected 13 or 14 digits, got "@ + decimal(n as nat)
}

/// Message for a wrong EAN-14 check digit.
pub open spec fn ean14_check_message(expected: int, given: int) -> Seq<char> {
    "EAN-14: incorrect check digit (expected "@ + decimal(expected as nat) + ", got "@ + decimal(
        given as nat,
    ) + ")"@
}

/// The GTIN-14 of an EAN-14 payload: thirteen digits get their check
/// digit, fourteen must carry the right one.
pub open spec fn ean14_spec(data: Seq<char>, include_text: bool) -> Result<LinearModel, Seq<char>> {
    let d = digits_of(strip_01(data));
    if d.len() != 13 && d.len() != 14 {
        Err(ean14_length_message(d.len() as int))
    } else {
        let c = gs1_check_char(d.subrange(0, 13));
        if d.len() == 14 && d[13] != c {
            Err(ean14_check_message(digit_value(c), digit_value(d[13])))
        } else {
            gs1_128_spec("(01)"@ + d.subrange(0, 13).push(c), include_text, Linkage::Standalone)
        }
    }
}

/// Thirteen digits and the same digits followed by their check digit
/// give the same EAN-14.
pub proof fn law_ean14_check_completion(d: Seq<char>, with_text: bool)
    requires
        all_digits(d),
        d.len() == 13,
    ensures
        ean14_spec(d, with_text) == ean14_spec(d.push(gs1_check_char(d)), with_text),
{
    reveal_strlit("(01)");
    let c = gs1_check_char(d);
    crate::ean::lemma_gs1_check_char_digit(d);
    let e = d.push(c);
    assert(all_digits(e));
    assert(d.subrange(0, 4)[0] != "(01)"@[0]);
    assert(e.subrange(0, 4)[0] != "(01)"@[0]);
    assert(strip_01(d) == d);
    assert(strip_01(e) == e);
    crate::ean::lemma_digits_of_identity(d);
    crate::ean::lemma_digits_of_identity(e);
    assert(e.subrange(0, 13) =~= d);
    assert(d.subrange(0, 13) =~= d);
}

/// Encodes EAN-14 (GTIN-14) as GS1-128 under AI (01).
pub fn encode_ean14(data: &str, opts: &Options) -> (r: Result<LinearPattern, Error>)
    requires
        data@.len() < 0x7ff_fff0,
    ensures
        pattern_result(r, ean14_spec(data@, opts.include_text)),
{
    proof {
        reveal_strlit("(01)");
    }
    let n0 = data.unicode_len();
    let has_prefix = n0 >= 4 && crate::text::str_eq(data.substring_char(0, 4), "(01)");
    let body = if has_prefix {
        data.substring_char(4, n0)
    } else {
        data
    };
    assert(body@ == strip_01(data@));
    let digits = digits_only(body);
    let ds = digits.as_str();
    let n = ds.unicode_len();
    if n != 13 && n != 14 {
        let mut m = String::from_str("EAN-14: expected 13 or 14 digits, got ");
        push_decimal(&mut m, n as u64);
        return Err(Error::InvalidData(m));
    }
    proof {
        crate::ean::lemma_digits_of_all_digits(body@);
    }
    let first13 = ds.substring_char(0, 13);
    proof {
        assert(crate::ean::all_digits(first13@)) by {
            assert forall|k: int| 0 <= k < first13@.len() implies crate::text::is_digit(
                #[trigger] first13@[k],
            ) by {
                assert(crate::text::is_digit(ds@[k]));
            }
        }
        crate::ean::lemma_weighted_sum_bound(first13@);
    }
    let check = gs1_check(first13);
    if n == 14 {
        let given = ds.get_char(13);
        if given != check {
            let mut m = String::from_str("EAN-14: incorrect check digit (expected ");
            push_decimal(&mut m, ((check as u32) - 48) as u64);
            m.append(", got ");
            push_decimal(&mut m, ((given as u32) - 48) as u64);
            m.append(")");
            return Err(Error::InvalidData(m));
        }
    }
    let mut s = String::from_str("(01)");
    s.append(first13);
    crate::text::push_char(&mut s, check);
    proof {
        if n == 14 {
            assert(ds@.subrange(0, 13).push(check) =~= ds@);
        }
    }
    encode(s.as_str(), opts)
}

} // verus!
