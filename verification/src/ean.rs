//! EAN-13, EAN-8, UPC-A, UPC-E (and the Marks & Spencer EAN-8 variant).
//!
//! Each digit is drawn as a 7-module pattern from one of three sets: L
//! (left-odd), G (left-even) or R (right). The leading digit of EAN-13
//! selects the L/G mix of the next six digits. Symbols are bracketed by a
//! 3-module guard at each end with a 5-module centre guard. UPC-E has its
//! own layout: six data digits whose parity encodes the number system and
//! the check digit, closed by a 6-module end guard.

use vstd::prelude::*;

use crate::encoding::{rle, LinearModel, LinearPattern, linear_result};
use crate::error::{Error, string_result};
use crate::options::Options;
use crate::text::{decimal, digit_char, digit_to_char, digit_value, digits_of, is_digit, push_char, push_decimal};
pub use crate::text::digits_only;

verus! {

pub const L_PATTERNS: [&'static str; 10] = [
    "0001101", "0011001", "0010011", "0111101", "0100011", "0110001", "0101111", "0111011",
    "0110111", "0001011",
];

pub const G_PATTERNS: [&'static str; 10] = [
    "0100111", "0110011", "0011011", "0100001", "0011101", "0111001", "0000101", "0010001",
    "0001001", "0010111",
];

pub const R_PATTERNS: [&'static str; 10] = [
    "1110010", "1100110", "1101100", "1000010", "1011100", "1001110", "1010000", "1000100",
    "1001000", "1110100",
];

/// L/G mix of the six left digits of EAN-13, indexed by the leading digit.
pub const EAN13_PARITY: [&'static str; 10] = [
    "LLLLLL", "LLGLGG", "LLGGLG", "LLGGGL", "LGLLGG", "LGGLLG", "LGGGLL", "LGLGLG", "LGLGGL",
    "LGGLGL",
];

/// O/E parity of the six UPC-E data digits for number system 0, indexed by
/// the check digit. Number system 1 swaps every `O` and `E`.
pub const UPCE_PARITY_NS0: [&'static str; 10] = [
    "EEEOOO", "EEOEOO", "EEOOEO", "EEOOOE", "EOEEOO", "EOOEEO", "EOOOEE", "EOEOEO", "EOEOOE",
    "EOOEOE",
];

pub const NORMAL_GUARD: &'static str = "101";

pub const CENTER_GUARD: &'static str = "01010";

/// UPC-E end guard: six alternating modules starting with a space.
pub const UPCE_END_GUARD: &'static str = "010101";

// ---------------------------------------------------------------------------
// Specifications
// ---------------------------------------------------------------------------

/// Every character of `s` is an ASCII digit.
pub open spec fn all_digits(s: Seq<char>) -> bool {
    forall|i: int| 0 <= i < s.len() ==> is_digit(#[trigger] s[i])
}

/// GS1 mod-10 weighted sum: the rightmost digit weighs 3, then 1, 3, ...
pub open spec fn gs1_weighted_sum(s: Seq<char>) -> int
    decreases s.len(),
{
    if s.len() == 0 {
        0
    } else {
        (if ((s.len() - 1) as int) % 2 == 0 { 3int } else { 1int }) * digit_value(s[0])
            + gs1_weighted_sum(s.drop_first())
    }
}

/// The GS1 mod-10 check digit of `s`.
pub open spec fn gs1_check_char(s: Seq<char>) -> char {
    digit_char((10 - gs1_weighted_sum(s) % 10) % 10)
}

/// Concatenation of `tab[digit]` for the digits `ds[a..b]`.
pub open spec fn table_run(ds: Seq<char>, a: int, b: int, tab: [&'static str; 10]) -> Seq<char>
    decreases b - a,
{
    if b <= a {
        Seq::empty()
    } else {
        table_run(ds, a, b - 1, tab) + tab@[digit_value(ds[b - 1])]@
    }
}

/// Digits `ds[a..a+k]` drawn from L when `par[j] == lchar`, else from G.
pub open spec fn parity_run(ds: Seq<char>, par: Seq<char>, a: int, k: int, lchar: char) -> Seq<char>
    decreases k,
{
    if k <= 0 {
        Seq::empty()
    } else {
        parity_run(ds, par, a, k - 1, lchar) + (if par[k - 1] == lchar {
            L_PATTERNS@[digit_value(ds[a + k - 1])]@
        } else {
            G_PATTERNS@[digit_value(ds[a + k - 1])]@
        })
    }
}

/// Module string of a 13-digit EAN-13 symbol.
pub open spec fn ean13_modules(ds: Seq<char>) -> Seq<char> {
    NORMAL_GUARD@ + parity_run(ds, EAN13_PARITY@[digit_value(ds[0])]@, 1, 6, 'L') + CENTER_GUARD@
        + table_run(ds, 7, 13, R_PATTERNS) + NORMAL_GUARD@
}

/// Module string of an 8-digit EAN-8 symbol.
pub open spec fn ean8_modules(ds: Seq<char>) -> Seq<char> {
    NORMAL_GUARD@ + table_run(ds, 0, 4, L_PATTERNS) + CENTER_GUARD@ + table_run(ds, 4, 8, R_PATTERNS)
        + NORMAL_GUARD@
}

/// `"{family}: supplied check digit {s} does not match computed {c}"`.
pub open spec fn check_mismatch_msg(family: Seq<char>, s: char, c: char) -> Seq<char> {
    family + ": supplied check digit "@ + seq![s] + " does not match computed "@ + seq![c]
}

/// `"{family}: expected {exact - 1} or {exact} digits, got {n}"`.
pub open spec fn length_msg(family: Seq<char>, exact: nat, n: nat) -> Seq<char> {
    family + ": expected "@ + decimal((exact - 1) as nat) + " or "@ + decimal(exact) + " digits, got "@
        + decimal(n)
}

/// Digits of `data` completed or checked against the GS1 check digit.
pub open spec fn normalize_spec(data: Seq<char>, exact: nat, family: Seq<char>) -> Result<Seq<char>, Seq<char>> {
    let ds = digits_of(data);
    if ds.len() + 1 == exact {
        Ok(ds.push(gs1_check_char(ds)))
    } else if ds.len() == exact {
        let computed = gs1_check_char(ds.drop_last());
        if ds.last() == computed {
            Ok(ds)
        } else {
            Err(check_mismatch_msg(family, ds.last(), computed))
        }
    } else {
        Err(length_msg(family, exact, ds.len()))
    }
}

/// The text carried under the bars.
pub open spec fn text_for(with_text: bool, t: Seq<char>) -> Option<Seq<char>> {
    if with_text {
        Some(t)
    } else {
        None
    }
}

/// Model of `encode_ean13`.
pub open spec fn ean13_spec(data: Seq<char>, include_text: bool) -> Result<LinearModel, Seq<char>> {
    match normalize_spec(data, 13, "EAN-13"@) {
        Ok(ds) => Ok(LinearModel { bars: rle(ean13_modules(ds)), text: text_for(include_text, ds) }),
        Err(e) => Err(e),
    }
}

/// Model of `encode_ean8`.
pub open spec fn ean8_spec(data: Seq<char>, include_text: bool) -> Result<LinearModel, Seq<char>> {
    match normalize_spec(data, 8, "EAN-8"@) {
        Ok(ds) => Ok(LinearModel { bars: rle(ean8_modules(ds)), text: text_for(include_text, ds) }),
        Err(e) => Err(e),
    }
}

/// Model of `encode_upca`: the UPC-A digits prefixed with `0` as EAN-13.
pub open spec fn upca_spec(data: Seq<char>, include_text: bool) -> Result<LinearModel, Seq<char>> {
    match normalize_spec(data, 12, "UPC-A"@) {
        Ok(ds) => ean13_spec(seq!['0'] + ds, include_text),
        Err(e) => Err(e),
    }
}

/// Model of `encode_mands`.
pub open spec fn mands_spec(data: Seq<char>, include_text: bool) -> Result<LinearModel, Seq<char>> {
    let ds = digits_of(data);
    if ds.len() != 7 && ds.len() != 8 {
        Err("M&S: expected 7 or 8 digits, got "@ + decimal(ds.len()))
    } else if ds.len() == 7 {
        ean8_spec(seq!['0'] + ds, include_text)
    } else {
        ean8_spec(ds, include_text)
    }
}

/// The ten zero-free characters `c` repeated `n` times.
pub open spec fn zeros(n: nat) -> Seq<char> {
    Seq::new(n, |i: int| '0')
}

/// 11-digit UPC-A body of a 7-byte UPC-E body (length counted in UTF-8
/// bytes).
pub open spec fn upce_expansion(u: Seq<char>) -> Result<Seq<char>, Seq<char>> {
    if vstd::utf8::encode_utf8(u).len() != 7 {
        Err("UPC-E expansion requires a 7-digit body"@)
    } else if !all_digits(u) {
        Err("UPC-E: non-digit in body"@)
    } else if u[0] != '0' && u[0] != '1' {
        Err("UPC-E: number system digit must be 0 or 1"@)
    } else {
        let last = u[6];
        if last == '0' || last == '1' || last == '2' {
            Ok(seq![u[0], u[1], u[2], last] + zeros(4) + seq![u[3], u[4], u[5]])
        } else if last == '3' {
            Ok(seq![u[0], u[1], u[2], u[3]] + zeros(5) + seq![u[4], u[5]])
        } else if last == '4' {
            Ok(seq![u[0], u[1], u[2], u[3], u[4]] + zeros(5) + seq![u[5]])
        } else {
            Ok(seq![u[0], u[1], u[2], u[3], u[4], u[5]] + zeros(4) + seq![last])
        }
    }
}

/// Swaps `O` and `E`.
pub open spec fn swap_oe(c: char) -> char {
    if c == 'O' {
        'E'
    } else if c == 'E' {
        'O'
    } else {
        c
    }
}

/// UPC-E parity string for number system `ns` and check digit `check`.
pub open spec fn upce_parity(ns: u8, check: int) -> Seq<char> {
    if ns == 48 {
        UPCE_PARITY_NS0@[check]@
    } else {
        UPCE_PARITY_NS0@[check]@.map_values(|c: char| swap_oe(c))
    }
}

/// Module string of an 8-digit UPC-E body (number system, six data digits,
/// check digit).
pub open spec fn upce_modules(body: Seq<char>) -> Seq<char> {
    NORMAL_GUARD@ + parity_run(body, upce_parity(body[0] as u8, digit_value(body[7])), 1, 6, 'O')
        + UPCE_END_GUARD@
}

/// The checked 8-digit UPC-E body, or the error message.
pub open spec fn upce_body_spec(data: Seq<char>) -> Result<Seq<char>, Seq<char>> {
    let ds = digits_of(data);
    if ds.len() == 7 {
        match upce_expansion(ds) {
            Ok(upca) => Ok(ds.push(gs1_check_char(upca))),
            Err(e) => Err(e),
        }
    } else if ds.len() == 8 {
        match upce_expansion(ds.subrange(0, 7)) {
            Ok(upca) => {
                let computed = gs1_check_char(upca);
                if ds.last() != computed {
                    Err("UPC-E: supplied check digit "@ + seq![ds.last()] + " does not match computed "@
                        + seq![computed] + " (via UPC-A expansion "@ + upca + seq![computed] + ")"@)
                } else {
                    Ok(ds)
                }
            },
            Err(e) => Err(e),
        }
    } else {
        Err("UPC-E: expected 7 or 8 digits, got "@ + decimal(ds.len()))
    }
}

/// Model of `encode_upce`.
pub open spec fn upce_spec(data: Seq<char>, include_text: bool) -> Result<LinearModel, Seq<char>> {
    match upce_body_spec(data) {
        Ok(body) => Ok(LinearModel { bars: rle(upce_modules(body)), text: text_for(include_text, body) }),
        Err(e) => Err(e),
    }
}

// ---------------------------------------------------------------------------
// Helpers
// ---------------------------------------------------------------------------

/// Every digit weighs at most 27 (`3 * 9`), and the sum is never negative.
pub proof fn lemma_weighted_sum_bound(s: Seq<char>)
    requires
        all_digits(s),
    ensures
        0 <= gs1_weighted_sum(s) <= 27 * s.len(),
    decreases s.len(),
{
    if s.len() > 0 {
        assert(is_digit(s[0]));
        assert(all_digits(s.drop_first())) by {
            assert forall|i: int| 0 <= i < s.drop_first().len() implies is_digit(
                #[trigger] s.drop_first()[i],
            ) by {
                assert(is_digit(s[i + 1]));
            }
        }
        lemma_weighted_sum_bound(s.drop_first());
    }
}

/// Compute the GS1 mod-10 check digit for a string of data digits (the
/// rightmost digit is weighted 3, alternating with 1). The weighted sum is
/// accumulated in a `u32`.
pub fn gs1_check(digits: &str) -> (c: char)
    requires
        all_digits(digits@),
        gs1_weighted_sum(digits@) <= u32::MAX,
    ensures
        c == gs1_check_char(digits@),
        is_digit(c),
{
    let n = digits.unicode_len();
    let mut sum: u32 = 0;
    let mut i: usize = 0;
    assert(digits@.subrange(0, n as int) =~= digits@);
    while i < n
        invariant
            n == digits@.len(),
            i <= n,
            all_digits(digits@),
            gs1_weighted_sum(digits@) <= u32::MAX,
            sum + gs1_weighted_sum(digits@.subrange(i as int, n as int)) == gs1_weighted_sum(digits@),
        decreases n - i,
    {
        let ch = digits.get_char(i);
        assert(is_digit(digits@[i as int]));
        let d = ch as u32 - '0' as u32;
        proof {
            let sub = digits@.subrange(i as int, n as int);
            assert(sub.drop_first() =~= digits@.subrange(i + 1, n as int));
            assert(sub[0] == ch);
            assert(all_digits(sub.drop_first())) by {
                assert forall|k: int| 0 <= k < sub.drop_first().len() implies is_digit(
                    #[trigger] sub.drop_first()[k],
                ) by {
                    assert(is_digit(digits@[i + 1 + k]));
                }
            }
            lemma_weighted_sum_bound(sub.drop_first());
        }
        if (n - 1 - i) % 2 == 0 {
            sum = sum + 3 * d;
        } else {
            sum = sum + d;
        }
        i = i + 1;
    }
    proof {
        assert(digits@.subrange(n as int, n as int) =~= Seq::<char>::empty());
    }
    digit_to_char((10 - sum % 10) % 10)
}

/// Numeric value of a digit character.
pub fn digit(c: char) -> (v: usize)
    requires
        is_digit(c),
    ensures
        v == digit_value(c),
{
    (c as u32 - '0' as u32) as usize
}

/// Accept either `exact` digits (with the user-supplied check digit, which
/// is validated) or `exact - 1` digits (the check digit is computed).
pub fn normalize(data: &str, exact: usize, family: &str) -> (r: Result<String, Error>)
    requires
        1 <= exact <= 1000,
    ensures
        string_result(r, normalize_spec(data@, exact as nat, family@)),
{
    let digits = digits_only(data);
    let n = digits.as_str().unicode_len();
    proof {
        lemma_digits_of_all_digits(data@);
    }
    proof {
        lemma_weighted_sum_bound(digits@);
    }
    if n == exact - 1 {
        let c = gs1_check(digits.as_str());
        let mut out = digits;
        push_char(&mut out, c);
        Ok(out)
    } else if n == exact {
        let body = digits.as_str().substring_char(0, exact - 1);
        let supplied = digits.as_str().get_char(exact - 1);
        proof {
            assert(body@ =~= digits@.drop_last());
            assert(all_digits(body@)) by {
                assert forall|k: int| 0 <= k < body@.len() implies is_digit(#[trigger] body@[k]) by {
                    assert(is_digit(digits@[k]));
                }
            }
            lemma_weighted_sum_bound(body@);
        }
        let computed = gs1_check(body);
        if supplied != computed {
            assert(supplied == digits@.last());
            let mut msg = String::from_str(family);
            msg.append(": supplied check digit ");
            push_char(&mut msg, supplied);
            msg.append(" does not match computed ");
            push_char(&mut msg, computed);
            assert(msg@ =~= check_mismatch_msg(family@, digits@.last(), computed));
            return Err(Error::InvalidData(msg));
        }
        Ok(digits)
    } else {
        let mut msg = String::from_str(family);
        msg.append(": expected ");
        push_decimal(&mut msg, (exact - 1) as u64);
        msg.append(" or ");
        push_decimal(&mut msg, exact as u64);
        msg.append(" digits, got ");
        push_decimal(&mut msg, n as u64);
        Err(Error::InvalidData(msg))
    }
}

/// `digits_of` keeps only digits and never grows the input.
pub proof fn lemma_digits_of_all_digits(s: Seq<char>)
    ensures
        all_digits(digits_of(s)),
        digits_of(s).len() <= s.len(),
    decreases s.len(),
{
    if s.len() > 0 {
        lemma_digits_of_all_digits(s.drop_last());
    }
}

/// Appends `tab[d]` for the digits `ds[a..b]`.
fn append_table_run(modules: &mut String, ds: &str, a: usize, b: usize, tab: &[&'static str; 10])
    requires
        a <= b <= ds@.len(),
        all_digits(ds@),
    ensures
        final(modules)@ == old(modules)@ + table_run(ds@, a as int, b as int, *tab),
{
    let mut j: usize = a;
    while j < b
        invariant
            a <= j <= b <= ds@.len(),
            all_digits(ds@),
            modules@ == old(modules)@ + table_run(ds@, a as int, j as int, *tab),
        decreases b - j,
    {
        let c = ds.get_char(j);
        assert(is_digit(ds@[j as int]));
        let d = digit(c);
        let pat = tab[d];
        modules.append(pat);
        proof {
            assert(table_run(ds@, a as int, j + 1, *tab) == table_run(ds@, a as int, j as int, *tab) + tab@[d as int]@);
            assert(modules@ =~= old(modules)@ + table_run(ds@, a as int, j + 1, *tab));
        }
        j = j + 1;
    }
}

/// Appends the L/G patterns of `ds[a..a+k]` selected by `par`.
fn append_parity_run(modules: &mut String, ds: &str, par: &str, a: usize, k: usize, lchar: char)
    requires
        a + k <= ds@.len(),
        k <= par@.len(),
        all_digits(ds@),
    ensures
        final(modules)@ == old(modules)@ + parity_run(ds@, par@, a as int, k as int, lchar),
{
    let _len = ds.unicode_len();
    let mut j: usize = 0;
    while j < k
        invariant
            a + k <= ds@.len(),
            ds@.len() <= usize::MAX,
            k <= par@.len(),
            j <= k,
            all_digits(ds@),
            modules@ == old(modules)@ + parity_run(ds@, par@, a as int, j as int, lchar),
        decreases k - j,
    {
        let c = ds.get_char(a + j);
        assert(is_digit(ds@[a + j]));
        let d = digit(c);
        let p = par.get_char(j);
        if p == lchar {
            modules.append(L_PATTERNS[d]);
        } else {
            modules.append(G_PATTERNS[d]);
        }
        proof {
            assert(modules@ =~= old(modules)@ + parity_run(ds@, par@, a as int, j + 1, lchar));
        }
        j = j + 1;
    }
}

// ---------------------------------------------------------------------------
// Encoders
// ---------------------------------------------------------------------------

/// Encode an EAN-13 payload (12 or 13 digits; the check digit is computed
/// if missing).
pub fn encode_ean13(data: &str, opts: &Options) -> (r: Result<LinearPattern, Error>)
    ensures
        linear_result(r, ean13_spec(data@, opts.include_text)),
{
    let digits = normalize(data, 13, "EAN-13")?;
    proof {
        lemma_digits_of_all_digits(data@);
        lemma_gs1_check_char_digit(digits_of(data@));
    }
    let ds = digits.as_str();
    assert(ds@.len() == 13);
    assert(all_digits(ds@));
    let leading = digit(ds.get_char(0));
    let parity = EAN13_PARITY[leading];
    let mut modules = String::from_str(NORMAL_GUARD);
    proof {
        reveal_strlit("LLLLLL");
        reveal_strlit("LLGLGG");
        reveal_strlit("LLGGLG");
        reveal_strlit("LLGGGL");
        reveal_strlit("LGLLGG");
        reveal_strlit("LGGLLG");
        reveal_strlit("LGGGLL");
        reveal_strlit("LGLGLG");
        reveal_strlit("LGLGGL");
        reveal_strlit("LGGLGL");
    }
    append_parity_run(&mut modules, ds, parity, 1, 6, 'L');
    modules.append(CENTER_GUARD);
    append_table_run(&mut modules, ds, 7, 13, &R_PATTERNS);
    modules.append(NORMAL_GUARD);
    proof {
        assert(modules@ =~= ean13_modules(ds@));
    }
    let text = if opts.include_text {
        Some(digits)
    } else {
        None
    };
    Ok(LinearPattern::from_modules(modules.as_str(), text))
}

/// The GS1 check character is a digit.
pub proof fn lemma_gs1_check_char_digit(s: Seq<char>)
    ensures
        is_digit(gs1_check_char(s)),
{
    let v = (10 - gs1_weighted_sum(s) % 10) % 10;
    assert(0 <= v < 10);
}

/// EAN-13 reads only the digits of its input: with thirteen of them the
/// symbol is refused exactly when the last is not the check digit of the
/// first twelve, and the message names both; with neither twelve nor
/// thirteen the message gives the count.
pub proof fn law_ean13_digit_rule(data: Seq<char>, with_text: bool)
    ensures
        digits_of(data).len() == 13 ==> (ean13_spec(data, with_text) is Err <==> digits_of(data)[12]
            != gs1_check_char(digits_of(data).subrange(0, 12))),
        digits_of(data).len() == 13 && digits_of(data)[12] != gs1_check_char(
            digits_of(data).subrange(0, 12),
        ) ==> ean13_spec(data, with_text) == Err::<LinearModel, Seq<char>>(
            check_mismatch_msg(
                "EAN-13"@,
                digits_of(data)[12],
                gs1_check_char(digits_of(data).subrange(0, 12)),
            ),
        ),
        digits_of(data).len() != 12 && digits_of(data).len() != 13 ==> ean13_spec(data, with_text)
            == Err::<LinearModel, Seq<char>>(length_msg("EAN-13"@, 13, digits_of(data).len())),
{
    let ds = digits_of(data);
    if ds.len() == 13 {
        assert(ds.drop_last() =~= ds.subrange(0, 12));
    }
}

/// Completing an input whose digits number twelve with their check digit
/// changes nothing: separators and other non-digits are skipped as before,
/// and the input and the input followed by the computed check digit give
/// the same EAN-13.
pub proof fn law_ean13_check_completion(d: Seq<char>, with_text: bool)
    requires
        digits_of(d).len() == 12,
    ensures
        ean13_spec(d, with_text) == ean13_spec(d.push(gs1_check_char(digits_of(d))), with_text),
{
    let ds = digits_of(d);
    lemma_digits_of_all_digits(d);
    lemma_gs1_check_char_digit(ds);
    let e = d.push(gs1_check_char(ds));
    assert(e.drop_last() =~= d);
    assert(digits_of(e) == ds.push(gs1_check_char(ds)));
    assert(digits_of(e).drop_last() =~= ds);
}

/// Completing an input whose digits number seven with their check digit
/// changes nothing: the input and the input followed by the computed check
/// digit give the same EAN-8.
pub proof fn law_ean8_check_completion(d: Seq<char>, with_text: bool)
    requires
        digits_of(d).len() == 7,
    ensures
        ean8_spec(d, with_text) == ean8_spec(d.push(gs1_check_char(digits_of(d))), with_text),
{
    let ds = digits_of(d);
    lemma_digits_of_all_digits(d);
    lemma_gs1_check_char_digit(ds);
    let e = d.push(gs1_check_char(ds));
    assert(e.drop_last() =~= d);
    assert(digits_of(e) == ds.push(gs1_check_char(ds)));
    assert(digits_of(e).drop_last() =~= ds);
}

/// A supplied check digit other than the computed one is refused, with
/// both digits named.
pub proof fn law_ean13_wrong_check_refused(d: Seq<char>, c: char, with_text: bool)
    requires
        all_digits(d),
        d.len() == 12,
        is_digit(c),
        c != gs1_check_char(d),
    ensures
        ean13_spec(d.push(c), with_text) == Err::<LinearModel, Seq<char>>(
            check_mismatch_msg("EAN-13"@, c, gs1_check_char(d)),
        ),
{
    let e = d.push(c);
    assert(all_digits(e));
    lemma_digits_of_identity(e);
    assert(e.drop_last() =~= d);
}

/// A leading zero does not change the GS1 weighted sum.
proof fn lemma_weighted_sum_leading_zero(s: Seq<char>)
    ensures
        gs1_weighted_sum(seq!['0'] + s) == gs1_weighted_sum(s),
{
    let z = seq!['0'] + s;
    assert(z[0] == '0');
    assert(z.drop_first() =~= s);
}

/// A UPC-A is the EAN-13 of its digits behind a leading zero: eleven
/// digits, or twelve with the right check digit, give the symbol and text
/// of the EAN-13 of `0` followed by them.
pub proof fn law_upca_is_ean13_with_leading_zero(d: Seq<char>, with_text: bool)
    requires
        all_digits(d),
        d.len() == 11 || (d.len() == 12 && d.last() == gs1_check_char(d.drop_last())),
    ensures
        upca_spec(d, with_text) == ean13_spec(seq!['0'] + d, with_text),
{
    let z = seq!['0'] + d;
    assert(all_digits(z)) by {
        assert forall|i: int| 0 <= i < z.len() implies is_digit(#[trigger] z[i]) by {
            if i > 0 {
                assert(z[i] == d[i - 1]);
            }
        }
    }
    lemma_digits_of_identity(d);
    lemma_digits_of_identity(z);
    lemma_gs1_check_char_digit(d);
    if d.len() == 11 {
        let c = gs1_check_char(d);
        let e = d.push(c);
        let ze = seq!['0'] + e;
        assert(ze.drop_last() =~= z);
        lemma_weighted_sum_leading_zero(d);
        assert(all_digits(ze)) by {
            assert forall|i: int| 0 <= i < ze.len() implies is_digit(#[trigger] ze[i]) by {
                if i > 0 && i < 12 {
                    assert(ze[i] == d[i - 1]);
                }
            }
        }
        lemma_digits_of_identity(ze);
        assert(z.push(gs1_check_char(z)) =~= ze);
    } else {
        assert(z.drop_last() =~= seq!['0'] + d.drop_last());
        lemma_weighted_sum_leading_zero(d.drop_last());
    }
}

/// Encode a Marks & Spencer code: 7 or 8 digits; a 7-digit payload gets a
/// leading `0`, then the result is drawn as EAN-8.
pub fn encode_mands(data: &str, opts: &Options) -> (r: Result<LinearPattern, Error>)
    ensures
        linear_result(r, mands_spec(data@, opts.include_text)),
{
    let digits = digits_only(data);
    let n = digits.as_str().unicode_len();
    if n != 7 && n != 8 {
        let mut msg = String::from_str("M&S: expected 7 or 8 digits, got ");
        push_decimal(&mut msg, n as u64);
        return Err(Error::InvalidData(msg));
    }
    let padded = if n == 7 {
        let mut p = String::from_str("0");
        p.append(digits.as_str());
        proof {
            reveal_strlit("0");
            assert(p@ =~= seq!['0'] + digits@);
        }
        p
    } else {
        digits
    };
    proof {
        assert(digits_of(padded@) == padded@) by {
            lemma_digits_of_all_digits(data@);
            if n == 7 {
                assert(all_digits(padded@));
            }
            lemma_digits_of_identity(padded@);
        }
    }
    encode_ean8(padded.as_str(), opts)
}

/// `digits_of` leaves an all-digit string unchanged.
pub proof fn lemma_digits_of_identity(s: Seq<char>)
    requires
        all_digits(s),
    ensures
        digits_of(s) == s,
    decreases s.len(),
{
    if s.len() > 0 {
        lemma_digits_of_identity(s.drop_last());
        assert(s.drop_last().push(s.last()) =~= s);
    }
}

/// Encode an EAN-8 payload (7 or 8 digits).
pub fn encode_ean8(data: &str, opts: &Options) -> (r: Result<LinearPattern, Error>)
    ensures
        linear_result(r, ean8_spec(data@, opts.include_text)),
{
    let digits = normalize(data, 8, "EAN-8")?;
    proof {
        lemma_digits_of_all_digits(data@);
        lemma_gs1_check_char_digit(digits_of(data@));
    }
    let ds = digits.as_str();
    assert(ds@.len() == 8);
    assert(all_digits(ds@));
    let mut modules = String::from_str(NORMAL_GUARD);
    append_table_run(&mut modules, ds, 0, 4, &L_PATTERNS);
    modules.append(CENTER_GUARD);
    append_table_run(&mut modules, ds, 4, 8, &R_PATTERNS);
    modules.append(NORMAL_GUARD);
    proof {
        assert(modules@ =~= ean8_modules(ds@));
    }
    let text = if opts.include_text {
        Some(digits)
    } else {
        None
    };
    Ok(LinearPattern::from_modules(modules.as_str(), text))
}

/// Encode a UPC-A payload (11 or 12 digits): the EAN-13 of the digits with
/// a leading `0`.
pub fn encode_upca(data: &str, opts: &Options) -> (r: Result<LinearPattern, Error>)
    ensures
        linear_result(r, upca_spec(data@, opts.include_text)),
{
    let digits = normalize(data, 12, "UPC-A")?;
    let mut padded = String::from_str("0");
    padded.append(digits.as_str());
    proof {
        reveal_strlit("0");
        assert(padded@ =~= seq!['0'] + digits@);
    }
    encode_ean13(padded.as_str(), opts)
}

/// Encode a UPC-E payload (7 or 8 digits; the check digit comes from the
/// expanded UPC-A form). The symbol uses UPC-E's native layout.
pub fn encode_upce(data: &str, opts: &Options) -> (r: Result<LinearPattern, Error>)
    ensures
        linear_result(r, upce_spec(data@, opts.include_text)),
{
    let digits = digits_only(data);
    let n = digits.as_str().unicode_len();
    proof {
        lemma_digits_of_all_digits(data@);
    }
    let body: String = if n == 7 {
        let upca = upce_to_upca(digits.as_str())?;
        proof {
            lemma_upce_expansion_digits(digits@);
            lemma_weighted_sum_bound(upca@);
        }
        let check = gs1_check(upca.as_str());
        let mut b = digits;
        push_char(&mut b, check);
        b
    } else if n == 8 {
        let head = digits.as_str().substring_char(0, 7);
        let upca = upce_to_upca(head)?;
        proof {
            lemma_upce_expansion_digits(head@);
            lemma_weighted_sum_bound(upca@);
        }
        let computed = gs1_check(upca.as_str());
        let supplied = digits.as_str().get_char(7);
        if supplied != computed {
            let mut msg = String::from_str("UPC-E: supplied check digit ");
            push_char(&mut msg, supplied);
            msg.append(" does not match computed ");
            push_char(&mut msg, computed);
            msg.append(" (via UPC-A expansion ");
            msg.append(upca.as_str());
            push_char(&mut msg, computed);
            msg.append(")");
            proof {
                assert(head@ =~= digits@.subrange(0, 7));
                assert(supplied == digits@.last());
                assert(msg@ =~= "UPC-E: supplied check digit "@ + seq![digits@.last()] + " does not match computed "@
                    + seq![computed] + " (via UPC-A expansion "@ + upca@ + seq![computed] + ")"@);
            }
            return Err(Error::InvalidData(msg));
        }
        proof {
            assert(digits@.last() == supplied);
        }
        digits
    } else {
        let mut msg = String::from_str("UPC-E: expected 7 or 8 digits, got ");
        push_decimal(&mut msg, n as u64);
        return Err(Error::InvalidData(msg));
    };
    let bs = body.as_str();
    proof {
        if n == 7 {
            lemma_upce_expansion_digits(digits_of(data@));
            if let Ok(e) = upce_expansion(digits_of(data@)) {
                lemma_gs1_check_char_digit(e);
            }
        }
        assert(all_digits(bs@));
        assert(bs@.len() == 8);
    }
    let ns_char = bs.get_char(0);
    if ns_char != '0' && ns_char != '1' {
        proof {
            lemma_upce_expansion_digits(bs@.subrange(0, 7));
        }
        return Err(Error::InvalidData(String::from_str("UPC-E: number system digit must be 0 or 1")));
    }
    let ns: u8 = if ns_char == '0' { 48 } else { 49 };
    let check = digit(bs.get_char(7));
    let parity = parity_for_upce(ns, check);
    let mut modules = String::from_str(NORMAL_GUARD);
    append_parity_run(&mut modules, bs, parity.as_str(), 1, 6, 'O');
    modules.append(UPCE_END_GUARD);
    proof {
        assert(bs@[0] as u8 == ns);
        assert(modules@ =~= upce_modules(bs@));
    }
    let text = if opts.include_text { Some(body) } else { None };
    Ok(LinearPattern::from_modules(modules.as_str(), text))
}

/// A successful expansion is eleven digits and implies a `0`/`1` number
/// system.
pub proof fn lemma_upce_expansion_digits(u: Seq<char>)
    ensures
        upce_expansion(u) matches Ok(e) ==> {
            &&& all_digits(e)
            &&& e.len() == 11
            &&& (u[0] == '0' || u[0] == '1')
        },
{
    if let Ok(e) = upce_expansion(u) {
        assert(all_digits(u));
        assert(vstd::utf8::is_ascii_chars(u)) by {
            assert forall|j: int| 0 <= j < u.len() implies '\0' <= #[trigger] u[j] <= '\u{7f}' by {
                assert(is_digit(u[j]));
            }
        }
        vstd::utf8::is_ascii_chars_encode_utf8(u);
        assert(is_digit(u[0]) && is_digit(u[1]) && is_digit(u[2]) && is_digit(u[3]));
        assert(is_digit(u[4]) && is_digit(u[5]) && is_digit(u[6]));
        assert(all_digits(e));
    }
}

/// The 6-character `O`/`E` parity pattern for a UPC-E body.
pub fn parity_for_upce(number_system: u8, check_digit: usize) -> (r: String)
    requires
        check_digit < 10,
    ensures
        r@ == upce_parity(number_system, check_digit as int),
        r@.len() == 6,
{
    let base = UPCE_PARITY_NS0[check_digit];
    proof {
        reveal_strlit("EEEOOO");
        reveal_strlit("EEOEOO");
        reveal_strlit("EEOOEO");
        reveal_strlit("EEOOOE");
        reveal_strlit("EOEEOO");
        reveal_strlit("EOOEEO");
        reveal_strlit("EOOOEE");
        reveal_strlit("EOEOEO");
        reveal_strlit("EOEOOE");
        reveal_strlit("EOOEOE");
    }
    if number_system == 48 {
        String::from_str(base)
    } else {
        let mut out = String::new();
        let n = base.unicode_len();
        let mut i: usize = 0;
        while i < n
            invariant
                n == base@.len(),
                i <= n,
                out@ == base@.subrange(0, i as int).map_values(|c: char| swap_oe(c)),
            decreases n - i,
        {
            let c = base.get_char(i);
            let s = if c == 'O' {
                'E'
            } else if c == 'E' {
                'O'
            } else {
                c
            };
            push_char(&mut out, s);
            proof {
                assert(out@ =~= base@.subrange(0, i + 1).map_values(|c: char| swap_oe(c)));
            }
            i = i + 1;
        }
        proof {
            assert(base@.subrange(0, n as int) =~= base@);
        }
        out
    }
}

/// Expand a 7-digit UPC-E body to its 11-digit UPC-A body (no check digit).
pub fn upce_to_upca(upce7: &str) -> (r: Result<String, Error>)
    ensures
        string_result(r, upce_expansion(upce7@)),
{
    let bytes = upce7.as_bytes();
    if bytes.len() != 7 {
        return Err(Error::InvalidData(String::from_str("UPC-E expansion requires a 7-digit body")));
    }
    let n = upce7.unicode_len();
    let mut i: usize = 0;
    while i < n
        invariant
            n == upce7@.len(),
            vstd::utf8::encode_utf8(upce7@).len() == 7,
            i <= n,
            forall|j: int| 0 <= j < i ==> is_digit(#[trigger] upce7@[j]),
        decreases n - i,
    {
        let c = upce7.get_char(i);
        if !('0' <= c && c <= '9') {
            return Err(Error::InvalidData(String::from_str("UPC-E: non-digit in body")));
        }
        i = i + 1;
    }
    proof {
        assert(vstd::utf8::is_ascii_chars(upce7@)) by {
            assert forall|j: int| 0 <= j < upce7@.len() implies '\0' <= #[trigger] upce7@[j] <= '\u{7f}' by {
                assert(is_digit(upce7@[j]));
            }
        }
        vstd::utf8::is_ascii_chars_encode_utf8(upce7@);
    }
    let ns = upce7.get_char(0);
    if ns != '0' && ns != '1' {
        return Err(Error::InvalidData(String::from_str("UPC-E: number system digit must be 0 or 1")));
    }
    let m0 = upce7.get_char(1);
    let m1 = upce7.get_char(2);
    let m2 = upce7.get_char(3);
    let m3 = upce7.get_char(4);
    let m4 = upce7.get_char(5);
    let last = upce7.get_char(6);
    let mut out = String::new();
    push_char(&mut out, ns);
    push_char(&mut out, m0);
    if last == '0' || last == '1' || last == '2' {
        push_char(&mut out, m1);
        push_char(&mut out, last);
        push_zeros(&mut out, 4);
        push_char(&mut out, m2);
        push_char(&mut out, m3);
        push_char(&mut out, m4);
    } else if last == '3' {
        push_char(&mut out, m1);
        push_char(&mut out, m2);
        push_zeros(&mut out, 5);
        push_char(&mut out, m3);
        push_char(&mut out, m4);
    } else if last == '4' {
        push_char(&mut out, m1);
        push_char(&mut out, m2);
        push_char(&mut out, m3);
        push_zeros(&mut out, 5);
        push_char(&mut out, m4);
    } else {
        push_char(&mut out, m1);
        push_char(&mut out, m2);
        push_char(&mut out, m3);
        push_char(&mut out, m4);
        push_zeros(&mut out, 4);
        push_char(&mut out, last);
    }
    proof {
        if let Ok(e) = upce_expansion(upce7@) {
            assert(out@ =~= e);
        }
    }
    Ok(out)
}

/// Appends `n` zero characters.
fn push_zeros(s: &mut String, n: usize)
    ensures
        final(s)@ == old(s)@ + zeros(n as nat),
{
    let mut i: usize = 0;
    while i < n
        invariant
            i <= n,
            s@ == old(s)@ + zeros(i as nat),
        decreases n - i,
    {
        push_char(s, '0');
        proof {
            assert(s@ =~= old(s)@ + zeros((i + 1) as nat));
        }
        i = i + 1;
    }
}

} // verus!
