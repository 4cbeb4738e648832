//! QR Code: the `eclevel` / `version` options, the search for the smallest
//! version that holds a payload, and the plain QR Code encoder.

use vstd::prelude::*;

use vstd::utf8::encode_utf8;

use crate::encoding::BitMatrix;
use crate::error::Error;
use crate::matrix::{is_qr_matrix, matrix_from_qr};
use crate::options::{option_value, Options};
use crate::substrate::{
    qr_encode_gs1, qr_encode_plain, qr_gs1_symbol, qr_modules_ok, qr_plain_symbol, qr_result_view,
    QrEc, QrModules, QrStep,
};
use crate::text::{decimal, push_decimal, str_eq};

verus! {

/// The error-correction level an `eclevel` option names (`M` when
/// absent), or the message for an unknown one.
pub open spec fn qr_ec_spec(v: Option<Seq<char>>) -> Result<QrEc, Seq<char>> {
    match v {
        None => Ok(QrEc::M),
        Some(s) => if s == "L"@ {
            Ok(QrEc::L)
        } else if s == "M"@ {
            Ok(QrEc::M)
        } else if s == "Q"@ {
            Ok(QrEc::Q)
        } else if s == "H"@ {
            Ok(QrEc::H)
        } else {
            Err("eclevel="@ + s)
        },
    }
}

/// The letter that names a level: `L`, `M`, `Q` or `H`.
pub open spec fn ec_letter(e: QrEc) -> char {
    match e {
        QrEc::L => 'L',
        QrEc::M => 'M',
        QrEc::Q => 'Q',
        QrEc::H => 'H',
    }
}

/// The level an `eclevel` option gives is the one it names: an accepted
/// option is the single letter of its level, two options that give the
/// same level are the same option, every level can be asked for, and no
/// option means `M`.
pub proof fn law_eclevel_names_its_level(a: Seq<char>, b: Seq<char>, e: QrEc)
    ensures
        qr_ec_spec(Some(a)) matches Ok(x) ==> a == seq![ec_letter(x)],
        qr_ec_spec(Some(a)) == Ok::<QrEc, Seq<char>>(e) && qr_ec_spec(Some(b)) == Ok::<QrEc, Seq<char>>(e)
            ==> a == b,
        qr_ec_spec(Some(seq![ec_letter(e)])) == Ok::<QrEc, Seq<char>>(e),
        qr_ec_spec(None) == Ok::<QrEc, Seq<char>>(QrEc::M),
{
    reveal_strlit("L");
    reveal_strlit("M");
    reveal_strlit("Q");
    reveal_strlit("H");
    assert("L"@ =~= seq!['L']);
    assert("M"@ =~= seq!['M']);
    assert("Q"@ =~= seq!['Q']);
    assert("H"@ =~= seq!['H']);
    assert("M"@[0] != "L"@[0]);
    assert("Q"@[0] != "L"@[0] && "Q"@[0] != "M"@[0]);
    assert("H"@[0] != "L"@[0] && "H"@[0] != "M"@[0] && "H"@[0] != "Q"@[0]);
    match e {
        QrEc::L => {
            assert(seq![ec_letter(e)] == "L"@);
            assert(qr_ec_spec(Some("L"@)) == Ok::<QrEc, Seq<char>>(QrEc::L));
        },
        QrEc::M => {
            assert(seq![ec_letter(e)] == "M"@);
            assert(qr_ec_spec(Some("M"@)) == Ok::<QrEc, Seq<char>>(QrEc::M));
        },
        QrEc::Q => {
            assert(seq![ec_letter(e)] == "Q"@);
            assert(qr_ec_spec(Some("Q"@)) == Ok::<QrEc, Seq<char>>(QrEc::Q));
        },
        QrEc::H => {
            assert(seq![ec_letter(e)] == "H"@);
            assert(qr_ec_spec(Some("H"@)) == Ok::<QrEc, Seq<char>>(QrEc::H));
        },
    }
}

/// The error-correction level of the `eclevel` option.
pub fn qr_ec_level(v: Option<&str>) -> (r: Result<QrEc, Error>)
    ensures
        match (r, qr_ec_spec(opt_str(v))) {
            (Ok(a), Ok(b)) => a == b,
            (Err(Error::InvalidOption(m)), Err(w)) => m@ == w,
            _ => false,
        },
{
    let s = match v {
        None => {
            return Ok(QrEc::M);
        },
        Some(s) => s,
    };
    if str_eq(s, "L") {
        Ok(QrEc::L)
    } else if str_eq(s, "M") {
        Ok(QrEc::M)
    } else if str_eq(s, "Q") {
        Ok(QrEc::Q)
    } else if str_eq(s, "H") {
        Ok(QrEc::H)
    } else {
        let mut m = String::from_str("eclevel=");
        m.append(s);
        proof {
            reveal_strlit("eclevel=");
        }
        Err(Error::InvalidOption(m))
    }
}

/// The characters of an optional string.
pub open spec fn opt_str(v: Option<&str>) -> Option<Seq<char>> {
    match v {
        Some(s) => Some(s@),
        None => None,
    }
}

/// The value of decimal digits.
pub open spec fn digits_value(s: Seq<char>) -> int
    decreases s.len(),
{
    if s.len() == 0 {
        0
    } else {
        digits_value(s.drop_last()) * 10 + (s.last() as int - 48)
    }
}

/// All characters are ASCII digits.
pub open spec fn all_digits(s: Seq<char>) -> bool {
    forall|k: int| 0 <= k < s.len() ==> '0' <= #[trigger] s[k] <= '9'
}

/// The number a string reads as an 8-bit unsigned integer: an optional
/// `+`, one or more digits, at most 255.
pub open spec fn parse_u8_spec(s: Seq<char>) -> Option<int> {
    let body = if s.len() > 0 && s[0] == '+' {
        s.drop_first()
    } else {
        s
    };
    if body.len() == 0 || !all_digits(body) || digits_value(body) > 255 {
        None
    } else {
        Some(digits_value(body))
    }
}

/// The version a `version` option asks for (none when absent), or the
/// message for one that is not a number from 1 to 40.
pub open spec fn qr_version_spec(v: Option<Seq<char>>) -> Result<Option<u8>, Seq<char>> {
    match v {
        None => Ok(None),
        Some(s) => match parse_u8_spec(s) {
            Some(n) => if 1 <= n <= 40 {
                Ok(Some(n as u8))
            } else {
                Err("QR version must be 1..=40, got "@ + decimal(n as nat))
            },
            None => Err("version="@ + s),
        },
    }
}

proof fn lemma_digits_value_mono(s: Seq<char>)
    requires
        all_digits(s),
    ensures
        digits_value(s) >= 0,
        s.len() > 0 ==> digits_value(s) >= digits_value(s.drop_last()),
    decreases s.len(),
{
    if s.len() > 0 {
        lemma_digits_value_mono(s.drop_last());
        assert('0' <= s[s.len() - 1] <= '9');
    }
}

proof fn lemma_digits_value_prefix(s: Seq<char>, k: int)
    requires
        all_digits(s),
        0 <= k <= s.len(),
    ensures
        digits_value(s.subrange(0, k)) <= digits_value(s),
    decreases s.len() - k,
{
    if k < s.len() {
        lemma_digits_value_prefix(s, k + 1);
        let t = s.subrange(0, k + 1);
        assert(t.drop_last() =~= s.subrange(0, k));
        assert(all_digits(t));
        lemma_digits_value_mono(t);
    } else {
        assert(s.subrange(0, k) =~= s);
    }
}

/// Reads a string as an 8-bit unsigned integer.
pub fn parse_u8(s: &str) -> (r: Option<u8>)
    ensures
        match (r, parse_u8_spec(s@)) {
            (Some(a), Some(b)) => a == b,
            (None, None) => true,
            _ => false,
        },
{
    let n = s.unicode_len();
    let mut start: usize = 0;
    if n > 0 && s.get_char(0) == '+' {
        start = 1;
    }
    let ghost body = if s@.len() > 0 && s@[0] == '+' {
        s@.drop_first()
    } else {
        s@
    };
    assert(body =~= s@.subrange(start as int, n as int));
    if start == n {
        return None;
    }
    let mut v: u32 = 0;
    let mut k: usize = start;
    while k < n
        invariant
            n == s@.len(),
            start <= k <= n,
            body == s@.subrange(start as int, n as int),
            body == (if s@.len() > 0 && s@[0] == '+' {
                s@.drop_first()
            } else {
                s@
            }),
            body.len() > 0,
            all_digits(body.subrange(0, k - start)),
            v as int == digits_value(body.subrange(0, k - start)),
            v <= 255,
        decreases n - k,
    {
        let c = s.get_char(k);
        if c < '0' || c > '9' {
            proof {
                assert(body[k - start] == c);
                assert(!('0' <= body[k - start] <= '9'));
                assert(!all_digits(body));
            }
            return None;
        }
        let d = (c as u32) - 48;
        let nv = v * 10 + d;
        proof {
            let t = body.subrange(0, k + 1 - start);
            assert(t.drop_last() =~= body.subrange(0, k - start));
            assert(t.last() == c);
            assert(all_digits(t));
            assert(digits_value(t) == v * 10 + (c as int - 48));
        }
        if nv > 255 {
            proof {
                let t = body.subrange(0, k + 1 - start);
                if all_digits(body) {
                    assert(body.subrange(0, k + 1 - start) =~= t);
                    lemma_digits_value_prefix(body, k + 1 - start);
                }
            }
            return None;
        }
        v = nv;
        k = k + 1;
    }
    assert(body.subrange(0, n - start) =~= body);
    Some(v as u8)
}

/// The version of the `version` option.
pub fn qr_version(v: Option<&str>) -> (r: Result<Option<u8>, Error>)
    ensures
        match (r, qr_version_spec(opt_str(v))) {
            (Ok(a), Ok(b)) => a == b,
            (Err(Error::InvalidOption(m)), Err(w)) => m@ == w,
            _ => false,
        },
{
    let s = match v {
        None => {
            return Ok(None);
        },
        Some(s) => s,
    };
    match parse_u8(s) {
        Some(n) => {
            if 1 <= n && n <= 40 {
                Ok(Some(n))
            } else {
                let mut m = String::from_str("QR version must be 1..=40, got ");
                push_decimal(&mut m, n as u64);
                proof {
                    reveal_strlit("QR version must be 1..=40, got ");
                }
                Err(Error::InvalidOption(m))
            }
        },
        None => {
            let mut m = String::from_str("version=");
            m.append(s);
            proof {
                reveal_strlit("version=");
            }
            Err(Error::InvalidOption(m))
        },
    }
}

/// The name a failing QR step is reported under.
pub open spec fn qr_step_label(step: QrStep) -> Seq<char> {
    match step {
        QrStep::Fnc1FirstPosition => "push_fnc1_first_position: "@,
        QrStep::OptimalData => "push_optimal_data: "@,
        QrStep::Terminator => "push_terminator: "@,
        QrStep::WithBits => "with_bits: "@,
    }
}

/// The report of a failing QR step: its name, then the error's text.
pub fn qr_step_message(step: QrStep, detail: String) -> (m: String)
    ensures
        m@ == qr_step_label(step) + detail@,
{
    proof {
        reveal_strlit("push_fnc1_first_position: ");
        reveal_strlit("push_optimal_data: ");
        reveal_strlit("push_terminator: ");
        reveal_strlit("with_bits: ");
    }
    let mut m = match step {
        QrStep::Fnc1FirstPosition => String::from_str("push_fnc1_first_position: "),
        QrStep::OptimalData => String::from_str("push_optimal_data: "),
        QrStep::Terminator => String::from_str("push_terminator: "),
        QrStep::WithBits => String::from_str("with_bits: "),
    };
    m.append(detail.as_str());
    m
}

/// The symbol of `payload` at version `v` and level `ec`, with or without
/// the FNC1 mode indicator, or the report of the step that failed.
pub open spec fn qr_symbol(gs1: bool, payload: Seq<u8>, v: int, ec: QrEc) -> Result<(usize, Seq<bool>), Seq<char>> {
    let r = if gs1 {
        qr_gs1_symbol(payload, v as u8, ec)
    } else {
        qr_plain_symbol(payload, v as u8, ec)
    };
    match r {
        Ok(m) => Ok(m),
        Err((step, detail)) => Err(qr_step_label(step) + detail),
    }
}

/// Versions `v` to `hi` tried in turn: the first symbol that builds, or
/// the error of the last one tried (`last` when none is left).
pub open spec fn qr_search(
    gs1: bool,
    payload: Seq<u8>,
    ec: QrEc,
    v: int,
    hi: int,
    last: Option<Seq<char>>,
) -> Result<(usize, Seq<bool>), Option<Seq<char>>>
    decreases hi + 1 - v,
{
    if v > hi {
        Err(last)
    } else {
        match qr_symbol(gs1, payload, v, ec) {
            Ok(m) => Ok(m),
            Err(e) => qr_search(gs1, payload, ec, v + 1, hi, Some(e)),
        }
    }
}

proof fn lemma_search_first(gs1: bool, payload: Seq<u8>, ec: QrEc, lo: int, hi: int, last: Option<Seq<char>>)
    ensures
        qr_search(gs1, payload, ec, lo, hi, last) matches Ok(m) ==> exists|v: int|
            lo <= v <= hi && #[trigger] qr_symbol(gs1, payload, v, ec) == Ok::<(usize, Seq<bool>), Seq<char>>(m)
                && forall|u: int| lo <= u < v ==> #[trigger] qr_symbol(gs1, payload, u, ec) is Err,
        qr_search(gs1, payload, ec, lo, hi, last) is Err ==> forall|u: int|
            lo <= u <= hi ==> #[trigger] qr_symbol(gs1, payload, u, ec) is Err,
    decreases hi + 1 - lo,
{
    if lo <= hi {
        match qr_symbol(gs1, payload, lo, ec) {
            Ok(m) => {
                assert(qr_symbol(gs1, payload, lo, ec) == Ok::<(usize, Seq<bool>), Seq<char>>(m));
            },
            Err(e) => {
                lemma_search_first(gs1, payload, ec, lo + 1, hi, Some(e));
                if let Ok(m) = qr_search(gs1, payload, ec, lo, hi, last) {
                    let v = choose|v: int|
                        lo + 1 <= v <= hi && #[trigger] qr_symbol(gs1, payload, v, ec) == Ok::<
                            (usize, Seq<bool>),
                            Seq<char>,
                        >(m) && forall|u: int| lo + 1 <= u < v ==> #[trigger] qr_symbol(gs1, payload, u, ec) is Err;
                    assert(forall|u: int| lo <= u < v ==> #[trigger] qr_symbol(gs1, payload, u, ec) is Err);
                }
            },
        }
    }
}

/// The search gives the symbol of the first version that builds, every
/// earlier version having failed; it fails only when every version in the
/// range fails.
pub proof fn law_first_version_that_builds(gs1: bool, payload: Seq<u8>, ec: QrEc, lo: int, hi: int)
    ensures
        qr_search(gs1, payload, ec, lo, hi, None) matches Ok(m) ==> exists|v: int|
            lo <= v <= hi && #[trigger] qr_symbol(gs1, payload, v, ec) == Ok::<(usize, Seq<bool>), Seq<char>>(m)
                && forall|u: int| lo <= u < v ==> #[trigger] qr_symbol(gs1, payload, u, ec) is Err,
        qr_search(gs1, payload, ec, lo, hi, None) is Err ==> forall|u: int|
            lo <= u <= hi ==> #[trigger] qr_symbol(gs1, payload, u, ec) is Err,
{
    lemma_search_first(gs1, payload, ec, lo, hi, None);
}

/// The versions a request tries: the one asked for, else 1 to 40.
pub open spec fn qr_range(version: Option<u8>) -> (int, int) {
    match version {
        Some(v) => (v as int, v as int),
        None => (1, 40),
    }
}

/// Tries the versions of `version` in turn and returns the first symbol
/// that builds, or the last error.
pub fn qr_first_fit(gs1: bool, payload: &[u8], ec: QrEc, version: Option<u8>) -> (r: Result<
    QrModules,
    Option<String>,
>)
    requires
        version matches Some(v) ==> 1 <= v <= 40,
    ensures
        match (r, qr_search(gs1, payload@, ec, qr_range(version).0, qr_range(version).1, None)) {
            (Ok(m), Ok(w)) => (m.width, m.dark@) == w,
            (Err(Some(e)), Err(Some(w))) => e@ == w,
            (Err(None), Err(None)) => true,
            _ => false,
        },
        r matches Ok(m) ==> m.width <= 177 && m.dark@.len() == m.width * m.width,
{
    let (lo, hi): (u8, u8) = match version {
        Some(v) => (v, v),
        None => (1, 40),
    };
    let mut last: Option<String> = None;
    let mut v: u8 = lo;
    while v <= hi
        invariant
            1 <= lo <= v <= hi + 1,
            hi <= 40,
            (lo as int, hi as int) == qr_range(version),
            qr_search(gs1, payload@, ec, lo as int, hi as int, None) == qr_search(
                gs1,
                payload@,
                ec,
                v as int,
                hi as int,
                match last {
                    Some(s) => Some(s@),
                    None => None,
                },
            ),
        decreases hi + 1 - v,
    {
        let res = if gs1 {
            qr_encode_gs1(payload, v, ec)
        } else {
            qr_encode_plain(payload, v, ec)
        };
        match res {
            Ok(m) => {
                return Ok(m);
            },
            Err((step, detail)) => {
                last = Some(qr_step_message(step, detail));
            },
        }
        v = v + 1;
    }
    Err(last)
}

/// The failure message when no version holds the payload.
pub open spec fn no_fit_message(prefix: Seq<char>, n: nat, suffix: Seq<char>, last: Option<Seq<char>>) -> Seq<char> {
    prefix + decimal(n) + suffix + match last {
        Some(e) => e,
        None => "<unknown>"@,
    }
}

/// Builds the no-fit message.
pub fn no_fit_error(prefix: &str, n: usize, suffix: &str, last: Option<String>) -> (e: Error)
    ensures
        e matches Error::Backend(m) && m@ == no_fit_message(
            prefix@,
            n as nat,
            suffix@,
            match last {
                Some(s) => Some(s@),
                None => None,
            },
        ),
{
    let mut m = String::from_str(prefix);
    push_decimal(&mut m, n as u64);
    m.append(suffix);
    match last {
        Some(s) => m.append(s.as_str()),
        None => {
            m.append("<unknown>");
            proof {
                reveal_strlit("<unknown>");
            }
        },
    }
    Error::Backend(m)
}

/// What the plain QR encoder gives for `data` with `opts`: the symbol's
/// grid at the first version that holds the text's UTF-8 bytes, or the
/// option or no-fit error.
pub open spec fn qr_plain_ok(r: Result<BitMatrix, Error>, data: Seq<char>, opts: Options) -> bool {
    match qr_ec_spec(option_value(opts, "eclevel"@)) {
        Err(w) => r matches Err(Error::InvalidOption(m)) && m@ == w,
        Ok(ec) => match qr_version_spec(option_value(opts, "version"@)) {
            Err(w) => r matches Err(Error::InvalidOption(m)) && m@ == w,
            Ok(vo) => {
                let bytes = encode_utf8(data);
                match qr_search(false, bytes, ec, qr_range(vo).0, qr_range(vo).1, None) {
                    Ok(q) => r matches Ok(m) && is_qr_matrix(m, q),
                    Err(last) => r matches Err(Error::Backend(m)) && m@ == no_fit_message(
                        "QR Code: no version fits payload ("@,
                        bytes.len(),
                        " bytes). Last error: "@,
                        last,
                    ),
                }
            },
        },
    }
}

/// Encodes text as a plain QR Code: level from `eclevel` (default `M`),
/// version from `version` (default: the smallest that holds the text).
pub fn encode(data: &str, opts: &Options) -> (r: Result<BitMatrix, Error>)
    ensures
        qr_plain_ok(r, data@, *opts),
{
    let ec = qr_ec_level(opts.get("eclevel"))?;
    let version = qr_version(opts.get("version"))?;
    let bytes = data.as_bytes();
    match qr_first_fit(false, bytes, ec, version) {
        Ok(q) => Ok(matrix_from_qr(&q)),
        Err(last) => Err(
            no_fit_error("QR Code: no version fits payload (", bytes.len(), " bytes). Last error: ", last),
        ),
    }
}

} // verus!
