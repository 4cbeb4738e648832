use bwipp::ean_addons::{
    digit, encode_ean2, encode_ean5, pattern_for, ADDON_SEP, ADDON_START, G_PATTERNS, L_PATTERNS,
};
use bwipp::encoding::LinearPattern;
use bwipp::error::Error;
use bwipp::options::Options;

fn module_string(p: &LinearPattern) -> String {
    let mut s = String::new();
    let mut bar = true;
    for &w in &p.bars {
        let m = if bar { '1' } else { '0' };
        for _ in 0..w {
            s.push(m);
        }
        bar = !bar;
    }
    s
}

#[test]
fn digit_and_pattern_for_direct_anchors() {
    for (i, c) in ('0'..='9').enumerate() {
        assert_eq!(digit(c).unwrap(), i, "digit({c:?}) = {i}");
    }
    let err_a = digit('a').unwrap_err();
    match err_a {
        Error::InvalidData(msg) => {
            assert!(
                msg.contains("EAN add-on"),
                "rejection diagnostic must carry the EAN add-on prefix; got {msg}"
            );
            assert!(
                msg.contains("accepts digits only"),
                "rejection diagnostic must carry the predicate; got {msg}"
            );
            assert!(
                msg.contains("(got 'a')"),
                "rejection diagnostic must Debug-echo the offending char; got {msg}"
            );
        }
        other => panic!("digit('a'): expected InvalidData, got {other:?}"),
    }
    for c in ['f', 'A', ' ', '!', '/', ':'] {
        match digit(c).unwrap_err() {
            Error::InvalidData(msg) => {
                assert!(
                    msg.contains("EAN add-on"),
                    "digit({c:?}): missing `EAN add-on` prefix: {msg}"
                );
                assert!(
                    msg.contains("accepts digits only"),
                    "digit({c:?}): missing `accepts digits only` predicate: {msg}"
                );
                let expected = format!("(got {c:?})");
                assert!(
                    msg.contains(&expected),
                    "digit({c:?}): missing `{expected}` char echo: {msg}"
                );
            }
            other => panic!("digit({c:?}): expected InvalidData, got {other:?}"),
        }
    }

    assert_eq!(
        pattern_for(0, 'L'),
        "0001101",
        "pattern_for(0, 'L') = L_PATTERNS[0]"
    );
    assert_eq!(
        pattern_for(5, 'L'),
        "0110001",
        "pattern_for(5, 'L') = L_PATTERNS[5]"
    );
    assert_eq!(
        pattern_for(9, 'L'),
        "0001011",
        "pattern_for(9, 'L') = L_PATTERNS[9]"
    );
    assert_eq!(
        pattern_for(0, 'G'),
        "0100111",
        "pattern_for(0, 'G') = G_PATTERNS[0]"
    );
    assert_eq!(
        pattern_for(5, 'G'),
        "0111001",
        "pattern_for(5, 'G') = G_PATTERNS[5]"
    );
    assert_ne!(
        pattern_for(0, 'L'),
        pattern_for(0, 'G'),
        "L and G must produce different patterns (arm-swap detector)"
    );
}

#[test]
fn ean2_rejects_wrong_length() {
    match encode_ean2("1", &Options::default()) {
        Err(Error::InvalidData(msg)) => {
            assert!(
                msg.contains("EAN-2 add-on"),
                "1-digit: missing EAN-2 add-on prefix: {msg}"
            );
            assert!(
                msg.contains("must be exactly 2 digits"),
                "1-digit: missing length predicate: {msg}"
            );
            assert!(
                msg.contains("got 1"),
                "1-digit: missing `got 1` value-echo: {msg}"
            );
        }
        other => panic!("1-digit EAN2 should reject as InvalidData, got {other:?}"),
    }
    match encode_ean2("123", &Options::default()) {
        Err(Error::InvalidData(msg)) => {
            assert!(
                msg.contains("EAN-2 add-on"),
                "3-digit: missing EAN-2 add-on prefix: {msg}"
            );
            assert!(
                msg.contains("must be exactly 2 digits"),
                "3-digit: missing length predicate: {msg}"
            );
            assert!(
                msg.contains("got 3"),
                "3-digit: missing `got 3` value-echo: {msg}"
            );
        }
        other => panic!("3-digit EAN2 should reject as InvalidData, got {other:?}"),
    }
}

#[test]
fn ean2_rejects_non_digits() {
    match encode_ean2("AB", &Options::default()) {
        Err(Error::InvalidData(msg)) => {
            assert!(
                msg.contains("EAN-2 add-on"),
                "missing EAN-2 add-on prefix: {msg}"
            );
            assert!(
                msg.contains("must be exactly 2 digits"),
                "missing length predicate: {msg}"
            );
            assert!(msg.contains("got 0"), "missing `got 0` value-echo: {msg}");
        }
        other => panic!("'AB' should reject as InvalidData, got {other:?}"),
    }
}

#[test]
fn ean2_known_pattern_for_05() {
    let p = encode_ean2("05", &Options::default()).unwrap();
    let expected = format!("{ADDON_START}{}{ADDON_SEP}{}", L_PATTERNS[0], G_PATTERNS[5],);
    assert_eq!(module_string(&p), expected);
}

#[test]
fn ean5_rejects_wrong_length() {
    match encode_ean5("1234", &Options::default()) {
        Err(Error::InvalidData(msg)) => {
            assert!(
                msg.contains("EAN-5 add-on"),
                "4-digit: missing EAN-5 add-on prefix: {msg}"
            );
            assert!(
                msg.contains("must be exactly 5 digits"),
                "4-digit: missing length predicate: {msg}"
            );
            assert!(
                msg.contains("got 4"),
                "4-digit: missing `got 4` value-echo: {msg}"
            );
        }
        other => panic!("4-digit EAN5 should reject as InvalidData, got {other:?}"),
    }
    match encode_ean5("123456", &Options::default()) {
        Err(Error::InvalidData(msg)) => {
            assert!(
                msg.contains("EAN-5 add-on"),
                "6-digit: missing EAN-5 add-on prefix: {msg}"
            );
            assert!(
                msg.contains("must be exactly 5 digits"),
                "6-digit: missing length predicate: {msg}"
            );
            assert!(
                msg.contains("got 6"),
                "6-digit: missing `got 6` value-echo: {msg}"
            );
        }
        other => panic!("6-digit EAN5 should reject as InvalidData, got {other:?}"),
    }
}

#[test]
fn ean5_known_check_digit_and_pattern() {
    let p = encode_ean5("12345", &Options::default()).unwrap();
    let parity = "GLGLL";
    let digits = "12345";
    let mut expected = String::new();
    expected.push_str(ADDON_START);
    for (i, (c, par)) in digits.chars().zip(parity.chars()).enumerate() {
        if i > 0 {
            expected.push_str(ADDON_SEP);
        }
        let d = c.to_digit(10).unwrap() as usize;
        expected.push_str(if par == 'L' {
            L_PATTERNS[d]
        } else {
            G_PATTERNS[d]
        });
    }
    assert_eq!(module_string(&p), expected);
}

#[test]
fn ean5_check_digit_weight_roles_and_wrap() {
    fn check(digits: &str) -> u32 {
        let ds: Vec<u32> = digits.chars().map(|c| c.to_digit(10).unwrap()).collect();
        let sum_odd = ds[0] + ds[2] + ds[4];
        let sum_even = ds[1] + ds[3];
        ((sum_odd * 3) + (sum_even * 9)) % 10
    }
    assert_eq!(check("13000"), 0, "sum=30, %10 folds to 0");
    assert_eq!(check("00000"), 0);
    assert_eq!(check("10000"), 3);
    assert_eq!(check("00100"), 3);
    assert_eq!(check("01000"), 9, "weight-role swap detector");
    let p = encode_ean5("13000", &Options::default()).unwrap();
    let mut expected = String::new();
    expected.push_str(ADDON_START);
    let parity = "GGLLL";
    for (i, (c, par)) in "13000".chars().zip(parity.chars()).enumerate() {
        if i > 0 {
            expected.push_str(ADDON_SEP);
        }
        let d = c.to_digit(10).unwrap() as usize;
        expected.push_str(if par == 'L' {
            L_PATTERNS[d]
        } else {
            G_PATTERNS[d]
        });
    }
    assert_eq!(
        module_string(&p),
        expected,
        "encode_ean5('13000') with check=0 parity=GGLLL"
    );
}

#[test]
fn ean2_total_width_matches_spec() {
    let p = encode_ean2("12", &Options::default()).unwrap();
    assert_eq!(module_string(&p).len(), 20);
}

#[test]
fn ean5_total_width_matches_spec() {
    let p = encode_ean5("12345", &Options::default()).unwrap();
    assert_eq!(module_string(&p).len(), 47);
}

#[test]
fn ean2_matches_bwip_js_raw_sbs() {
    let p = encode_ean2("12", &Options::default()).unwrap();
    let want: [u8; 13] = [1, 1, 2, 2, 2, 2, 1, 1, 1, 2, 1, 2, 2];
    assert_eq!(p.bars, want, "ean2 bars mismatch vs bwip-js raw output");
}

#[test]
fn ean5_matches_bwip_js_raw_sbs() {
    let p = encode_ean5("12345", &Options::default()).unwrap();
    let want: [u8; 31] = [
        1, 1, 2, 1, 2, 2, 2, 1, 1, 2, 1, 2, 2, 1, 1, 1, 1, 4, 1, 1, 1, 1, 1, 3, 2, 1, 1, 1, 2,
        3, 1,
    ];
    assert_eq!(p.bars, want, "ean5 bars mismatch vs bwip-js raw output");
}

#[test]
fn digit_addons_returns_result_with_base_10_only() {
    for (i, c) in ('0'..='9').enumerate() {
        assert_eq!(digit(c).unwrap(), i, "'{c}' → Ok({i})");
    }

    assert!(
        digit('A').is_err(),
        "'A' must Err under base 10 (kills base-16 mutant)"
    );
    assert!(
        digit('Z').is_err(),
        "'Z' must Err — kills `c.is_ascii_alphabetic()`/`to_digit(36)` mutations"
    );
    assert!(
        digit('a').is_err(),
        "'a' must Err — kills `to_digit(16)` / case-folding mutations"
    );
    let err_f = digit('f').unwrap_err();
    match err_f {
        Error::InvalidData(msg) => {
            assert!(
                msg.contains("EAN add-on"),
                "'f' rejection must carry the EAN add-on prefix; got {msg}"
            );
            assert!(
                msg.contains("accepts digits only"),
                "'f' rejection must carry the predicate; got {msg}"
            );
            assert!(
                msg.contains("(got 'f')"),
                "'f' rejection must Debug-echo 'f' (kills `{{c:?}}` drop \
                 that would survive at the dedicated 'a' anchor); got {msg}"
            );
        }
        other => panic!("digit('f'): expected InvalidData, got {other:?}"),
    }
    assert!(
        digit(' ').is_err(),
        "' ' must Err — kills `c.is_ascii_whitespace()` accept-as-zero mutation"
    );
    assert!(
        digit('\0').is_err(),
        "NUL must Err — kills `c < ' '` permissive control-char mutation"
    );
    assert!(
        digit('-').is_err(),
        "'-' must Err — kills `c.is_ascii_punctuation()` accept mutations"
    );
    assert!(
        digit('.').is_err(),
        "'.' must Err — kills decimal-point accept mutations that would treat \
         `digit` as a `parse::<f64>`-style helper"
    );
}

#[test]
fn pattern_for_routes_to_l_and_g_per_parity() {
    assert_eq!(pattern_for(0, 'L'), "0001101", "L digit 0 boundary");
    assert_eq!(pattern_for(9, 'L'), "0001011", "L digit 9 boundary");
    assert_eq!(pattern_for(0, 'G'), "0100111", "G digit 0 boundary");
    assert_eq!(pattern_for(9, 'G'), "0010111", "G digit 9 boundary");

    assert_eq!(pattern_for(5, 'L'), "0110001", "L digit 5");
    assert_eq!(pattern_for(5, 'G'), "0111001", "G digit 5");

    for d in 0..10 {
        assert_ne!(
            pattern_for(d, 'L'),
            pattern_for(d, 'G'),
            "L and G patterns for digit {d} must differ"
        );
    }

    for d in 0..10 {
        assert_eq!(pattern_for(d, 'L').len(), 7);
        assert_eq!(pattern_for(d, 'G').len(), 7);
    }
}

#[test]
fn digit_decimal_only_per_char() {
    for c in '0'..='9' {
        let want = (c as u32 - '0' as u32) as usize;
        assert_eq!(digit(c).unwrap(), want, "'{c}' → {want}");
    }

    for c in ['a', 'b', 'c', 'd', 'e', 'f', 'A', 'F'] {
        assert!(
            digit(c).is_err(),
            "'{c}' (hex letter) must Err under base-10 parsing"
        );
    }

    for c in [' ', '!', '-', '.', '/', ':', '@', '[', 'g', 'z', 'Z', 'G'] {
        assert!(digit(c).is_err(), "'{c}' must Err");
    }

    assert!(
        digit('\0').is_err(),
        "NUL (U+0000, byte 0x00) must Err — must NOT be parsed as digit 0 by any `(c as u8) % 10` mutant"
    );
    assert!(
        digit('\t').is_err(),
        "TAB (U+0009, byte 0x09) must Err — must NOT be parsed as digit 9 by any `(c as u8) % 10` mutant"
    );
    assert!(
        digit('é').is_err(),
        "non-ASCII 'é' (U+00E9) must Err — multi-byte UTF-8 must not bypass the ASCII-digit guard"
    );
    assert!(
        digit('\u{0660}').is_err(),
        "Arabic-Indic ZERO '٠' (U+0660) must Err — only ASCII '0'..='9' is a digit, NOT every Unicode 'Nd' codepoint"
    );

    match digit('a').unwrap_err() {
        Error::InvalidData(msg) => {
            assert!(
                msg.contains("EAN add-on"),
                "diagnostic must carry the EAN add-on prefix; got {msg}"
            );
            assert!(
                msg.contains("accepts digits only"),
                "diagnostic must carry the predicate; got {msg}"
            );
            assert!(
                msg.contains("(got 'a')"),
                "diagnostic must Debug-echo the offending char 'a'; got {msg}"
            );
        }
        other => panic!("error must be InvalidData; got {other:?}"),
    }

    let mut values: std::collections::HashSet<usize> = std::collections::HashSet::new();
    for c in '0'..='9' {
        let v = digit(c).unwrap();
        assert!(values.insert(v), "duplicate value {v} for '{c}'");
    }
    assert_eq!(values.len(), 10, "exactly 10 accepted chars → 10 values");

    for c in '0'..'9' {
        let next = char::from_u32(c as u32 + 1).unwrap();
        assert_eq!(
            digit(next).unwrap(),
            digit(c).unwrap() + 1,
            "monotonic: '{}' → {}+1 = {}",
            next,
            digit(c).unwrap(),
            digit(c).unwrap() + 1
        );
    }
}
