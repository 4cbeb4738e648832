use bwipp::ean::{
    digit, digits_only, encode_ean13, encode_ean8, encode_mands, encode_upca, encode_upce, gs1_check,
    normalize, parity_for_upce, upce_to_upca, CENTER_GUARD, L_PATTERNS, NORMAL_GUARD, R_PATTERNS,
    UPCE_END_GUARD,
};
use bwipp::encoding::LinearPattern;
use bwipp::error::Error;
use bwipp::options::Options;

fn module_string(p: &LinearPattern) -> String {
    let mut s = String::new();
    let mut bar = true;
    for &w in &p.bars {
        let m = if bar { '1' } else { '0' };
        for _ in 0..w {
            s.push(m);
        }
        bar = !bar;
    }
    s
}

#[test]
fn ean13_validates_supplied_check_digit() {
    let correct = gs1_check("012345678901");
    let valid = format!("01234567890{}{}", '1', correct);
    let wrong_check = if correct == '0' { '1' } else { '0' };
    let bad = format!("012345678901{wrong_check}");
    match encode_ean13(&bad, &Options::default()) {
        Err(Error::InvalidData(msg)) => {
            assert!(
                msg.contains("EAN-13:"),
                "missing `EAN-13:` family prefix: {msg}"
            );
            assert!(
                msg.contains("supplied check digit"),
                "missing `supplied check digit` predicate: {msg}"
            );
            assert!(
                msg.contains("does not match computed"),
                "missing `does not match computed` predicate: {msg}"
            );
            assert!(
                !msg.contains("UPC-A") && !msg.contains("UPC-E") && !msg.contains("M&S"),
                "cross-family contamination: EAN-13 reject mentions sibling family: {msg}"
            );
        }
        other => panic!("bad-check EAN-13 should reject as InvalidData, got {other:?}"),
    }
    let good = format!("012345678901{correct}");
    encode_ean13(&good, &Options::default()).expect(
        "encode_ean13(<12-digit + computed check>) (EAN-13 accept-after-validation smoke; mirror-check that the supplied-check rejection is value-sensitive, not blanket) must succeed",
    );
    let _ = valid;
}

#[test]
fn ean13_computes_check_digit_when_missing() {
    let p = encode_ean13("012345678901", &Options::default()).expect(
        "encode_ean13(\"012345678901\", default) (EAN-13 12-digit auto-check path: check digit must be computed + appended) must succeed",
    );
    let check = digit(gs1_check("012345678901"));
    let expected = format!(
        "{NORMAL_GUARD}{}{}{}{}{}{}{CENTER_GUARD}{}{}{}{}{}{}{NORMAL_GUARD}",
        L_PATTERNS[1],
        L_PATTERNS[2],
        L_PATTERNS[3],
        L_PATTERNS[4],
        L_PATTERNS[5],
        L_PATTERNS[6],
        R_PATTERNS[7],
        R_PATTERNS[8],
        R_PATTERNS[9],
        R_PATTERNS[0],
        R_PATTERNS[1],
        R_PATTERNS[check],
    );
    assert_eq!(module_string(&p), expected);
}

#[test]
fn upca_validates_supplied_check_digit() {
    let bad = "012345678901";
    let computed = gs1_check("01234567890");
    let supplied = '1';
    if supplied == computed {
        return;
    }
    match encode_upca(bad, &Options::default()) {
        Err(Error::InvalidData(msg)) => {
            assert!(
                msg.contains("UPC-A:"),
                "missing `UPC-A:` family prefix: {msg}"
            );
            assert!(
                msg.contains("supplied check digit"),
                "missing `supplied check digit` predicate: {msg}"
            );
            assert!(
                msg.contains("does not match computed"),
                "missing `does not match computed` predicate: {msg}"
            );
            assert!(
                !msg.contains("EAN-13") && !msg.contains("UPC-E") && !msg.contains("M&S"),
                "cross-family contamination: UPC-A reject mentions sibling family: {msg}"
            );
        }
        other => panic!("bad-check UPC-A should reject as InvalidData, got {other:?}"),
    }
}

#[test]
fn ean8_computes_and_renders_known_pattern() {
    let p = encode_ean8("1234567", &Options::default()).expect(
        "encode_ean8(\"1234567\", default) (EAN-8 7-digit auto-check; computed check=0; module-string pattern cross-check) must succeed",
    );
    let expected = format!(
        "{NORMAL_GUARD}{}{}{}{}{CENTER_GUARD}{}{}{}{}{NORMAL_GUARD}",
        L_PATTERNS[1],
        L_PATTERNS[2],
        L_PATTERNS[3],
        L_PATTERNS[4],
        R_PATTERNS[5],
        R_PATTERNS[6],
        R_PATTERNS[7],
        R_PATTERNS[0],
    );
    assert_eq!(module_string(&p), expected);
}

#[test]
fn upce_native_rendering_smoke() {
    let p = encode_upce("01234565", &Options::default()).expect(
        "encode_upce(\"01234565\", default) (UPC-E native rendering smoke; UPC-E 6-module end guard distinguishes from UPC-A 3-module guard) must succeed",
    );
    let s = module_string(&p);
    assert!(
        s.ends_with(UPCE_END_GUARD),
        "got tail: {}",
        &s[s.len() - 12..]
    );
    assert_eq!(s.len(), 3 + 6 * 7 + 6);
}

#[test]
fn upce_parity_pattern_ns0_check0_is_eeeooo() {
    let p = parity_for_upce(b'0', 0);
    assert_eq!(p, "EEEOOO");
}

#[test]
fn upce_parity_pattern_ns1_check0_is_oooeee() {
    let p = parity_for_upce(b'1', 0);
    assert_eq!(p, "OOOEEE");
}

#[test]
fn parity_for_upce_covers_nonzero_check_digits() {
    assert_eq!(parity_for_upce(b'0', 1), "EEOEOO");
    assert_eq!(parity_for_upce(b'0', 5), "EOOEEO");
    assert_eq!(parity_for_upce(b'0', 9), "EOOEOE");
    assert_eq!(parity_for_upce(b'1', 1), "OOEOEE");
    assert_eq!(
        parity_for_upce(b'1', 5),
        "OEEOOE",
        "ordering matters — a mutant that drops one swap arm \
         would produce a different perm"
    );
    assert_eq!(parity_for_upce(b'1', 9), "OEEOEO");
}

#[test]
fn upce_rejects_bad_check_digit() {
    let computed = gs1_check(&upce_to_upca("0123456").unwrap());
    let wrong = if computed == '0' { '1' } else { '0' };
    let bad = format!("0123456{wrong}");
    match encode_upce(&bad, &Options::default()) {
        Err(Error::InvalidData(msg)) => {
            assert!(
                msg.contains("UPC-E:"),
                "missing `UPC-E:` family prefix: {msg}"
            );
            assert!(
                msg.contains("supplied check digit"),
                "missing `supplied check digit` predicate: {msg}"
            );
            assert!(
                msg.contains("does not match computed"),
                "missing `does not match computed` predicate: {msg}"
            );
            assert!(
                msg.contains("via UPC-A expansion"),
                "missing UPC-E-specific `via UPC-A expansion` echo: {msg}"
            );
            assert!(
                !msg.contains("EAN-13") && !msg.contains("M&S"),
                "cross-family contamination: UPC-E reject mentions EAN-13 or M&S: {msg}"
            );
        }
        other => panic!("bad-check UPC-E should reject as InvalidData, got {other:?}"),
    }
}

#[test]
fn ean13_matches_bwip_js_raw_sbs() {
    let p = encode_ean13("0123456789012", &Options::default()).expect(
        "encode_ean13(\"0123456789012\", default) (EAN-13 byte-for-byte 59-bar SBS bwip-js raw oracle, pre-checked 13-digit payload) must succeed",
    );
    let want: [u8; 59] = [
        1, 1, 1, 2, 2, 2, 1, 2, 1, 2, 2, 1, 4, 1, 1, 1, 1, 3, 2, 1, 2, 3, 1, 1, 1, 1, 4, 1, 1,
        1, 1, 1, 1, 3, 1, 2, 1, 2, 1, 3, 3, 1, 1, 2, 3, 2, 1, 1, 2, 2, 2, 1, 2, 1, 2, 2, 1, 1,
        1,
    ];
    assert_eq!(p.bars, want, "ean13 bars mismatch vs bwip-js raw output");
}

#[test]
fn ean8_matches_bwip_js_raw_sbs() {
    let p = encode_ean8("1234567", &Options::default()).expect(
        "encode_ean8(\"1234567\", default) (EAN-8 byte-for-byte 43-bar SBS bwip-js raw oracle, 7-digit payload + auto-check digit 0) must succeed",
    );
    let want: [u8; 43] = [
        1, 1, 1, 2, 2, 2, 1, 2, 1, 2, 2, 1, 4, 1, 1, 1, 1, 3, 2, 1, 1, 1, 1, 1, 1, 2, 3, 1, 1,
        1, 1, 4, 1, 3, 1, 2, 3, 2, 1, 1, 1, 1, 1,
    ];
    assert_eq!(p.bars, want, "ean8 bars mismatch vs bwip-js raw output");
}

#[test]
fn upca_matches_bwip_js_raw_sbs() {
    let p = encode_upca("01234567890", &Options::default()).expect(
        "encode_upca(\"01234567890\", default) (UPC-A byte-for-byte 59-bar SBS bwip-js raw oracle, 11-digit payload auto-checked) must succeed",
    );
    let want: [u8; 59] = [
        1, 1, 1, 3, 2, 1, 1, 2, 2, 2, 1, 2, 1, 2, 2, 1, 4, 1, 1, 1, 1, 3, 2, 1, 2, 3, 1, 1, 1,
        1, 1, 1, 1, 1, 1, 4, 1, 3, 1, 2, 1, 2, 1, 3, 3, 1, 1, 2, 3, 2, 1, 1, 1, 2, 3, 1, 1, 1,
        1,
    ];
    assert_eq!(p.bars, want, "upca bars mismatch vs bwip-js raw output");
}

#[test]
fn mands_8_digit_matches_bwip_js_raw_sbs() {
    let p = encode_mands("12345670", &Options::default()).expect(
        "encode_mands(\"12345670\", default) (M&S 8-digit pass-through path, equivalent to EAN-8 \"1234567\" oracle) must succeed",
    );
    let want: [u8; 43] = [
        1, 1, 1, 2, 2, 2, 1, 2, 1, 2, 2, 1, 4, 1, 1, 1, 1, 3, 2, 1, 1, 1, 1, 1, 1, 2, 3, 1, 1,
        1, 1, 4, 1, 3, 1, 2, 3, 2, 1, 1, 1, 1, 1,
    ];
    assert_eq!(p.bars, want, "mands bars mismatch vs bwip-js raw output");
}

#[test]
fn mands_7_and_8_digit_forms_match() {
    let p7 = encode_mands("0000000", &Options::default()).expect(
        "encode_mands(\"0000000\", default) (M&S 7-char prepend-0 path: \"0000000\" → \"00000000\" via leading-0 pad) must succeed",
    );
    let p8 = encode_mands("00000000", &Options::default()).expect(
        "encode_mands(\"00000000\", default) (M&S 8-char pass-through path; equivalent target for 7-char prepend-0 form) must succeed",
    );
    assert_eq!(
        p7.bars, p8.bars,
        "M&S 7-char (pad-prepended) and 8-char forms must produce identical bars"
    );
}

#[test]
fn mands_7_digit_with_bad_post_prepend_check_rejects() {
    match encode_mands("1234567", &Options::default()) {
        Err(Error::InvalidData(msg)) => {
            assert!(
                msg.contains("EAN-8:") || msg.contains("M&S"),
                "missing EAN-8 or M&S family prefix: {msg}"
            );
            assert!(
                msg.contains("supplied check digit") || msg.contains("does not match"),
                "missing check-digit predicate: {msg}"
            );
            assert!(
                !msg.contains("expected 7 or 8 digits"),
                "wrong arm — length diagnostic leaked into check-digit arm: {msg}"
            );
        }
        other => panic!(
            "`1234567` with post-prepend bad check should reject as InvalidData, got {other:?}"
        ),
    }
}

#[test]
fn mands_rejects_wrong_length() {
    match encode_mands("12345", &Options::default()) {
        Err(Error::InvalidData(msg)) => {
            assert!(msg.contains("M&S:"), "missing `M&S:` family prefix: {msg}");
            assert!(
                msg.contains("expected 7 or 8 digits"),
                "missing length predicate: {msg}"
            );
            assert!(msg.contains("got 5"), "missing `got 5` length echo: {msg}");
            assert!(
                !msg.contains("supplied check digit"),
                "wrong arm — check-digit diagnostic leaked: {msg}"
            );
        }
        other => panic!("5-digit M&S should reject as InvalidData, got {other:?}"),
    }
}

#[test]
fn digits_only_strips_all_non_digits() {
    assert_eq!(digits_only(""), "");
    assert_eq!(digits_only("12345"), "12345");
    assert_eq!(digits_only("012-345-678-905"), "012345678905");
    assert_eq!(digits_only(" 12 34 "), "1234");
    assert_eq!(digits_only("abc1234567"), "1234567");
    assert_eq!(digits_only("ABCDEF"), "");
    assert_eq!(digits_only("1!2@3#4$5%6^7&8*9(0)"), "1234567890");
    assert_eq!(digits_only("\t\n\r1\t"), "1");
    assert_eq!(
        digits_only("/0123456789:"),
        "0123456789",
        "'/' (just below '0') and ':' (just above '9') must be stripped"
    );
}

#[test]
fn normalize_accepts_both_arities() {
    assert_eq!(normalize("1234567", 8, "EAN-8").unwrap(), "12345670");
    assert_eq!(normalize("12345670", 8, "EAN-8").unwrap(), "12345670");
    match normalize("12345671", 8, "EAN-8") {
        Err(Error::InvalidData(msg)) => {
            assert!(
                msg.contains("EAN-8:"),
                "missing EAN-8 family prefix: {msg:?}"
            );
            assert!(
                msg.contains("supplied check digit 1"),
                "missing supplied-check-digit echo `supplied check digit 1`: {msg:?}"
            );
            assert!(
                msg.contains("does not match computed 0"),
                "missing computed-check echo `does not match computed 0`: {msg:?}"
            );
            assert!(
                !msg.contains("expected 7 or 8"),
                "cross-arm contamination: check-mismatch reject mentions length arm: {msg:?}"
            );
        }
        other => panic!("expected InvalidData(check), got {other:?}"),
    }
    match normalize("123", 8, "EAN-8") {
        Err(Error::InvalidData(msg)) => {
            assert!(
                msg.contains("EAN-8:"),
                "missing EAN-8 family prefix for 3-digit: {msg:?}"
            );
            assert!(
                msg.contains("expected 7 or 8 digits"),
                "missing full predicate for 3-digit: {msg:?}"
            );
            assert!(msg.contains("got 3"), "missing `got 3` value-echo: {msg:?}");
        }
        other => panic!("expected InvalidData(length), got {other:?}"),
    }
    match normalize("", 8, "EAN-8") {
        Err(Error::InvalidData(msg)) => {
            assert!(
                msg.contains("EAN-8:"),
                "missing EAN-8 family prefix for empty: {msg:?}"
            );
            assert!(
                msg.contains("expected 7 or 8 digits"),
                "missing full predicate for empty: {msg:?}"
            );
            assert!(msg.contains("got 0"), "missing `got 0` value-echo: {msg:?}");
        }
        other => panic!("expected InvalidData on empty, got {other:?}"),
    }
    assert_eq!(normalize("abc1234567", 8, "EAN-8").unwrap(), "12345670");
    match normalize("123", 13, "EAN-13") {
        Err(Error::InvalidData(msg)) => {
            assert!(msg.contains("EAN-13"), "missing `EAN-13` prefix: {msg}");
            assert!(
                msg.contains("expected 12 or 13 digits"),
                "missing `expected 12 or 13 digits` length-spec: {msg}"
            );
            assert!(msg.contains("got 3"), "missing `got 3` value echo: {msg}");
            assert!(
                !msg.contains("supplied check digit"),
                "wrong arm — check-digit-mismatch diagnostic leaked into length reject: {msg}"
            );
        }
        other => panic!("expected InvalidData with EAN-13, got {other:?}"),
    }
}

#[test]
fn upce_matches_bwip_js_raw_sbs() {
    let p = encode_upce("01234565", &Options::default()).expect(
        "encode_upce(\"01234565\", default) (UPC-E byte-for-byte 33-bar SBS bwip-js raw oracle, standard test vector) must succeed",
    );
    let want: [u8; 33] = [
        1, 1, 1, 1, 2, 2, 2, 2, 1, 2, 2, 1, 4, 1, 1, 2, 3, 1, 1, 1, 3, 2, 1, 1, 1, 1, 4, 1, 1,
        1, 1, 1, 1,
    ];
    assert_eq!(p.bars, want, "upce bars mismatch vs bwip-js raw output");
}

#[test]
fn upce_to_upca_covers_every_last_digit_branch() {
    for last in b'0'..=b'9' {
        let upce7 = format!("0{}{}{}{}{}{}", '1', '2', '3', '4', '5', last as char);
        assert_eq!(upce7.len(), 7);
        let upca = upce_to_upca(&upce7).unwrap_or_else(|e| {
            panic!("upce_to_upca({upce7}) failed: {e:?}");
        });
        assert_eq!(upca.len(), 11);
        let check = gs1_check(&upca);
        let full_upce = format!("{upce7}{check}");
        assert!(
            encode_upce(&full_upce, &Options::default()).is_ok(),
            "encode_upce rejected a valid UPC-E ({full_upce}); \
             upce_to_upca may have dropped a match arm"
        );
    }
}

#[test]
fn upce_to_upca_arm_specific_expansions() {
    assert_eq!(upce_to_upca("0123450").unwrap(), "01200000345");
    assert_eq!(upce_to_upca("0123451").unwrap(), "01210000345");
    assert_eq!(upce_to_upca("0123452").unwrap(), "01220000345");
    assert_eq!(upce_to_upca("0123453").unwrap(), "01230000045");
    assert_eq!(upce_to_upca("0123454").unwrap(), "01234000005");
    assert_eq!(upce_to_upca("0123455").unwrap(), "01234500005");
    assert_eq!(upce_to_upca("0123458").unwrap(), "01234500008");
    assert_eq!(upce_to_upca("0123459").unwrap(), "01234500009");
    assert_eq!(upce_to_upca("1234560").unwrap(), "12300000456");
}

#[test]
fn upce_rejects_non_zero_non_one_number_system_digit() {
    for ns in b'2'..=b'9' {
        let body = format!("{}123456", ns as char);
        match upce_to_upca(&body) {
            Err(Error::InvalidData(msg)) => assert!(
                msg.contains("UPC-E:")
                    && msg.contains("number system digit")
                    && msg.contains("must be 0 or 1"),
                "upce_to_upca(ns={}): diagnostic missing prefix/predicate/values; got {msg}",
                ns as char
            ),
            other => panic!(
                "upce_to_upca should reject ns={} as InvalidData, got {other:?}",
                ns as char
            ),
        }
        let with_check = format!("{}1234560", ns as char);
        match encode_upce(&with_check, &Options::default()) {
            Err(Error::InvalidData(msg)) => assert!(
                msg.contains("UPC-E:")
                    && msg.contains("number system digit")
                    && msg.contains("must be 0 or 1"),
                "encode_upce(ns={}): diagnostic missing prefix/predicate/values; got {msg}",
                ns as char
            ),
            other => panic!(
                "encode_upce should reject ns={} as InvalidData, got {other:?}",
                ns as char
            ),
        }
    }
}

#[test]
fn digit_all_ascii_digits_round_trip_to_their_usize_value() {
    for (i, c) in ('0'..='9').enumerate() {
        assert_eq!(digit(c), i, "digit({c:?}) must equal {i}");
    }
}

#[test]
fn gs1_check_hand_computed_anchors() {
    assert_eq!(gs1_check(""), '0');

    assert_eq!(gs1_check("0"), '0', "0×3 = 0 → '0'");
    assert_eq!(gs1_check("1"), '7', "1×3 = 3; (10-3)%10 = 7");
    assert_eq!(gs1_check("9"), '3', "9×3 = 27; (10-7)%10 = 3");

    assert_eq!(gs1_check("12"), '3', "rev 21: 2×3 + 1 = 7; (10-7)%10 = 3");

    assert_eq!(gs1_check("123"), '6', "rev 321: 9+2+3 = 14; (10-4)%10 = 6");

    assert_eq!(
        gs1_check("012345678901"),
        '2',
        "12-digit GTIN body → check digit 2 (sum=98, 98%10=8, (10-8)%10=2)"
    );

    assert_eq!(gs1_check("0000000000000"), '0');
}
