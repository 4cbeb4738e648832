use bwipp::error::Error;
use bwipp::gs1_128::{encode, encode_coupon, encode_ean14, encode_sscc18, encode_with_linkage, Linkage};
use bwipp::options::Options;

#[test]
fn encodes_simple_gtin() {
    let p = encode("(01)04012345123456", &Options::default()).expect(
        "encode(\"(01)04012345123456\", default) (canonical AI=01 GTIN-14 → GS1-128 over Code 128 subset C) must succeed",
    );
    assert!(
        p.total_width() > 0,
        "encode(\"(01)04012345123456\") (canonical AI=01 GTIN-14 over GS1-128 Code 128 subset C) must compose into non-empty symbol; got {}",
        p.total_width()
    );
}

#[test]
fn rejects_invalid_ai_format() {
    match encode("01)04012345123456", &Options::default()) {
        Err(Error::InvalidData(msg)) => {
            assert!(
                msg.contains("GS1 parse:"),
                "missing `GS1 parse:` prefix: {msg}"
            );
            assert!(
                msg.contains("expected '('"),
                "missing `expected '('` predicate: {msg}"
            );
            assert!(
                msg.contains("at position 0"),
                "missing `at position 0` value echo: {msg}"
            );
        }
        other => panic!(
            "missing-paren input should reject as InvalidData with GS1 parse diagnostic, got {other:?}"
        ),
    }
}

#[test]
fn rejects_bad_ai_length() {
    match encode("(01)0401234512345", &Options::default()) {
        Err(Error::InvalidData(msg)) => {
            assert!(
                msg.contains("GS1 parse:"),
                "missing `GS1 parse:` prefix: {msg}"
            );
            assert!(
                msg.contains("AI (01)"),
                "missing `AI (01)` AI-token echo: {msg}"
            );
            assert!(
                msg.contains("data length 14, got 13"),
                "missing `data length 14, got 13` predicate + value echo: {msg}"
            );
        }
        other => panic!(
            "13-digit AI 01 should reject as InvalidData with GS1 parse BadLength, got {other:?}"
        ),
    }
}

#[test]
fn sscc18_wraps_with_ai_00() {
    let p = encode_sscc18("106141411234567897", &Options::default()).expect(
        "encode_sscc18(\"106141411234567897\", default) (SSCC-18 18-digit serial → GS1-128 via AI=00 auto-wrap path) must succeed",
    );
    assert!(
        p.total_width() > 0,
        "encode_sscc18(\"106141411234567897\") (18-digit SSCC → GS1-128 via AI=00 auto-wrap) must compose into non-empty symbol; got {}",
        p.total_width()
    );
}

#[test]
fn sscc18_rejects_wrong_length() {
    match encode_sscc18("12345", &Options::default()) {
        Err(Error::InvalidData(msg)) => {
            assert!(msg.contains("SSCC-18:"), "missing `SSCC-18:` prefix: {msg}");
            assert!(
                msg.contains("expected 18 digits"),
                "missing `expected 18 digits` predicate: {msg}"
            );
            assert!(msg.contains("got 5"), "missing `got 5` value echo: {msg}");
        }
        other => panic!("\"12345\" SSCC-18 input should reject as InvalidData, got {other:?}"),
    }
}

#[test]
fn coupon_wraps_with_ai_8110() {
    let p = encode_coupon("106141416543213500110000310123196000", &Options::default()).expect(
        "encode_coupon(36-char coupon payload, default) (UPC Coupon → GS1-128 via AI=8110 auto-wrap path) must succeed",
    );
    assert!(
        p.total_width() > 0,
        "encode_coupon(\"...\") (36-char coupon payload → GS1-128 via AI=8110 auto-wrap) must compose into non-empty symbol; got {}",
        p.total_width()
    );
}

#[test]
fn coupon_rejects_empty() {
    match encode_coupon("", &Options::default()) {
        Err(Error::InvalidData(msg)) => {
            assert!(
                msg.contains("UPC Coupon:"),
                "missing `UPC Coupon:` prefix: {msg}"
            );
            assert!(
                msg.contains("payload is empty"),
                "missing `payload is empty` predicate: {msg}"
            );
            assert!(
                !msg.contains("SSCC-18"),
                "wrong arm — SSCC-18 diagnostic leaked into UPC Coupon empty reject: {msg}"
            );
            assert!(
                !msg.contains("EAN-14"),
                "wrong arm — EAN-14 diagnostic leaked into UPC Coupon empty reject: {msg}"
            );
            assert!(
                !msg.contains("GS1 parse"),
                "wrong arm — GS1 parse leaked into UPC Coupon empty reject (must short-circuit before delegating): {msg}"
            );
        }
        other => panic!("empty UPC Coupon payload should reject as InvalidData, got {other:?}"),
    }
}

#[test]
fn ean14_with_13_digit_input_matches_bwip_js_raw_sbs() {
    let p = encode_ean14("(01)0401234512345", &Options::default()).expect(
        "encode_ean14(\"(01)0401234512345\", default) (EAN-14 13-digit auto-check + 73-bar bwip-js raw SBS oracle) must succeed",
    );
    let want: [u8; 73] = [
        2, 1, 1, 2, 3, 2, 4, 1, 1, 1, 3, 1, 2, 2, 2, 1, 2, 2, 1, 2, 1, 3, 2, 2, 2, 2, 2, 1, 2,
        2, 3, 1, 2, 1, 3, 1, 1, 1, 3, 1, 2, 3, 1, 1, 2, 2, 3, 2, 1, 3, 1, 1, 2, 3, 3, 3, 1, 1,
        2, 1, 3, 2, 2, 1, 1, 2, 2, 3, 3, 1, 1, 1, 2,
    ];
    assert_eq!(p.bars.as_slice(), want.as_slice());
}

#[test]
fn ean14_accepts_14_digit_input_with_correct_check() {
    let p13 = encode_ean14("0401234512345", &Options::default()).expect(
        "encode_ean14(\"0401234512345\", default) (EAN-14 13-digit auto-check baseline; check=6 computed) must succeed",
    );
    let p14 = encode_ean14("04012345123456", &Options::default()).expect(
        "encode_ean14(\"04012345123456\", default) (EAN-14 14-digit pass-through; check=6 already present) must succeed",
    );
    assert_eq!(
        p13.bars, p14.bars,
        "13/14-digit forms must produce same bars"
    );
}

#[test]
fn ean14_rejects_wrong_check_digit() {
    match encode_ean14("04012345123455", &Options::default()) {
        Err(Error::InvalidData(msg)) => {
            assert!(
                msg.contains("EAN-14:"),
                "missing `EAN-14:` family prefix: {msg}"
            );
            assert!(
                msg.contains("incorrect check digit"),
                "missing `incorrect check digit` predicate: {msg}"
            );
            assert!(
                msg.contains("expected 6"),
                "missing `expected 6` computed-check echo: {msg}"
            );
            assert!(
                msg.contains("got 5"),
                "missing `got 5` supplied-check echo: {msg}"
            );
            assert!(
                !msg.contains("expected 13 or 14 digits"),
                "wrong arm — length-mismatch diagnostic leaked: {msg}"
            );
        }
        other => {
            panic!("`04012345123455` (bad check 5) should reject as InvalidData, got {other:?}")
        }
    }
}

#[test]
fn ean14_rejects_short_input() {
    match encode_ean14("12345", &Options::default()) {
        Err(Error::InvalidData(msg)) => {
            assert!(msg.contains("EAN-14:"), "missing `EAN-14:` prefix: {msg}");
            assert!(
                msg.contains("expected 13 or 14 digits"),
                "missing `expected 13 or 14 digits` predicate: {msg}"
            );
            assert!(msg.contains("got 5"), "missing `got 5` value echo: {msg}");
        }
        other => panic!("\"12345\" EAN-14 input should reject as InvalidData, got {other:?}"),
    }
}

#[test]
fn ean14_check_digit_outer_modulo_fold_at_wraparound() {
    let p_zeros = encode_ean14("0000000000000", &Options::default())
        .expect("13 zeros should encode (check = 0 via outer % 10 fold)");
    assert!(
        p_zeros.total_width() > 0,
        "encoded symbol must have non-zero width"
    );
    let p_14_zeros = encode_ean14("00000000000000", &Options::default())
        .expect("14 zeros with explicit check '0' must accept");
    assert_eq!(
        p_zeros.bars, p_14_zeros.bars,
        "13/14-digit forms must agree when check folds to 0"
    );

    let p_55 = encode_ean14("5000000000005", &Options::default())
        .expect("13 digits 5000000000005 should encode (sum=30, check=0 via wrap)");
    let p_14_55 = encode_ean14("50000000000050", &Options::default())
        .expect("14-digit form with check '0' must agree");
    assert_eq!(
        p_55.bars, p_14_55.bars,
        "13/14-digit forms must agree at the second wrap anchor"
    );

    let p_9 = encode_ean14("9999999999991", &Options::default())
        .expect("13 9s + trailing 1 → check 1 (sum=219, 219%10=9, (10-9)%10=1)");
    let p_14_9 = encode_ean14("99999999999911", &Options::default())
        .expect("14-digit form with check '1' must accept");
    assert_eq!(
        p_9.bars, p_14_9.bars,
        "13/14-digit forms must agree at the discriminator anchor"
    );
    assert!(
        matches!(
            encode_ean14("99999999999913", &Options::default()),
            Err(Error::InvalidData(_))
        ),
        "the weight-swap mutant's check value '3' must be rejected by the original"
    );
}

#[test]
fn ean14_accepts_parenthesized_and_unprefixed_forms() {
    let p = encode_ean14("(01)04012345123456", &Options::default()).expect(
        "encode_ean14(\"(01)04012345123456\", default) (EAN-14 paren-prefixed 14-digit form; must equal bare form) must succeed",
    );
    let q = encode_ean14("04012345123456", &Options::default()).expect(
        "encode_ean14(\"04012345123456\", default) (EAN-14 bare-digit 14-form; must equal paren form) must succeed",
    );
    assert_eq!(p.bars, q.bars);
}

#[test]
fn encode_with_linkage_a_matches_bwip_js() {
    let p = encode_with_linkage("(01)04012345123456", &Options::default(), Linkage::A).expect(
        "encode_with_linkage(\"(01)04012345123456\", Linkage::A) (GS1-128 Linkage::A 79-element SBS bwip-js oracle; pushes Token::LinkA after data) must succeed",
    );
    let want_sbs: [u8; 79] = [
        2, 1, 1, 2, 3, 2, 4, 1, 1, 1, 3, 1, 2, 2, 2, 1, 2, 2, 1, 2, 1, 3, 2, 2, 2, 2, 2, 1, 2,
        2, 3, 1, 2, 1, 3, 1, 1, 1, 3, 1, 2, 3, 1, 1, 2, 2, 3, 2, 1, 3, 1, 1, 2, 3, 3, 3, 1, 1,
        2, 1, 3, 1, 1, 1, 4, 1, 1, 3, 2, 2, 1, 2, 2, 3, 3, 1, 1, 1, 2,
    ];
    assert_eq!(p.bars.len(), want_sbs.len());
    for (i, (got, want)) in p.bars.iter().zip(want_sbs.iter()).enumerate() {
        assert_eq!(*got, *want, "sbs[{i}] mismatch");
    }
}

#[test]
fn encode_with_linkage_none_matches_plain_encode() {
    let plain = encode("(01)04012345123456", &Options::default()).expect(
        "encode(\"(01)04012345123456\", default) (GS1-128 plain-encode baseline for Linkage::Standalone equivalence) must succeed",
    );
    let linked = encode_with_linkage("(01)04012345123456", &Options::default(), Linkage::Standalone)
        .expect(
            "encode_with_linkage(\"(01)04012345123456\", Linkage::Standalone) (GS1-128 Linkage::Standalone must be identical to plain encode; no Token::LinkA/LinkC pushed) must succeed",
        );
    assert_eq!(plain.bars, linked.bars);
}

#[test]
fn encode_with_linkage_c_is_distinct_from_a_and_none() {
    let none = encode_with_linkage("(01)04012345123456", &Options::default(), Linkage::Standalone)
        .expect(
            "encode_with_linkage(..., Linkage::Standalone) (GS1-128 3-arm distinctness baseline: no Token::Link pushed) must succeed",
        );
    let link_a = encode_with_linkage("(01)04012345123456", &Options::default(), Linkage::A)
        .expect(
            "encode_with_linkage(..., Linkage::A) (GS1-128 3-arm distinctness: pushes Token::LinkA; must differ from None and C) must succeed",
        );
    let link_c = encode_with_linkage("(01)04012345123456", &Options::default(), Linkage::C)
        .expect(
            "encode_with_linkage(..., Linkage::C) (GS1-128 3-arm distinctness: pushes Token::LinkC; transitively via composite::encode_gs1_128_ccc; must differ from None and A) must succeed",
        );

    assert!(
        link_c.bars.len() > none.bars.len(),
        "Linkage::C must add a linkage codeword vs None ({} <= {})",
        link_c.bars.len(),
        none.bars.len()
    );

    assert_ne!(
        link_c.bars, link_a.bars,
        "Linkage::A and Linkage::C must emit different codewords"
    );

    assert_ne!(
        link_c.bars, none.bars,
        "Linkage::C must NOT equal Linkage::Standalone — the linkage \
         codeword must actually be appended"
    );

    assert_eq!(
        link_c.bars.len(),
        link_a.bars.len(),
        "Linkage::A and Linkage::C must produce same-length \
         symbols (same codeword count)"
    );
}

#[test]
fn multi_ai_payload_with_fnc1_separator() {
    let p = encode("(10)A1B2(01)04012345123456", &Options::default()).expect(
        "encode(\"(10)A1B2(01)04012345123456\", default) (multi-AI: variable-length AI=10 batch ID + FNC1 separator + AI=01 GTIN-14) must succeed",
    );
    assert!(
        p.total_width() > 0,
        "encode(\"(10)A1B2(01)04012345123456\") (variable-length AI 10 + FNC1 separator + AI 01 GTIN) must compose into non-empty GS1-128 symbol; got {}",
        p.total_width()
    );
}

#[test]
fn gs1_128_matches_bwip_js_raw_sbs() {
    let p = encode("(01)04012345123456", &Options::default()).expect(
        "encode(\"(01)04012345123456\", default) (GS1-128 byte-for-byte 73-bar SBS bwip-js raw oracle; pins pick_initial_subset FNC1-transparency → Subset C) must succeed",
    );
    let want: [u8; 73] = [
        2, 1, 1, 2, 3, 2, 4, 1, 1, 1, 3, 1, 2, 2, 2, 1, 2, 2, 1, 2, 1, 3, 2, 2, 2, 2, 2, 1, 2,
        2, 3, 1, 2, 1, 3, 1, 1, 1, 3, 1, 2, 3, 1, 1, 2, 2, 3, 2, 1, 3, 1, 1, 2, 3, 3, 3, 1, 1,
        2, 1, 3, 2, 2, 1, 1, 2, 2, 3, 3, 1, 1, 1, 2,
    ];
    assert_eq!(p.bars, want, "gs1-128 bars mismatch vs bwip-js raw output");
}

#[test]
fn matches_bwip_js_multi_ai() {
    let cases: &[(&str, &[u8])] = &[
        (
            "(01)90012345678908(3103)001750",
            &[
                2, 1, 1, 2, 3, 2, 4, 1, 1, 1, 3, 1, 2, 2, 2, 1, 2, 2, 2, 1, 4, 1, 2, 1, 2, 2,
                2, 1, 2, 2, 3, 1, 2, 1, 3, 1, 1, 1, 3, 1, 2, 3, 1, 4, 1, 1, 2, 2, 2, 1, 2, 1,
                4, 1, 1, 3, 2, 2, 1, 2, 2, 1, 2, 3, 2, 1, 1, 2, 1, 2, 2, 3, 2, 1, 2, 2, 2, 2,
                1, 2, 3, 2, 2, 1, 2, 3, 1, 1, 3, 1, 2, 1, 2, 1, 4, 1, 2, 3, 3, 1, 1, 1, 2,
            ],
        ),
        (
            "(01)04012345123456(17)211231",
            &[
                2, 1, 1, 2, 3, 2, 4, 1, 1, 1, 3, 1, 2, 2, 2, 1, 2, 2, 1, 2, 1, 3, 2, 2, 2, 2,
                2, 1, 2, 2, 3, 1, 2, 1, 3, 1, 1, 1, 3, 1, 2, 3, 1, 1, 2, 2, 3, 2, 1, 3, 1, 1,
                2, 3, 3, 3, 1, 1, 2, 1, 1, 2, 3, 2, 2, 1, 2, 1, 3, 2, 1, 2, 1, 1, 2, 2, 3, 2,
                2, 1, 2, 3, 2, 1, 2, 1, 1, 3, 3, 1, 2, 3, 3, 1, 1, 1, 2,
            ],
        ),
    ];
    for &(text, want) in cases {
        let got = encode(text, &Options::default()).unwrap_or_else(|e| {
            panic!(
                "encode({text:?}, default) (GS1-128 multi-AI corpus row: AI 01 + 3103 or AI 01 + 17 with FNC1 separator) must succeed: {e:?}",
            )
        });
        assert_eq!(got.bars, want, "gs1-128 sbs mismatch for {text:?}");
    }
}

#[test]
fn ean14_weighting_arithmetic_distinguishes_check_digit() {
    let result = encode_ean14("12345678901231", &Options::default());
    assert!(
        result.is_ok(),
        "encode_ean14(\"12345678901231\") should accept the supplied check digit '1' \
         which is the BWIPP-spec mod-10 result; the encoder's `i % 2` weighting may have flipped"
    );
    assert!(
        matches!(
            encode_ean14("12345678901239", &Options::default()),
            Err(Error::InvalidData(_))
        ),
        "encode_ean14(\"12345678901239\") should reject — '9' is the mutant's check digit"
    );
}
