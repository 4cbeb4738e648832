use bwipp::ean;
use bwipp::ean_addons;
use bwipp::ean_combined::{
    combine, encode_ean13_p2, encode_ean13_p5, encode_ean8_p2, encode_ean8_p5, encode_isbn_p5,
    encode_issn_p2, encode_upca_p2, encode_upca_p5, encode_upce_p2, encode_upce_p5, split_pair,
    ADDON_GAP_MODULES,
};
use bwipp::encoding::LinearPattern;
use bwipp::error::Error;
use bwipp::options::Options;

#[test]
fn split_requires_exact_addon_length() {
    match split_pair("012345678905 1", 2) {
        Err(Error::InvalidData(msg)) => {
            assert!(
                msg.contains("EAN/UPC add-on:"),
                "missing `EAN/UPC add-on:` prefix: {msg}"
            );
            assert!(
                msg.contains("expected 2-digit add-on"),
                "missing `expected 2-digit add-on` predicate: {msg}"
            );
            assert!(msg.contains("\"1\""), "missing `\"1\"` Debug echo: {msg}");
            assert!(
                !msg.contains("missing main"),
                "wrong arm — missing-main diagnostic leaked: {msg}"
            );
            assert!(
                !msg.contains("exactly two"),
                "wrong arm — extra-tokens diagnostic leaked: {msg}"
            );
        }
        other => {
            panic!("\"012345678905 1\" should reject as InvalidData, got {other:?}")
        }
    }
}

#[test]
fn split_rejects_extra_tokens() {
    match split_pair("012345678905 12 99", 2) {
        Err(Error::InvalidData(msg)) => {
            assert!(
                msg.contains("EAN/UPC add-on:"),
                "missing `EAN/UPC add-on:` prefix: {msg}"
            );
            assert!(
                msg.contains("expected exactly two whitespace-separated fields"),
                "missing `expected exactly two whitespace-separated fields` predicate: {msg}"
            );
            assert!(
                !msg.contains("digit add-on"),
                "wrong arm — addon-length diagnostic leaked: {msg}"
            );
        }
        other => panic!("\"012345678905 12 99\" should reject as InvalidData, got {other:?}"),
    }
}

#[test]
fn combine_alternation_branches_pin_layout() {
    let main = LinearPattern {
        bars: vec![3, 2, 5],
        text: Some("M".into()),
    };
    let addon = LinearPattern {
        bars: vec![1, 1, 1],
        text: Some("A".into()),
    };
    let got = combine(main, addon, 12);
    assert_eq!(
        got.bars,
        vec![3, 2, 5, 12, 1, 1, 1],
        "end-on-bar → push gap as new space"
    );
    assert_eq!(got.text, Some("M A".into()));

    let main = LinearPattern {
        bars: vec![3, 2, 5, 1],
        text: None,
    };
    let addon = LinearPattern {
        bars: vec![1, 1, 1],
        text: Some("A".into()),
    };
    let got = combine(main, addon, 12);
    assert_eq!(
        got.bars,
        vec![3, 2, 5, 13, 1, 1, 1],
        "end-on-space → extend last space width"
    );
    assert_eq!(got.text, Some("A".into()), "None+Some → addon text");

    let main = LinearPattern {
        bars: vec![],
        text: Some("M".into()),
    };
    let addon = LinearPattern {
        bars: vec![1, 2, 3],
        text: None,
    };
    let got = combine(main, addon, 12);
    assert_eq!(got.bars, vec![1, 2, 3]);
    assert_eq!(got.text, None, "empty-main branch keeps addon.text only");

    let got = combine(
        LinearPattern {
            bars: vec![1],
            text: None,
        },
        LinearPattern {
            bars: vec![1],
            text: None,
        },
        12,
    );
    assert_eq!(got.text, None);
}

#[test]
fn ean13_with_2_digit_addon_combines_widths() {
    let m_only = ean::encode_ean13("012345678905", &Options::default())
        .unwrap()
        .total_width();
    let a_only = ean_addons::encode_ean2("12", &Options::default())
        .unwrap()
        .total_width();
    let combined = encode_ean13_p2("012345678905 12", &Options::default())
        .unwrap()
        .total_width();
    assert_eq!(combined, m_only + u32::from(ADDON_GAP_MODULES) + a_only);
}

#[test]
fn ean13_with_5_digit_addon_renders() {
    let p = encode_ean13_p5("012345678905 12345", &Options::default()).unwrap();
    assert!(
        p.total_width() > 0,
        "encode_ean13_p5(\"012345678905 12345\").total_width() must be > 0 — main EAN-13 + 5-digit add-on must compose into a non-empty symbol; got {}",
        p.total_width()
    );
}

#[test]
fn ean8_with_addon() {
    let p2 = encode_ean8_p2("1234567 12", &Options::default()).unwrap();
    let p5 = encode_ean8_p5("1234567 12345", &Options::default()).unwrap();
    assert!(p5.total_width() > p2.total_width());
}

#[test]
fn upca_with_addons() {
    encode_upca_p2("01234567890 12", &Options::default()).unwrap();
    encode_upca_p5("01234567890 12345", &Options::default()).unwrap();
}

#[test]
fn upce_with_addons() {
    encode_upce_p2("01234565 12", &Options::default()).unwrap();
    encode_upce_p5("01234565 12345", &Options::default()).unwrap();
}

#[test]
fn isbn_p5_combines() {
    let p = encode_isbn_p5("978-1-56619-909-4 50995", &Options::default()).unwrap();
    assert!(
        p.total_width() > 0,
        "encode_isbn_p5(\"978-1-56619-909-4 50995\") must compose ISBN-13 + 5-digit price add-on into non-empty symbol; got {}",
        p.total_width()
    );
}

#[test]
fn issn_p2_combines() {
    let p = encode_issn_p2("0317-8471 13", &Options::default()).unwrap();
    assert!(
        p.total_width() > 0,
        "encode_issn_p2(\"0317-8471 13\") must compose ISSN + 2-digit issue-code add-on into non-empty symbol; got {}",
        p.total_width()
    );
}

#[test]
fn isbn_p5_matches_bwipp_sbs() {
    let cases: &[(&str, &[u8])] = &[
        (
            "978-1-56619-909-4 50995",
            &[
                1, 1, 1, 1, 3, 1, 2, 3, 1, 2, 1, 1, 2, 2, 2, 1, 2, 3, 1, 4, 1, 1, 1, 1, 1, 1,
                4, 1, 1, 1, 1, 1, 2, 2, 2, 1, 3, 1, 1, 2, 3, 1, 1, 2, 3, 2, 1, 1, 3, 1, 1, 2,
                1, 1, 3, 2, 1, 1, 1, 12, 1, 1, 2, 1, 2, 3, 1, 1, 1, 1, 1, 2, 3, 1, 1, 3, 1, 1,
                2, 1, 1, 3, 1, 1, 2, 1, 1, 1, 3, 2, 1,
            ],
        ),
        (
            "978-1-873671-00-9 12345",
            &[
                1, 1, 1, 1, 3, 1, 2, 3, 1, 2, 1, 1, 2, 2, 2, 1, 2, 1, 3, 2, 1, 3, 1, 1, 4, 1,
                1, 1, 1, 1, 1, 1, 1, 1, 1, 4, 1, 3, 1, 2, 2, 2, 2, 1, 3, 2, 1, 1, 3, 2, 1, 1,
                3, 1, 1, 2, 1, 1, 1, 12, 1, 1, 2, 1, 2, 2, 2, 1, 1, 2, 1, 2, 2, 1, 1, 1, 1, 4,
                1, 1, 1, 1, 1, 3, 2, 1, 1, 1, 2, 3, 1,
            ],
        ),
    ];
    for &(text, want) in cases {
        let got = encode_isbn_p5(text, &Options::default()).unwrap_or_else(|e| {
            panic!("encode_isbn_p5({text:?}) (ISBN-13 + 5-digit add-on corpus item) must succeed; got Err: {e:?}")
        });
        assert_eq!(got.bars, want, "ISBN+P5 sbs mismatch for {text:?}");
    }
}

#[test]
fn issn_p2_matches_bwipp_sbs() {
    let cases: &[(&str, &[u8])] = &[
        (
            "0317-8471 13",
            &[
                1, 1, 1, 1, 3, 1, 2, 2, 1, 3, 1, 1, 1, 2, 3, 1, 4, 1, 1, 1, 2, 2, 2, 1, 3, 1,
                2, 1, 1, 1, 1, 1, 1, 2, 1, 3, 1, 1, 3, 2, 1, 3, 1, 2, 3, 2, 1, 1, 3, 2, 1, 1,
                2, 2, 2, 1, 1, 1, 1, 12, 1, 1, 2, 2, 2, 2, 1, 1, 1, 1, 1, 4, 1,
            ],
        ),
        (
            "1144-875X 99",
            &[
                1, 1, 1, 1, 3, 1, 2, 2, 1, 3, 1, 1, 2, 2, 2, 2, 2, 2, 1, 2, 3, 1, 1, 1, 1, 3,
                2, 1, 1, 1, 1, 1, 1, 2, 1, 3, 1, 3, 1, 2, 1, 2, 3, 1, 3, 2, 1, 1, 3, 2, 1, 1,
                1, 3, 1, 2, 1, 1, 1, 12, 1, 1, 2, 2, 1, 1, 3, 1, 1, 2, 1, 1, 3,
            ],
        ),
    ];
    for &(text, want) in cases {
        let got = encode_issn_p2(text, &Options::default()).unwrap_or_else(|e| {
            panic!("encode_issn_p2({text:?}) (ISSN + 2-digit add-on corpus item) must succeed; got Err: {e:?}")
        });
        assert_eq!(got.bars, want, "ISSN+P2 sbs mismatch for {text:?}");
    }
}

#[test]
fn combine_preserves_alternation() {
    let m = LinearPattern {
        bars: vec![3, 2, 3],
        text: None,
    };
    let a = LinearPattern {
        bars: vec![1, 1, 1],
        text: None,
    };
    let c = combine(m, a, 9);
    assert_eq!(c.bars, vec![3, 2, 3, 9, 1, 1, 1]);
}

#[test]
fn combine_extends_trailing_space() {
    let m = LinearPattern {
        bars: vec![3, 2],
        text: None,
    };
    let a = LinearPattern {
        bars: vec![1, 1, 1],
        text: None,
    };
    let c = combine(m, a, 9);
    assert_eq!(c.bars, vec![3, 11, 1, 1, 1]);
}

#[test]
fn ean13_p2_matches_bwip_js_raw_sbs() {
    let p = encode_ean13_p2("012345678901 12", &Options::default()).unwrap();
    let want: [u8; 73] = [
        1, 1, 1, 2, 2, 2, 1, 2, 1, 2, 2, 1, 4, 1, 1, 1, 1, 3, 2, 1, 2, 3, 1, 1, 1, 1, 4, 1, 1,
        1, 1, 1, 1, 3, 1, 2, 1, 2, 1, 3, 3, 1, 1, 2, 3, 2, 1, 1, 2, 2, 2, 1, 2, 1, 2, 2, 1, 1,
        1, 12, 1, 1, 2, 2, 2, 2, 1, 1, 1, 2, 1, 2, 2,
    ];
    assert_eq!(p.bars, want, "ean13+p2 bars mismatch vs bwip-js raw output");
}

#[test]
fn ean13_p5_matches_bwip_js_raw_sbs() {
    let p = encode_ean13_p5("012345678901 12345", &Options::default()).unwrap();
    let want: [u8; 91] = [
        1, 1, 1, 2, 2, 2, 1, 2, 1, 2, 2, 1, 4, 1, 1, 1, 1, 3, 2, 1, 2, 3, 1, 1, 1, 1, 4, 1, 1,
        1, 1, 1, 1, 3, 1, 2, 1, 2, 1, 3, 3, 1, 1, 2, 3, 2, 1, 1, 2, 2, 2, 1, 2, 1, 2, 2, 1, 1,
        1, 12, 1, 1, 2, 1, 2, 2, 2, 1, 1, 2, 1, 2, 2, 1, 1, 1, 1, 4, 1, 1, 1, 1, 1, 3, 2, 1, 1,
        1, 2, 3, 1,
    ];
    assert_eq!(p.bars, want, "ean13+p5 bars mismatch vs bwip-js raw output");
}

#[test]
fn upca_p2_matches_bwip_js_raw_sbs() {
    let p = encode_upca_p2("01234567890 12", &Options::default()).unwrap();
    let want: [u8; 73] = [
        1, 1, 1, 3, 2, 1, 1, 2, 2, 2, 1, 2, 1, 2, 2, 1, 4, 1, 1, 1, 1, 3, 2, 1, 2, 3, 1, 1, 1,
        1, 1, 1, 1, 1, 1, 4, 1, 3, 1, 2, 1, 2, 1, 3, 3, 1, 1, 2, 3, 2, 1, 1, 1, 2, 3, 1, 1, 1,
        1, 12, 1, 1, 2, 2, 2, 2, 1, 1, 1, 2, 1, 2, 2,
    ];
    assert_eq!(p.bars, want, "upca+p2 bars mismatch vs bwip-js raw output");
}

#[test]
fn upce_p2_matches_bwip_js_raw_sbs() {
    let p = encode_upce_p2("01234565 12", &Options::default()).unwrap();
    let want: [u8; 47] = [
        1, 1, 1, 1, 2, 2, 2, 2, 1, 2, 2, 1, 4, 1, 1, 2, 3, 1, 1, 1, 3, 2, 1, 1, 1, 1, 4, 1, 1,
        1, 1, 1, 1, 12, 1, 1, 2, 2, 2, 2, 1, 1, 1, 2, 1, 2, 2,
    ];
    assert_eq!(p.bars, want, "upce+p2 bars mismatch vs bwip-js raw output");
}

#[test]
fn ean8_p2_matches_bwip_js_raw_sbs() {
    let p = encode_ean8_p2("1234567 12", &Options::default()).unwrap();
    let want: [u8; 57] = [
        1, 1, 1, 2, 2, 2, 1, 2, 1, 2, 2, 1, 4, 1, 1, 1, 1, 3, 2, 1, 1, 1, 1, 1, 1, 2, 3, 1, 1,
        1, 1, 4, 1, 3, 1, 2, 3, 2, 1, 1, 1, 1, 1, 12, 1, 1, 2, 2, 2, 2, 1, 1, 1, 2, 1, 2, 2,
    ];
    assert_eq!(p.bars, want, "ean8+p2 bars mismatch vs bwip-js raw output");
}

#[test]
fn ean8_p5_matches_bwip_js_raw_sbs() {
    let p = encode_ean8_p5("1234567 12345", &Options::default()).unwrap();
    let want: [u8; 75] = [
        1, 1, 1, 2, 2, 2, 1, 2, 1, 2, 2, 1, 4, 1, 1, 1, 1, 3, 2, 1, 1, 1, 1, 1, 1, 2, 3, 1, 1,
        1, 1, 4, 1, 3, 1, 2, 3, 2, 1, 1, 1, 1, 1, 12, 1, 1, 2, 1, 2, 2, 2, 1, 1, 2, 1, 2, 2, 1,
        1, 1, 1, 4, 1, 1, 1, 1, 1, 3, 2, 1, 1, 1, 2, 3, 1,
    ];
    assert_eq!(p.bars, want, "ean8+p5 bars mismatch vs bwip-js raw output");
}

#[test]
fn upca_p5_matches_bwip_js_raw_sbs() {
    let p = encode_upca_p5("01234567890 12345", &Options::default()).unwrap();
    let want: [u8; 91] = [
        1, 1, 1, 3, 2, 1, 1, 2, 2, 2, 1, 2, 1, 2, 2, 1, 4, 1, 1, 1, 1, 3, 2, 1, 2, 3, 1, 1, 1,
        1, 1, 1, 1, 1, 1, 4, 1, 3, 1, 2, 1, 2, 1, 3, 3, 1, 1, 2, 3, 2, 1, 1, 1, 2, 3, 1, 1, 1,
        1, 12, 1, 1, 2, 1, 2, 2, 2, 1, 1, 2, 1, 2, 2, 1, 1, 1, 1, 4, 1, 1, 1, 1, 1, 3, 2, 1, 1,
        1, 2, 3, 1,
    ];
    assert_eq!(p.bars, want, "upca+p5 bars mismatch vs bwip-js raw output");
}

#[test]
fn upce_p5_matches_bwip_js_raw_sbs() {
    let p = encode_upce_p5("01234565 12345", &Options::default()).unwrap();
    let want: [u8; 65] = [
        1, 1, 1, 1, 2, 2, 2, 2, 1, 2, 2, 1, 4, 1, 1, 2, 3, 1, 1, 1, 3, 2, 1, 1, 1, 1, 4, 1, 1,
        1, 1, 1, 1, 12, 1, 1, 2, 1, 2, 2, 2, 1, 1, 2, 1, 2, 2, 1, 1, 1, 1, 4, 1, 1, 1, 1, 1, 3,
        2, 1, 1, 1, 2, 3, 1,
    ];
    assert_eq!(p.bars, want, "upce+p5 bars mismatch vs bwip-js raw output");
}

#[test]
fn split_pair_two_token_split_and_digit_count_guard() {
    assert_eq!(split_pair("1234567 12", 2).unwrap(), ("1234567", "12"));
    assert_eq!(
        split_pair("1234567 12345", 5).unwrap(),
        ("1234567", "12345")
    );

    assert_eq!(split_pair("  1234567 12  ", 2).unwrap(), ("1234567", "12"));

    for empty in ["", "   "] {
        match split_pair(empty, 2).unwrap_err() {
            Error::InvalidData(msg) => {
                assert!(
                    msg.contains("EAN/UPC add-on:")
                        && msg.contains("missing main barcode data"),
                    "{empty:?}: missing-main diagnostic; got {msg}"
                );
                assert!(
                    !msg.contains("missing add-on digits"),
                    "{empty:?}: must NOT leak missing-addon wording; got {msg}"
                );
            }
            other => panic!("{empty:?}: expected InvalidData, got {other:?}"),
        }
    }

    match split_pair("1234567", 2).unwrap_err() {
        Error::InvalidData(msg) => {
            assert!(
                msg.contains("EAN/UPC add-on:") && msg.contains("missing add-on digits"),
                "single-token diagnostic; got {msg}"
            );
            assert!(
                !msg.contains("missing main barcode data"),
                "single-token must NOT leak missing-main wording; got {msg}"
            );
        }
        other => panic!("single token: expected InvalidData, got {other:?}"),
    }

    match split_pair("a b c", 2).unwrap_err() {
        Error::InvalidData(msg) => {
            assert!(
                msg.contains("EAN/UPC add-on:")
                    && msg.contains("expected exactly two whitespace-separated fields"),
                "three-token diagnostic; got {msg}"
            );
        }
        other => panic!("three tokens: expected InvalidData, got {other:?}"),
    }

    match split_pair("abc 1", 2).unwrap_err() {
        Error::InvalidData(msg) => {
            assert!(
                msg.contains("EAN/UPC add-on:")
                    && msg.contains("expected 2-digit add-on")
                    && msg.contains("got \"1\""),
                "1-digit addon diagnostic must echo expected=2 + got=\"1\"; got {msg}"
            );
        }
        other => panic!("1-digit addon: expected InvalidData, got {other:?}"),
    }
    match split_pair("abc 123", 2).unwrap_err() {
        Error::InvalidData(msg) => {
            assert!(
                msg.contains("expected 2-digit add-on") && msg.contains("got \"123\""),
                "3-digit addon diagnostic must echo expected=2 + got=\"123\" (kills \
                 `!=` → `<` since `<` would silently ACCEPT 3 ≥ 2 and never \
                 reach this arm); got {msg}"
            );
        }
        other => panic!("3-digit addon: expected InvalidData, got {other:?}"),
    }

    assert_eq!(
        split_pair("abc 12a", 2).unwrap(),
        ("abc", "12a"),
        "addon digit count uses filter — non-digits ignored \
         (kills `.filter(...)` removal)"
    );
}
