use bwipp::datamatrix_::parse_symbol_size;
use bwipp::error::Error;
use bwipp::gs1;
use bwipp::gs1_2d::{
    encode_gs1_datamatrix, encode_gs1_datamatrix_rectangular, encode_gs1_dl_datamatrix,
    encode_gs1_dl_qrcode, encode_gs1_qrcode, encode_ntin, encode_ppn,
};
use bwipp::options::Options;
use bwipp::qrcode_;
use bwipp::substrate::DmSize;
use datamatrix::{DataMatrix, SymbolList};
use qrcode::bits::Bits;
use qrcode::types::{EcLevel, Version};

#[test]
fn parse_symbol_size_per_family_anchors() {
    assert_eq!(parse_symbol_size("10x10").unwrap(), DmSize { index: 0 });
    assert_eq!(parse_symbol_size("32x32").unwrap(), DmSize { index: 9 });
    assert_eq!(parse_symbol_size("144x144").unwrap(), DmSize { index: 23 });
    assert_eq!(parse_symbol_size("8x18").unwrap(), DmSize { index: 24 });
    assert_eq!(parse_symbol_size("16x48").unwrap(), DmSize { index: 29 });
    assert_ne!(
        parse_symbol_size("10x10").unwrap(),
        parse_symbol_size("12x12").unwrap()
    );
    assert_ne!(
        parse_symbol_size("8x18").unwrap(),
        parse_symbol_size("8x32").unwrap()
    );
    let err = parse_symbol_size("11x11").unwrap_err();
    match err {
        Error::InvalidOption(msg) => {
            assert!(
                msg.contains("no Data Matrix symbol of size"),
                "missing full predicate `no Data Matrix symbol of size`: {msg}"
            );
            assert!(
                msg.contains("11x11"),
                "unknown size message should echo spec, got {msg}"
            );
        }
        other => panic!("expected InvalidOption, got {other:?}"),
    }
    let err_empty = parse_symbol_size("").unwrap_err();
    match err_empty {
        Error::InvalidOption(msg) => {
            assert!(
                msg.contains("no Data Matrix symbol of size "),
                "empty-spec message should keep the predicate, got {msg}"
            );
            assert!(
                msg.ends_with("size "),
                "empty spec should leave the `{{other}}` echo empty, got {msg}"
            );
        }
        other => panic!("empty spec: expected InvalidOption, got {other:?}"),
    }
    let err_garbage = parse_symbol_size("garbage").unwrap_err();
    match err_garbage {
        Error::InvalidOption(msg) => {
            assert!(
                msg.contains("no Data Matrix symbol of size "),
                "garbage-spec message should keep the predicate, got {msg}"
            );
            assert!(
                msg.contains("garbage"),
                "garbage-spec message must echo the raw spec, got {msg}"
            );
        }
        other => panic!("garbage spec: expected InvalidOption, got {other:?}"),
    }
}

#[test]
fn gs1_datamatrix_encodes_gtin() {
    let m = encode_gs1_datamatrix("(01)04012345123456", &Options::default()).unwrap();
    assert!(
        m.width() >= 8 && m.height() >= 8,
        "encode_gs1_datamatrix(\"(01)04012345123456\") (single GTIN-14) must produce DataMatrix ≥8×8 (DMRE 8x18 minimum); got {}×{}",
        m.width(),
        m.height()
    );
}

#[test]
fn gs1_datamatrix_square_shape_matches_bwip_js_size() {
    let opts = Options::default().with("shape", "square");
    let m = encode_gs1_datamatrix("(01)04012345123456", &opts).unwrap();
    assert_eq!(m.width(), 16, "GS1 DM square shape should be 16x16");
    assert_eq!(m.height(), 16);
}

#[test]
fn gs1_datamatrix_rejects_bad_ai() {
    match encode_gs1_datamatrix("(99999)X", &Options::default()) {
        Err(Error::InvalidData(msg)) => {
            assert!(
                msg.contains("GS1 parse:"),
                "missing `GS1 parse:` prefix: {msg}"
            );
            assert!(
                msg.contains("invalid AI \"99999\""),
                "missing `invalid AI \"99999\"` token echo: {msg}"
            );
            assert!(
                msg.contains("2-4 digits"),
                "missing `2-4 digits` range hint: {msg}"
            );
        }
        other => panic!("(99999)X should reject as InvalidData, got {other:?}"),
    }
}

#[test]
fn gs1_datamatrix_rejects_unknown_shape_option() {
    let opts = Options::default().with("shape", "circular");
    match encode_gs1_datamatrix("(01)04012345123456", &opts) {
        Err(Error::InvalidOption(msg)) => {
            assert!(
                msg.contains("shape="),
                "expected 'shape=' in InvalidOption message, got: {msg:?}"
            );
            assert!(
                msg.contains("circular"),
                "error msg should mention the offending value 'circular', got: {msg:?}"
            );
            assert!(
                msg.contains("use square|rectangular"),
                "missing valid-shape enumeration `use square|rectangular`: {msg:?}"
            );
        }
        other => panic!(
            "expected InvalidOption(shape=...), got {other:?}; \
             the catch-all shape arm may have been replaced"
        ),
    }
    let opts = Options::default().with("shape", "");
    match encode_gs1_datamatrix("(01)04012345123456", &opts) {
        Err(Error::InvalidOption(msg)) => {
            assert!(msg.contains("shape="), "missing `shape=` prefix: {msg}");
            assert!(
                msg.contains("square|rectangular"),
                "missing `square|rectangular` valid-values list: {msg}"
            );
        }
        other => panic!("shape=\"\" should reject as InvalidOption, got {other:?}"),
    }
}

#[test]
fn gs1_dl_datamatrix_matches_bwip_js_size_and_structure() {
    let uri = "https://id.gs1.org/01/04012345123456";
    let m = encode_gs1_dl_datamatrix(uri, &Options::default()).unwrap();
    assert_eq!(m.width(), 22, "expected 22-wide DM matching bwip-js");
    assert_eq!(m.height(), 22);

    for y in 0..22 {
        assert!(m.get(0, y), "left finder bar at (0,{y}) should be set");
    }
    for x in 0..22 {
        assert!(m.get(x, 21), "bottom finder bar at ({x},21) should be set");
    }
    let mut alternating = 0;
    for x in 1..22 {
        if m.get(x, 0) != m.get(x - 1, 0) {
            alternating += 1;
        }
    }
    assert!(
        alternating >= 10,
        "top row should alternate (timing pattern); got {alternating} transitions"
    );
}

#[test]
fn gs1_dl_datamatrix_rejects_invalid_uri() {

    match encode_gs1_dl_datamatrix("ftp://example.com/01/04012345123456", &Options::default()) {
        Err(Error::InvalidData(msg)) => {
            assert!(
                msg.contains("GS1 DL URI:"),
                "BadScheme: missing `GS1 DL URI:` prefix: {msg}"
            );
            assert!(
                msg.contains("must start with http:// or https://"),
                "BadScheme: missing scheme predicate: {msg}"
            );
        }
        other => panic!("ftp:// should reject as InvalidData, got {other:?}"),
    }

    match encode_gs1_dl_datamatrix("http://example.com/foo", &Options::default()) {
        Err(Error::InvalidData(msg)) => {
            assert!(
                msg.contains("GS1 DL URI:"),
                "NoAi: missing `GS1 DL URI:` prefix: {msg}"
            );
            assert!(
                msg.contains("no AI segments found in path"),
                "NoAi: missing `no AI segments found in path` predicate: {msg}"
            );
            assert!(
                !msg.contains("must start with"),
                "NoAi: BadScheme diagnostic leaked: {msg}"
            );
        }
        other => panic!("/foo should reject as InvalidData, got {other:?}"),
    }

    match encode_gs1_dl_datamatrix("just text", &Options::default()) {
        Err(Error::InvalidData(msg)) => {
            assert!(
                msg.contains("GS1 DL URI:"),
                "bare-text: missing `GS1 DL URI:` prefix: {msg}"
            );
            assert!(
                msg.contains("must start with http:// or https://"),
                "bare-text: missing scheme predicate: {msg}"
            );
        }
        other => panic!("\"just text\" should reject as InvalidData, got {other:?}"),
    }
}

#[test]
fn gs1_dl_datamatrix_size_matches_bwip_js_across_uri_lengths() {
    let cases: &[(&str, usize, usize)] = &[
        ("https://id.gs1.org/01/04012345123456", 22, 22),
        ("https://example.com/01/04012345123456?17=251231", 24, 24),
        ("https://id.gs1.org/01/04012345123456/21/SERIAL123", 26, 26),
    ];
    for &(uri, want_w, want_h) in cases {
        let m = encode_gs1_dl_datamatrix(uri, &Options::default())
            .unwrap_or_else(|e| panic!("DL DM({uri:?}) failed: {e:?}"));
        assert_eq!(
            (m.width(), m.height()),
            (want_w, want_h),
            "DL DM size drift for URI len={} ({uri:?})",
            uri.len(),
        );
    }
}

#[test]
fn gs1_dl_qrcode_renders_and_rejects_invalid_uri() {
    let uri = "https://id.gs1.org/01/04012345123456";
    let m = encode_gs1_dl_qrcode(uri, &Options::default()).unwrap_or_else(|e| {
        panic!("encode_gs1_dl_qrcode({uri:?}) (GS1 Digital Link → QR Code, canonical id.gs1.org GTIN-14) must succeed; got Err: {e:?}")
    });
    assert!(
        m.width() >= 21,
        "QR symbol size should be at least 21 (Version 1)"
    );
    assert_eq!(m.width(), m.height(), "QR is square");

    match encode_gs1_dl_qrcode("not a uri", &Options::default()) {
        Err(Error::InvalidData(msg)) => {
            assert!(
                msg.contains("GS1 DL URI:"),
                "missing `GS1 DL URI:` prefix: {msg}"
            );
            assert!(
                msg.contains("must start with http:// or https://"),
                "missing scheme predicate: {msg}"
            );
        }
        other => panic!("\"not a uri\" should reject as InvalidData, got {other:?}"),
    }
}

#[test]
fn gs1_datamatrix_rectangular_produces_rect_shape_and_rejects_bad_ai() {
    let m =
        encode_gs1_datamatrix_rectangular("(01)04012345123456", &Options::default()).unwrap();
    assert!(
        m.width() > m.height(),
        "GS1 DM rectangular should be wider than tall; got {}×{}",
        m.width(),
        m.height()
    );

    match encode_gs1_datamatrix_rectangular("(99999)X", &Options::default()) {
        Err(Error::InvalidData(msg)) => {
            assert!(msg.contains("GS1 parse:"), "missing prefix: {msg}");
            assert!(
                msg.contains("invalid AI \"99999\""),
                "missing token echo: {msg}"
            );
            assert!(msg.contains("2-4 digits"), "missing range hint: {msg}");
        }
        other => panic!("(99999)X (rectangular) should reject as InvalidData, got {other:?}"),
    }
}

#[test]
fn ntin_wraps_with_8003() {
    let m = encode_ntin("00012345678905", &Options::default()).unwrap();
    assert!(
        m.width() >= 10,
        "encode_ntin(\"00012345678905\") (bare 14-digit NTIN → DataMatrix via AI=8003 auto-wrap) must produce symbol ≥10 modules wide; got {}×{}",
        m.width(),
        m.height()
    );
}

#[test]
fn ntin_accepts_explicit_ai() {
    let m = encode_ntin("(8003)00012345678905", &Options::default()).unwrap();
    assert!(
        m.width() >= 10,
        "encode_ntin(\"(8003)00012345678905\") (explicit AI=8003, pass-through) must produce symbol ≥10 modules wide; got {}×{}",
        m.width(),
        m.height()
    );
}

#[test]
fn ntin_composes_8003_and_gs1_datamatrix() {
    let bare = "00012345678905";
    let got = encode_ntin(bare, &Options::default()).unwrap();
    let want = encode_gs1_datamatrix(&format!("(8003){bare}"), &Options::default()).unwrap();
    assert_eq!(got.width(), want.width());
    assert_eq!(got.height(), want.height());
    for y in 0..got.height() {
        for x in 0..got.width() {
            assert_eq!(got.get(x, y), want.get(x, y), "{x},{y}");
        }
    }
}

#[test]
fn ppn_renders_with_envelope() {
    let m = encode_ppn("110375286414", &Options::default()).unwrap();
    assert!(
        m.width() >= 10,
        "encode_ppn(\"110375286414\") (12-digit PPN → DataMatrix via ANSI MH10.8.2 envelope [)>RS 06 GS 9N<ppn> RS EOT) must produce symbol ≥10 modules wide; got {}×{}",
        m.width(),
        m.height()
    );
}

#[test]
fn ppn_envelope_bytes_are_correct() {
    let payload = "110375286414";
    let mut want: Vec<u8> = Vec::new();
    want.extend_from_slice(b"[)>");
    want.push(0x1E);
    want.extend_from_slice(b"06");
    want.push(0x1D);
    want.extend_from_slice(b"9N");
    want.extend_from_slice(payload.as_bytes());
    want.push(0x1E);
    want.push(0x04);
    let dm = DataMatrix::encode(&want, SymbolList::default().enforce_square())
        .expect("PPN substrate encode");
    let bitmap = dm.bitmap();
    let m = encode_ppn(payload, &Options::default()).unwrap();
    assert_eq!(m.width(), bitmap.width());
    assert_eq!(m.height(), bitmap.height());
    let substrate_on: std::collections::HashSet<(usize, usize)> = bitmap.pixels().collect();
    for y in 0..m.height() {
        for x in 0..m.width() {
            let wrapper_has = m.get(x, y);
            let substrate_has = substrate_on.contains(&(x, y));
            assert_eq!(
                wrapper_has, substrate_has,
                "PPN pixel mismatch at ({x},{y}): wrapper={wrapper_has} substrate={substrate_has}"
            );
        }
    }
}

#[test]
fn ppn_rejects_empty() {
    match encode_ppn("", &Options::default()) {
        Err(Error::InvalidData(msg)) => {
            assert!(msg.contains("PPN"), "missing `PPN` prefix: {msg}");
            assert!(
                msg.contains("must not be empty"),
                "missing `must not be empty` predicate: {msg}"
            );
        }
        other => panic!("empty PPN should reject as InvalidData, got {other:?}"),
    }
}

#[test]
fn ppn_rejects_empty_with_diagnostic_and_trim() {
    match encode_ppn("", &Options::default()) {
        Err(Error::InvalidData(msg)) => assert!(
            msg.contains("PPN") && msg.contains("must not be empty"),
            "empty PPN should pin diagnostic, got: {msg}"
        ),
        other => panic!("empty PPN should reject, got {other:?}"),
    }

    match encode_ppn("   ", &Options::default()) {
        Err(Error::InvalidData(msg)) => assert!(
            msg.contains("PPN") && msg.contains("must not be empty"),
            "whitespace-only PPN should reject as empty after trim, got: {msg}"
        ),
        other => panic!("whitespace-only PPN should reject, got {other:?}"),
    }

    match encode_ppn("\t\n ", &Options::default()) {
        Err(Error::InvalidData(msg)) => assert!(
            msg.contains("PPN") && msg.contains("must not be empty"),
            "mixed whitespace PPN should reject, got: {msg}"
        ),
        other => panic!("mixed whitespace PPN should reject, got {other:?}"),
    }

    let trimmed = encode_ppn("110375286414", &Options::default()).unwrap();
    let padded = encode_ppn("  110375286414  ", &Options::default()).unwrap();
    assert_eq!(
        (padded.width(), padded.height()),
        (trimmed.width(), trimmed.height()),
        "surrounding whitespace should be trimmed (same symbol size as canonical)"
    );
}

#[test]
fn gs1_qrcode_encodes_gtin() {
    let m = encode_gs1_qrcode("(01)04012345123456", &Options::default()).unwrap();
    assert!(
        m.width() >= 21,
        "encode_gs1_qrcode(\"(01)04012345123456\") (single GTIN-14) must produce QR symbol ≥21 modules wide (V1 minimum); got {}×{}",
        m.width(),
        m.height()
    );
}

#[test]
fn gs1_qrcode_optimal_segmentation_matches_bwipp_size() {
    let m = encode_gs1_qrcode("(01)04012345123456", &Options::default()).unwrap();
    assert_eq!(m.width(), 21, "must use Version 1 (numeric mode)");
    assert_eq!(m.height(), 21);
}

#[test]
fn gs1_qrcode_with_explicit_version_override() {
    let mut opts = Options::default();
    opts.extras.push(("version".into(), "5".into()));
    let m = encode_gs1_qrcode("(01)04012345123456", &opts).unwrap();
    assert_eq!(m.width(), 37);
}

#[test]
fn gs1_qrcode_rejects_bad_eclevel() {
    let mut opts = Options::default();
    opts.extras.push(("eclevel".into(), "Z".into()));
    match encode_gs1_qrcode("(01)04012345123456", &opts) {
        Err(Error::InvalidOption(msg)) => {
            assert!(msg.contains("eclevel="), "missing `eclevel=` prefix: {msg}");
            assert!(msg.contains("=Z"), "missing `=Z` value echo: {msg}");
            assert!(
                !msg.contains("version="),
                "wrong arm — version-override diagnostic leaked: {msg}"
            );
            assert!(
                !msg.contains("eclevel=M"),
                "wrong arm — default-value `eclevel=M` leaked (the `Z` should be the echoed value, not the fallback default): {msg}"
            );
        }
        other => panic!("eclevel=Z should reject as InvalidOption, got {other:?}"),
    }
}

#[test]
fn gs1_qrcode_rejects_out_of_range_or_unparseable_version() {
    let bad_versions = ["0", "41", "100", "abc", "", "-1"];
    for v in bad_versions {
        let mut opts = Options::default();
        opts.extras.push(("version".into(), v.to_string()));
        let res = encode_gs1_qrcode("(01)04012345123456", &opts);
        match res {
            Err(Error::InvalidOption(msg)) => match v.parse::<u8>() {
                Ok(n) => {
                    let want = format!("got {n}");
                    assert!(
                        msg.contains("QR version must be 1..=40"),
                        "version={v:?} range arm must carry 1..=40 hint; got {msg}"
                    );
                    assert!(
                        msg.contains(&want),
                        "version={v:?} range arm must echo parsed value as {want:?}; got {msg}"
                    );
                }
                Err(_) => {
                    let want = format!("version={v}");
                    assert!(
                        msg.contains(&want),
                        "version={v:?} parse-fail arm must echo raw string as {want:?}; got {msg}"
                    );
                }
            },
            other => panic!("version={v:?} should reject as InvalidOption, got {other:?}"),
        }
    }
    for v in ["1", "40"] {
        let mut opts = Options::default();
        opts.extras.push(("version".into(), v.to_string()));
        let res = encode_gs1_qrcode("(01)04012345123456", &opts);
        assert!(
            res.is_ok(),
            "version={v:?} should be accepted (boundary), got {res:?}"
        );
    }
}

#[test]
fn gs1_qrcode_fnc1_first_position_mode_indicator_is_0101() {

    let mut bits = Bits::new(Version::Normal(1));
    bits.push_fnc1_first_position().unwrap();
    bits.push_optimal_data(b"010401234512345617").unwrap();
    bits.push_terminator(EcLevel::M).unwrap();
    let bytes = bits.into_bytes();
    assert_eq!(
        bytes[0] >> 4,
        0b0101,
        "expected FNC1-first-position mode indicator (0101) in top nibble"
    );
}

#[test]
fn gs1_qrcode_differs_from_plain_qr_of_same_payload() {
    let input = "(01)04012345123456";
    let elements = gs1::parse(input).unwrap();
    let payload = gs1::encode_with_fnc1(&elements);
    let payload_str = String::from_utf8_lossy(&payload).into_owned();

    let gs1_matrix = encode_gs1_qrcode(input, &Options::default()).unwrap();
    let plain_matrix = qrcode_::encode(&payload_str, &Options::default()).unwrap();

    assert_eq!(gs1_matrix.width(), plain_matrix.width());
    assert_eq!(gs1_matrix.height(), plain_matrix.height());

    let mut different = false;
    for y in 0..gs1_matrix.height() {
        for x in 0..gs1_matrix.width() {
            if gs1_matrix.get(x, y) != plain_matrix.get(x, y) {
                different = true;
                break;
            }
        }
        if different {
            break;
        }
    }
    assert!(
        different,
        "encode_gs1_qrcode produced identical output to plain QR — \
         FNC1-first-position mode indicator may have regressed"
    );
}

#[test]
fn gs1_qrcode_payload_round_trips_through_ai_parser() {
    let input = "(01)04012345123456";
    let elements = gs1::parse(input).unwrap();
    assert_eq!(elements.len(), 1);
    assert_eq!(elements[0].ai, "01");
    assert_eq!(elements[0].data, "04012345123456");

    let payload = gs1::encode_with_fnc1(&elements);
    assert_eq!(payload[0], 0x1d);
    assert_eq!(&payload[1..], b"0104012345123456");
}

#[test]
fn encode_gs1_datamatrix_rectangular_preserves_unrelated_extras() {
    let default =
        encode_gs1_datamatrix_rectangular("(01)04012345123456", &Options::default()).unwrap();
    let with_version = encode_gs1_datamatrix_rectangular(
        "(01)04012345123456",
        &Options::default().with("version", "16x36"),
    )
    .unwrap();
    assert_ne!(
        (default.width(), default.height()),
        (with_version.width(), with_version.height()),
        "encode_gs1_datamatrix_rectangular dropped the user-supplied `version` extra; \
         the `retain(k != \"shape\")` filter may have flipped"
    );
}
