use bwipp::error::Error;
use bwipp::flattermarken::encode;
use bwipp::options::Options;

#[test]
fn rejects_letters() {
    match encode("ABC", &Options::default()) {
        Err(Error::InvalidData(msg)) => {
            assert!(
                msg.contains("Flattermarken"),
                "missing `Flattermarken` prefix: {msg}"
            );
            assert!(
                msg.contains("accepts digits only"),
                "missing `accepts digits only` predicate: {msg}"
            );
            assert!(
                !msg.contains("must not be empty"),
                "wrong arm — empty-payload diagnostic leaked: {msg}"
            );
            assert!(
                !msg.contains("exceeds 500 chars"),
                "wrong arm — length-cap diagnostic leaked: {msg}"
            );
        }
        other => panic!("\"ABC\" should reject as InvalidData, got {other:?}"),
    }
}

#[test]
fn rejects_empty() {
    match encode("", &Options::default()) {
        Err(Error::InvalidData(msg)) => {
            assert!(
                msg.contains("Flattermarken"),
                "missing `Flattermarken` prefix: {msg}"
            );
            assert!(
                msg.contains("must not be empty"),
                "missing `must not be empty` predicate: {msg}"
            );
            assert!(
                !msg.contains("accepts digits only"),
                "wrong arm — non-digit diagnostic leaked: {msg}"
            );
            assert!(
                !msg.contains("exceeds 500 chars"),
                "wrong arm — length-cap diagnostic leaked: {msg}"
            );
        }
        other => {
            panic!("empty Flattermarken payload should reject as InvalidData, got {other:?}")
        }
    }
}

#[test]
fn encodes_digit_zero() {
    let p = encode("0", &Options::default()).expect(
        "encode(\"0\", default) (Flattermarken digit-0 path: BARCHARS[9] → PATTERNS[9] \"0900\" → runs [0,9,0,0]) must succeed",
    );
    assert_eq!(p.bars, vec![0, 9, 0, 0]);
}

#[test]
fn encodes_concatenated_digits() {
    let p = encode("01", &Options::default()).expect(
        "encode(\"01\", default) (Flattermarken 2-digit concatenation; PATTERNS[9]+PATTERNS[0] → 8 runs) must succeed",
    );
    assert_eq!(p.bars, vec![0, 9, 0, 0, 0, 0, 1, 8]);
}

#[test]
fn flattermarken_matches_bwip_js_raw_sbs() {
    let p = encode("1234567", &Options::default()).expect(
        "encode(\"1234567\", default) (Flattermarken byte-for-byte 28-run SBS bwip-js raw oracle; 7 digits × 4-run patterns) must succeed",
    );
    let want: [u8; 28] = [
        0, 0, 1, 8, 0, 1, 1, 7, 0, 2, 1, 6, 0, 3, 1, 5, 0, 4, 1, 4, 0, 5, 1, 3, 0, 6, 1, 2,
    ];
    assert_eq!(
        p.bars, want,
        "flattermarken bars mismatch vs bwip-js raw output"
    );
}

#[test]
fn all_ten_patterns_and_include_text() {
    let p8 = encode("8", &Options::default()).expect(
        "encode(\"8\", default) (Flattermarken digit-8 path: BARCHARS[7] → PATTERNS[7] \"0711\" → runs [0,7,1,1]) must succeed",
    );
    assert_eq!(p8.bars, vec![0, 7, 1, 1], "digit '8' must map to [0,7,1,1]");
    let p9 = encode("9", &Options::default()).expect(
        "encode(\"9\", default) (Flattermarken digit-9 path: BARCHARS[8] → PATTERNS[8] \"0810\" → runs [0,8,1,0]) must succeed",
    );
    assert_eq!(p9.bars, vec![0, 8, 1, 0], "digit '9' must map to [0,8,1,0]");
    let all = encode("1234567890", &Options::default()).expect(
        "encode(\"1234567890\", default) (Flattermarken full-PATTERNS index 0..=9 expansion; 40-run vector pins entire table) must succeed",
    );
    let want: [u8; 40] = [
        0, 0, 1, 8,
        0, 1, 1, 7,
        0, 2, 1, 6,
        0, 3, 1, 5,
        0, 4, 1, 4,
        0, 5, 1, 3,
        0, 6, 1, 2,
        0, 7, 1, 1,
        0, 8, 1, 0,
        0, 9, 0, 0,
    ];
    assert_eq!(all.bars, want, "every digit's pattern must match");
    assert_eq!(all.text, None, "default include_text=false → text=None");
    let opts_on = Options {
        include_text: true,
        ..Options::default()
    };
    let with_text = encode("42", &opts_on).expect(
        "encode(\"42\", include_text=true) (Flattermarken include_text branch; must populate text with raw payload \"42\") must succeed",
    );
    assert_eq!(
        with_text.text.as_deref(),
        Some("42"),
        "include_text=true must populate text with the original payload"
    );
}

#[test]
fn payload_length_cap_is_strictly_five_hundred() {
    let four_99 = "1".repeat(499);
    let five_00 = "1".repeat(500);
    let five_01 = "1".repeat(501);
    assert!(
        encode(&four_99, &Options::default()).is_ok(),
        "encode(499-char Flattermarken) must accept (one below 500-cap; kills `< 500` → `<= 499` boundary mutant)"
    );
    assert!(
        encode(&five_00, &Options::default()).is_ok(),
        "encode(500-char Flattermarken) must accept (exactly at 500-cap; kills `<= 500` → `< 500` boundary mutant)"
    );
    match encode(&five_01, &Options::default()) {
        Err(Error::InvalidData(msg)) => {
            assert!(
                msg.contains("Flattermarken"),
                "missing `Flattermarken` prefix: {msg}"
            );
            assert!(
                msg.contains("exceeds 500 chars"),
                "missing `exceeds 500 chars` predicate: {msg}"
            );
            assert!(
                !msg.contains("must not be empty"),
                "wrong arm — empty-payload diagnostic leaked: {msg}"
            );
            assert!(
                !msg.contains("accepts digits only"),
                "wrong arm — non-digit diagnostic leaked: {msg}"
            );
        }
        other => panic!("501-digit Flattermarken should reject as InvalidData, got {other:?}"),
    }
}
