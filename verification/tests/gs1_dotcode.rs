use bwipp::dotcode::modes::encode_message_with_markers;
use bwipp::dotcode::tables::FN1;
use bwipp::error::Error;
use bwipp::gs1;
use bwipp::gs1_dotcode::encode;

#[test]
fn encode_gtin_14_matches_bwip_js_logical_cws() {
    let text = "(01)04012345123456";
    let elements = gs1::parse(text).unwrap();
    let bytes = gs1::encode_with_fnc1(&elements);
    let stream: Vec<i16> = bytes
        .iter()
        .map(|&b| if b == gs1::FNC1 { FN1 } else { i16::from(b) })
        .collect();
    assert_eq!(stream[0], FN1);
    let cws = encode_message_with_markers(&stream).unwrap();
    assert_eq!(cws, vec![1, 4, 1, 23, 45, 12, 34, 56]);
}

#[test]
fn encode_gtin_with_lot_matches_bwip_js_logical_cws() {
    let sym = encode(b"(01)04012345123456(10)ABC123").unwrap();
    assert!(
        !sym.pixs.is_empty(),
        "encode(\"(01)04012345123456(10)ABC123\") (GTIN-14 + LOT \"ABC123\") must produce non-empty DotCode pixs vec; got len={}",
        sym.pixs.len()
    );
    assert_eq!(
        sym.rows, 19,
        "expected DotCode rows=19 for GTIN-14+LOT \"ABC123\"; got {}",
        sym.rows
    );
    assert_eq!(
        sym.columns, 28,
        "expected DotCode columns=28 for GTIN-14+LOT \"ABC123\"; got {}",
        sym.columns
    );
}

#[test]
fn encode_gtin_with_expiry_matches_bwip_js_logical_cws() {
    let text = "(01)04012345123456(17)260520";
    let elements = gs1::parse(text).unwrap();
    let bytes = gs1::encode_with_fnc1(&elements);
    let stream: Vec<i16> = bytes
        .iter()
        .map(|&b| if b == gs1::FNC1 { FN1 } else { i16::from(b) })
        .collect();
    let cws = encode_message_with_markers(&stream).unwrap();
    assert_eq!(cws, vec![1, 4, 1, 23, 45, 12, 34, 56, 17, 26, 5, 20]);
}

#[test]
fn encode_empty_rejected() {
    let msg = match encode(b"").unwrap_err() {
        Error::InvalidData(m) => m,
        err => panic!(
            "encode(b\"\") must reject as Err(InvalidData(empty)); got {err:?} (mutation re-routed gs1dotcode wrapper Empty path)"
        ),
    };
    assert!(
        msg.starts_with("gs1dotcode: "),
        "wrapper prefix must be present; got {msg:?}"
    );
    assert!(
        msg.contains("input is empty"),
        "must carry ParseError::Empty message; got {msg:?}"
    );
    assert!(
        !msg.contains("UTF-8"),
        "empty path must not leak the UTF-8 message; got {msg:?}"
    );
}

#[test]
fn encode_invalid_ai_rejected() {
    let msg = match encode(b"(99999)X").unwrap_err() {
        Error::InvalidData(m) => m,
        err => panic!(
            "encode(b\"(99999)X\") must reject as Err(InvalidData(invalid AI)); got {err:?} (mutation re-routed gs1dotcode wrapper InvalidAi path)"
        ),
    };
    assert!(
        msg.starts_with("gs1dotcode: "),
        "wrapper prefix must be present; got {msg:?}"
    );
    assert!(
        msg.contains("invalid AI") && msg.contains("99999"),
        "must carry the offending AI string and 'invalid AI' tag; got {msg:?}"
    );
    assert!(
        !msg.contains("UTF-8") && !msg.contains("input is empty"),
        "invalid-AI path must not leak other diagnostics; got {msg:?}"
    );
}

#[test]
fn encode_non_utf8_rejected() {
    let msg = match encode(&[0xFF, 0xFE, b'(', b'0', b'1', b')']).unwrap_err() {
        Error::InvalidData(m) => m,
        err => panic!(
            "encode(&[0xFF, 0xFE, ...]) must reject as Err(InvalidData(non-UTF-8)); got {err:?} (mutation re-routed gs1dotcode wrapper UTF-8 path)"
        ),
    };
    assert!(
        msg.starts_with("gs1dotcode: "),
        "wrapper prefix must be present; got {msg:?}"
    );
    assert!(
        msg.contains("input is not valid UTF-8"),
        "must carry the full UTF-8 diagnostic predicate; got {msg:?}"
    );
    assert!(
        !msg.contains("GS1 parse:"),
        "non-UTF-8 path must short-circuit before gs1::parse; got {msg:?}"
    );
}

#[test]
fn encode_payload_with_internal_fnc1_separator_lifts_to_fn1_markers() {
    let elements = gs1::parse("(10)A(11)260520").unwrap();
    let bytes = gs1::encode_with_fnc1(&elements);
    assert_eq!(bytes[0], gs1::FNC1, "leading FNC1 sentinel must be present");
    assert_eq!(
        bytes[4],
        gs1::FNC1,
        "internal FNC1 separator must be inserted after variable AI 10's data"
    );
    assert_eq!(&bytes[1..4], b"10A");
    assert_eq!(&bytes[5..], b"11260520");

    let sym = encode(b"(10)A(11)260520")
        .expect("encode must succeed; payload with internal FNC1 is well-formed GS1 + DotCode");
    assert!(!sym.pixs.is_empty(), "symbol must have non-empty pixs");
    assert!(sym.rows > 0 && sym.columns > 0);
}
