//! DotCode character tables: the codeword-to-dots patterns, the charset
//! markers and the A/B/C character maps, with their lookups.

use vstd::prelude::*;

verus! {

/// Codeword -> 9-module dot pattern, indexed by codeword `0..=112`.
pub const ENCS: [u16; 113] = [
    341, 171, 173, 181, 213, 342, 346, 362,
    426, 174, 182, 186, 214, 218, 234, 299,
    301, 309, 331, 333, 339, 345, 357, 361,
    405, 421, 425,  87,  91,  93, 107, 109,
    117, 151, 155, 157, 167, 179, 185, 203,
    205, 211, 217, 229, 233, 302, 310, 314,
    334, 348, 358, 364, 370, 372, 406, 410,
    422, 428, 434, 436, 458, 466, 468,  94,
    110, 118, 122, 158, 188, 206, 220, 230,
    236, 242, 244, 279, 283, 285, 295, 307,
    313, 327, 355, 369, 395, 397, 403, 409,
    419, 433, 453, 457, 465,  47,  55,  59,
     61,  79, 103, 115, 121, 143, 199, 227,
    241, 286, 316, 376, 398, 412, 440, 454,
    460,
];

pub const LAA: i16 = -1;
pub const LAB: i16 = -2;
pub const LAC: i16 = -3;
pub const BIN: i16 = -4;
pub const SFA: i16 = -5;
pub const SFB: i16 = -6;
pub const SB2: i16 = -7;
pub const SB3: i16 = -8;
pub const SB4: i16 = -9;
pub const SB5: i16 = -10;
pub const SB6: i16 = -11;
pub const SFC: i16 = -12;
pub const SC2: i16 = -13;
pub const SC3: i16 = -14;
pub const SC4: i16 = -15;
pub const SC5: i16 = -16;
pub const SC6: i16 = -17;
pub const SC7: i16 = -18;
pub const BSA: i16 = -19;
pub const BSB: i16 = -20;
pub const TMA: i16 = -21;
pub const TMB: i16 = -22;
pub const TMC: i16 = -23;
pub const TMS: i16 = -24;
pub const FN1: i16 = -25;
pub const FN2: i16 = -26;
pub const FN3: i16 = -27;
pub const CRL: i16 = -28;
pub const AIM: i16 = -29;
pub const M05: i16 = -30;
pub const M06: i16 = -31;
pub const M12: i16 = -32;
pub const MAC: i16 = -33;


/// The master `[A, B, C]` character map: row index = codeword; each column
/// holds a byte, a negative charset marker, or (column C, rows 0..=95) the
/// row index itself.
pub const CHARMAPS: [[i16; 3]; 113] = [
    [ 32,  32,   0], [ 33,  33,   1], [ 34,  34,   2], [ 35,  35,   3],
    [ 36,  36,   4], [ 37,  37,   5], [ 38,  38,   6], [ 39,  39,   7],
    [ 40,  40,   8], [ 41,  41,   9], [ 42,  42,  10], [ 43,  43,  11],
    [ 44,  44,  12], [ 45,  45,  13], [ 46,  46,  14], [ 47,  47,  15],
    [ 48,  48,  16], [ 49,  49,  17], [ 50,  50,  18], [ 51,  51,  19],
    [ 52,  52,  20], [ 53,  53,  21], [ 54,  54,  22], [ 55,  55,  23],
    [ 56,  56,  24], [ 57,  57,  25], [ 58,  58,  26], [ 59,  59,  27],
    [ 60,  60,  28], [ 61,  61,  29], [ 62,  62,  30], [ 63,  63,  31],

    [ 64,  64,  32], [ 65,  65,  33], [ 66,  66,  34], [ 67,  67,  35],
    [ 68,  68,  36], [ 69,  69,  37], [ 70,  70,  38], [ 71,  71,  39],
    [ 72,  72,  40], [ 73,  73,  41], [ 74,  74,  42], [ 75,  75,  43],
    [ 76,  76,  44], [ 77,  77,  45], [ 78,  78,  46], [ 79,  79,  47],
    [ 80,  80,  48], [ 81,  81,  49], [ 82,  82,  50], [ 83,  83,  51],
    [ 84,  84,  52], [ 85,  85,  53], [ 86,  86,  54], [ 87,  87,  55],
    [ 88,  88,  56], [ 89,  89,  57], [ 90,  90,  58], [ 91,  91,  59],
    [ 92,  92,  60], [ 93,  93,  61], [ 94,  94,  62], [ 95,  95,  63],

    [  0,  96,  64], [  1,  97,  65], [  2,  98,  66], [  3,  99,  67],
    [  4, 100,  68], [  5, 101,  69], [  6, 102,  70], [  7, 103,  71],
    [  8, 104,  72], [  9, 105,  73], [ 10, 106,  74], [ 11, 107,  75],
    [ 12, 108,  76], [ 13, 109,  77], [ 14, 110,  78], [ 15, 111,  79],
    [ 16, 112,  80], [ 17, 113,  81], [ 18, 114,  82], [ 19, 115,  83],
    [ 20, 116,  84], [ 21, 117,  85], [ 22, 118,  86], [ 23, 119,  87],
    [ 24, 120,  88], [ 25, 121,  89], [ 26, 122,  90], [ 27, 123,  91],
    [ 28, 124,  92], [ 29, 125,  93], [ 30, 126,  94], [ 31, 127,  95],

    [SFB, CRL,  96], [SB2,   9,  97], [SB3,  28,  98], [SB4,  29,  99],
    [SB5,  30, AIM], [SB6, SFA, LAA], [LAB, LAA, SFB], [SC2, SC2, SB2],
    [SC3, SC3, SB3], [SC4, SC4, SB4], [LAC, LAC, LAB], [FN1, FN1, FN1],
    [FN2, FN2, FN2], [FN3, FN3, FN3], [BSA, BSA, BSA], [BSB, BSB, BSB],
    [BIN, BIN, BIN],
];

/// Mask seed values tried when picking the symbol mask.
pub const MASK_SEEDS: [u32; 4] = [0, 3, 7, 17];

/// 2-bit mask selectors written into the symbol, parallel to `MASK_SEEDS`.
pub const MASK_BITS: [&'static str; 4] = ["00", "01", "10", "11"];

/// Codeword 107, the FN1 row: emitted at the start of a segment that opens
/// with two or more digits.
pub const LATCH_C: u16 = 107;

/// Same value as [`LATCH_C`], named for its role at segment start.
pub const MODE_C_FN1_AT_SEGSTART: u16 = 107;

/// Mode C -> B shifts for 1..=4 bytes (`SFB`/`SB2`/`SB3`/`SB4` rows of column C).
pub const MODE_C_SHIFT_TO_B: [u16; 4] = [102, 103, 104, 105];
/// Mode C -> B latch (`LAB` row of column C).
pub const MODE_C_LATCH_TO_B: u16 = 106;
/// Mode C -> A latch (`LAA` row of column C).
pub const MODE_C_LATCH_TO_A: u16 = 101;
/// Mode B -> A shift for one byte (`SFA` row of column B).
pub const MODE_B_SHIFT_TO_A_ONE: u16 = 101;
/// Mode B -> A latch (`LAA` row of column B).
pub const MODE_B_LATCH_TO_A: u16 = 102;
/// Mode B -> C shifts for 2..=4 pairs/markers.
pub const MODE_B_SHIFT_TO_C: [u16; 3] = [103, 104, 105];
/// Mode B -> C latch.
pub const MODE_B_LATCH_TO_C: u16 = 106;
/// Mode B `<CR><LF>` codeword.
pub const MODE_B_CRLF: u16 = 96;
/// Mode A -> B shifts for 1..=6 bytes.
pub const MODE_A_SHIFT_TO_B: [u16; 6] = [96, 97, 98, 99, 100, 101];
/// Mode A -> B latch.
pub const MODE_A_LATCH_TO_B: u16 = 102;
/// Mode A -> C shifts for 2..=4 pairs/markers.
pub const MODE_A_SHIFT_TO_C: [u16; 3] = [103, 104, 105];
/// Mode A -> C latch.
pub const MODE_A_LATCH_TO_C: u16 = 106;
/// Entry into binary mode (row 112 in every column).
pub const BIN_ENTER: u16 = 112;
/// Binary mode -> C shifts for 2..=7 pairs/markers.
pub const BIN_SHIFT_TO_C: [u16; 6] = [103, 104, 105, 106, 107, 108];
/// Binary mode terminator into A.
pub const BIN_TERM_TO_A: u16 = 109;
/// Binary mode terminator into B.
pub const BIN_TERM_TO_B: u16 = 110;
/// Binary mode latch into C.
pub const BIN_LATCH_TO_C: u16 = 111;
/// Binary mode segment reset.
pub const BIN_SEG_RESET: u16 = 112;
/// Pad codeword filling the data region.
pub const MODE_C_PAD_CW: u16 = 106;
/// First pad codeword after a message that ended in binary mode.
pub const BIN_FIRST_PAD_CW: u16 = 109;

/// First row `r >= from` whose column `col` holds `b`.
pub open spec fn first_row_from(b: i16, col: int, from: int) -> Option<int>
    decreases 113 - from,
{
    if from < 0 || from >= 113 {
        None
    } else if CHARMAPS@[from]@[col] == b {
        Some(from)
    } else {
        first_row_from(b, col, from + 1)
    }
}

/// Codeword of `b` (a byte or a marker) in column `col`: the first row of
/// the character map holding it.
pub open spec fn codeword_in(b: i16, col: int) -> Option<u16> {
    match first_row_from(b, col, 0) {
        Some(r) => Some(r as u16),
        None => None,
    }
}

/// Codewords of `bytes` in column `col`, or `None` if one is missing.
pub open spec fn codewords_in(bytes: Seq<u8>, col: int) -> Option<Seq<u16>>
    decreases bytes.len(),
{
    if bytes.len() == 0 {
        Some(Seq::empty())
    } else {
        match (codewords_in(bytes.drop_last(), col), codeword_in(bytes.last() as i16, col)) {
            (Some(s), Some(c)) => Some(s.push(c)),
            _ => None,
        }
    }
}

/// An ASCII decimal digit, as a byte.
pub open spec fn is_digit_byte(b: int) -> bool {
    48 <= b <= 57
}

/// Mode-C codewords of an even-length digit string: one codeword per pair.
pub open spec fn digit_pairs(d: Seq<u8>) -> Seq<u16>
    decreases d.len(),
{
    if d.len() < 2 {
        Seq::empty()
    } else {
        seq![((d[0] - 48) * 10 + (d[1] - 48)) as u16] + digit_pairs(d.subrange(2, d.len() as int))
    }
}

proof fn lemma_first_row_bound(b: i16, col: int, from: int)
    requires
        0 <= from,
        0 <= col < 3,
    ensures
        first_row_from(b, col, from) matches Some(r) ==> from <= r < 113 && CHARMAPS@[r]@[col] == b,
        first_row_from(b, col, from) is None ==> forall|r: int| from <= r < 113 ==> CHARMAPS@[r]@[col] != b,
    decreases 113 - from,
{
    if 0 <= from < 113 {
        lemma_first_row_bound(b, col, from + 1);
    }
}

/// A value that stands in column `col` of some row at or after `from` has
/// a first such row.
pub proof fn lemma_first_row_found(b: i16, col: int, from: int, r: int)
    requires
        0 <= from <= r < 113,
        0 <= col < 3,
        CHARMAPS@[r]@[col] == b,
    ensures
        first_row_from(b, col, from) is Some,
    decreases r - from,
{
    if CHARMAPS@[from]@[col] != b {
        lemma_first_row_found(b, col, from + 1, r);
    }
}

/// The three function characters have a codeword in every column.
pub proof fn lemma_fn_markers_encodable(col: int)
    requires
        0 <= col < 3,
    ensures
        codeword_in(FN1, col) is Some,
        codeword_in(FN2, col) is Some,
        codeword_in(FN3, col) is Some,
{
    lemma_first_row_found(FN1, col, 0, 107);
    lemma_first_row_found(FN2, col, 0, 108);
    lemma_first_row_found(FN3, col, 0, 109);
}

/// Like [`lookup_codeword_in_mode`] but for a byte or a negative marker.
pub fn lookup_codeword_in_mode_i16(b: i16, col: usize) -> (r: Option<u16>)
    requires
        col < 3,
    ensures
        r == codeword_in(b, col as int),
        r matches Some(c) ==> c < 113,
{
    let mut i: usize = 0;
    while i < 113
        invariant
            i <= 113,
            col < 3,
            first_row_from(b, col as int, 0) == first_row_from(b, col as int, i as int),
        decreases 113 - i,
    {
        if CHARMAPS[i][col] == b {
            proof {
                lemma_first_row_bound(b, col as int, 0);
            }
            return Some(i as u16);
        }
        i = i + 1;
    }
    proof {
        lemma_first_row_bound(b, col as int, 0);
    }
    None
}

/// The codeword of byte `b` in mode `col` (0 = A, 1 = B, 2 = C), if the
/// byte is representable there.
pub fn lookup_codeword_in_mode(b: u8, col: usize) -> (r: Option<u16>)
    requires
        col < 3,
    ensures
        r == codeword_in(b as i16, col as int),
{
    lookup_codeword_in_mode_i16(b as i16, col)
}

fn encode_col(bytes: &[u8], col: usize) -> (r: Option<Vec<u16>>)
    requires
        col < 3,
    ensures
        match r {
            Some(v) => codewords_in(bytes@, col as int) == Some(v@),
            None => codewords_in(bytes@, col as int) is None,
        },
{
    let mut out: Vec<u16> = Vec::new();
    let mut i: usize = 0;
    while i < bytes.len()
        invariant
            col < 3,
            i <= bytes@.len(),
            codewords_in(bytes@.subrange(0, i as int), col as int) == Some(out@),
        decreases bytes@.len() - i,
    {
        proof {
            assert(bytes@.subrange(0, i + 1).drop_last() =~= bytes@.subrange(0, i as int));
        }
        match lookup_codeword_in_mode(bytes[i], col) {
            Some(c) => out.push(c),
            None => {
                proof {
                    lemma_codewords_none_extends(bytes@, col as int, i as int + 1);
                }
                return None;
            },
        }
        i = i + 1;
    }
    proof {
        assert(bytes@.subrange(0, bytes@.len() as int) =~= bytes@);
    }
    Some(out)
}

proof fn lemma_codewords_none_extends(bytes: Seq<u8>, col: int, k: int)
    requires
        0 <= k <= bytes.len(),
        codewords_in(bytes.subrange(0, k), col) is None,
    ensures
        codewords_in(bytes, col) is None,
    decreases bytes.len() - k,
{
    if k < bytes.len() {
        assert(bytes.subrange(0, k + 1).drop_last() =~= bytes.subrange(0, k));
        lemma_codewords_none_extends(bytes, col, k + 1);
    } else {
        assert(bytes.subrange(0, k) =~= bytes);
    }
}

/// Mode-A codewords of `bytes`, or `None` if a byte has none.
pub fn encode_a(bytes: &[u8]) -> (r: Option<Vec<u16>>)
    ensures
        match r {
            Some(v) => codewords_in(bytes@, 0) == Some(v@),
            None => codewords_in(bytes@, 0) is None,
        },
{
    encode_col(bytes, 0)
}

/// Mode-B codewords of `bytes`, or `None` if a byte has none.
pub fn encode_b(bytes: &[u8]) -> (r: Option<Vec<u16>>)
    ensures
        match r {
            Some(v) => codewords_in(bytes@, 1) == Some(v@),
            None => codewords_in(bytes@, 1) is None,
        },
{
    encode_col(bytes, 1)
}

/// Mode-C codewords of an even-length digit string (one per digit pair),
/// or `None` for an odd length or a non-digit.
pub fn encode_c(digits: &[u8]) -> (r: Option<Vec<u16>>)
    ensures
        (digits@.len() % 2 == 0 && forall|j: int| 0 <= j < digits@.len() ==> is_digit_byte(#[trigger] digits@[j] as int))
            ==> (r matches Some(v) && v@ == digit_pairs(digits@)),
        !(digits@.len() % 2 == 0 && forall|j: int| 0 <= j < digits@.len() ==> is_digit_byte(#[trigger] digits@[j] as int))
            ==> r is None,
{
    if digits.len() % 2 != 0 {
        return None;
    }
    let mut out: Vec<u16> = Vec::new();
    let mut i: usize = 0;
    assert(digits@.subrange(0, digits@.len() as int) =~= digits@);
    while i < digits.len()
        invariant
            digits@.len() % 2 == 0,
            i <= digits@.len(),
            i % 2 == 0,
            forall|j: int| 0 <= j < i ==> is_digit_byte(#[trigger] digits@[j] as int),
            digit_pairs(digits@) == out@ + digit_pairs(digits@.subrange(i as int, digits@.len() as int)),
        decreases digits@.len() - i,
    {
        let a = digits[i];
        let b = digits[i + 1];
        if !(48 <= a && a <= 57) || !(48 <= b && b <= 57) {
            return None;
        }
        proof {
            let rest = digits@.subrange(i as int, digits@.len() as int);
            assert(rest.subrange(2, rest.len() as int) =~= digits@.subrange(i + 2, digits@.len() as int));
        }
        out.push(((a - 48) as u16) * 10 + ((b - 48) as u16));
        i = i + 2;
    }
    proof {
        assert(out@ =~= digit_pairs(digits@)) by {
            assert(digits@.subrange(i as int, digits@.len() as int).len() == 0);
        }
    }
    Some(out)
}

/// `true` for the ten ASCII digit values.
pub fn is_ascii_digit_i16(b: i16) -> (r: bool)
    ensures
        r == is_digit_byte(b as int),
{
    48 <= b && b <= 57
}

} // verus!
