//! Whole-message shortcuts of the DotCode selector: payloads that one run
//! of a single mode covers, the segment-start decision, and padding.

use vstd::prelude::*;

use super::position::{ahead_a_at, ahead_b_at, build_position_tables, lift, nd_at, tables_of, PositionTables};
use super::modes::lemma_ahead_b_nonneg;
use super::tables::{
    codewords_in, digit_pairs, encode_a, encode_b, encode_c, is_digit_byte, BIN_FIRST_PAD_CW,
    MODE_C_FN1_AT_SEGSTART, MODE_C_LATCH_TO_A, MODE_C_LATCH_TO_B, MODE_C_PAD_CW,
    MODE_C_SHIFT_TO_B,
};

verus! {

/// `cws` followed by pad codewords up to `nd` entries: the first is `109`
/// after binary mode, `106` otherwise; the rest are `106`.
pub open spec fn padded_spec(cws: Seq<u16>, nd: int, final_mode_is_bin: bool) -> Seq<u16> {
    if cws.len() >= nd {
        cws
    } else {
        let first: u16 = if final_mode_is_bin {
            BIN_FIRST_PAD_CW
        } else {
            MODE_C_PAD_CW
        };
        cws.push(first) + Seq::new((nd - cws.len() - 1) as nat, |k: int| MODE_C_PAD_CW)
    }
}

/// Pads `cws` out to `nd` codewords.
pub fn pad_to_nd(cws: &mut Vec<u16>, nd: usize, final_mode_is_bin: bool)
    ensures
        final(cws)@ == padded_spec(old(cws)@, nd as int, final_mode_is_bin),
{
    if cws.len() >= nd {
        return;
    }
    let ghost start = old(cws)@;
    cws.push(if final_mode_is_bin {
        BIN_FIRST_PAD_CW
    } else {
        MODE_C_PAD_CW
    });
    while cws.len() < nd
        invariant
            start.len() < nd,
            start.len() + 1 <= cws@.len() <= nd,
            cws@ == start.push(if final_mode_is_bin {
                BIN_FIRST_PAD_CW
            } else {
                MODE_C_PAD_CW
            }) + Seq::new((cws@.len() - start.len() - 1) as nat, |k: int| MODE_C_PAD_CW),
        decreases nd - cws@.len(),
    {
        let ghost before = cws@;
        cws.push(MODE_C_PAD_CW);
        proof {
            let first: u16 = if final_mode_is_bin {
                BIN_FIRST_PAD_CW
            } else {
                MODE_C_PAD_CW
            };
            assert(cws@ =~= start.push(first) + Seq::new(
                (cws@.len() - start.len() - 1) as nat,
                |k: int| MODE_C_PAD_CW,
            ));
        }
    }
}

/// The shift or latch into mode B for a run of `n` bytes from mode C.
pub open spec fn c_to_b_prefix(n: int) -> Seq<u16> {
    if n == 0 {
        Seq::empty()
    } else if n <= 4 {
        seq![MODE_C_SHIFT_TO_B@[n - 1]]
    } else {
        seq![MODE_C_LATCH_TO_B]
    }
}

/// A pure mode-B run from the initial mode C: the shift (`1..=4` bytes)
/// or latch (longer) codeword, then each byte's mode-B codeword.
pub fn encode_mode_b_run_from_c(bytes: &[u8]) -> (r: Option<Vec<u16>>)
    ensures
        match codewords_in(bytes@, 1) {
            Some(body) => r matches Some(v) && v@ == c_to_b_prefix(bytes@.len() as int) + body,
            None => r is None,
        },
{
    let n = bytes.len();
    let body = match encode_b(bytes) {
        Some(b) => b,
        None => return None,
    };
    let mut out: Vec<u16> = Vec::new();
    if n == 0 {
    } else if n <= 4 {
        out.push(MODE_C_SHIFT_TO_B[n - 1]);
    } else {
        out.push(MODE_C_LATCH_TO_B);
    }
    let ghost pre = out@;
    let mut k: usize = 0;
    while k < body.len()
        invariant
            k <= body@.len(),
            out@ == pre + body@.subrange(0, k as int),
        decreases body@.len() - k,
    {
        out.push(body[k]);
        k = k + 1;
        assert(out@ =~= pre + body@.subrange(0, k as int));
    }
    assert(body@.subrange(0, body@.len() as int) =~= body@);
    assert(pre =~= c_to_b_prefix(n as int));
    Some(out)
}

/// A pure mode-A run from the initial mode C: the latch into A, then each
/// byte's mode-A codeword (nothing for an empty run).
pub fn encode_mode_a_run_from_c(bytes: &[u8]) -> (r: Option<Vec<u16>>)
    ensures
        bytes@.len() == 0 ==> (r matches Some(v) && v@.len() == 0),
        bytes@.len() > 0 ==> match codewords_in(bytes@, 0) {
            Some(body) => r matches Some(v) && v@ == seq![MODE_C_LATCH_TO_A] + body,
            None => r is None,
        },
{
    if bytes.len() == 0 {
        return Some(Vec::new());
    }
    let body = match encode_a(bytes) {
        Some(b) => b,
        None => return None,
    };
    let mut out: Vec<u16> = Vec::new();
    out.push(MODE_C_LATCH_TO_A);
    let ghost pre = out@;
    let mut k: usize = 0;
    while k < body.len()
        invariant
            k <= body@.len(),
            out@ == pre + body@.subrange(0, k as int),
        decreases body@.len() - k,
    {
        out.push(body[k]);
        k = k + 1;
        assert(out@ =~= pre + body@.subrange(0, k as int));
    }
    assert(body@.subrange(0, body@.len() as int) =~= body@);
    Some(out)
}

/// Every byte is an ASCII digit.
pub open spec fn all_digit_bytes(d: Seq<u8>) -> bool {
    forall|j: int| 0 <= j < d.len() ==> is_digit_byte(#[trigger] d[j] as int)
}

/// The codewords of a pure digit payload from the initial mode C: nothing
/// when empty; a shift to B and the digit when single; otherwise `FN1`,
/// the digit pairs, and for an odd length a shift to B with the last digit.
pub open spec fn numeric_run_spec(d: Seq<u8>) -> Option<Seq<u16>> {
    let n = d.len() as int;
    if !all_digit_bytes(d) {
        None
    } else if n == 0 {
        Some(Seq::empty())
    } else if n == 1 {
        match codewords_in(d, 1) {
            Some(b) => Some(seq![MODE_C_SHIFT_TO_B@[0]] + b),
            None => None,
        }
    } else {
        let pairs = digit_pairs(d.subrange(0, (n / 2) * 2));
        if n % 2 == 1 {
            match codewords_in(d.subrange(n - 1, n), 1) {
                Some(b) => Some(seq![MODE_C_FN1_AT_SEGSTART] + pairs + seq![MODE_C_SHIFT_TO_B@[0]] + b),
                None => None,
            }
        } else {
            Some(seq![MODE_C_FN1_AT_SEGSTART] + pairs)
        }
    }
}

fn append_all(out: &mut Vec<u16>, src: &Vec<u16>)
    ensures
        final(out)@ == old(out)@ + src@,
{
    let ghost start = out@;
    let mut k: usize = 0;
    while k < src.len()
        invariant
            k <= src@.len(),
            out@ == start + src@.subrange(0, k as int),
        decreases src@.len() - k,
    {
        out.push(src[k]);
        k = k + 1;
        assert(out@ =~= start + src@.subrange(0, k as int));
    }
    assert(src@.subrange(0, src@.len() as int) =~= src@);
}

/// Encodes a pure digit payload from the initial mode C.
pub fn encode_numeric_run_from_c(digits: &[u8]) -> (r: Option<Vec<u16>>)
    ensures
        match numeric_run_spec(digits@) {
            Some(s) => r matches Some(v) && v@ == s,
            None => r is None,
        },
{
    let n = digits.len();
    let mut k: usize = 0;
    while k < n
        invariant
            n == digits@.len(),
            k <= n,
            forall|j: int| 0 <= j < k ==> is_digit_byte(#[trigger] digits@[j] as int),
        decreases n - k,
    {
        if !(48 <= digits[k] && digits[k] <= 57) {
            return None;
        }
        k = k + 1;
    }
    if n == 0 {
        return Some(Vec::new());
    }
    if n == 1 {
        let b_cw = match encode_b(digits) {
            Some(b) => b,
            None => return None,
        };
        let mut out: Vec<u16> = Vec::new();
        out.push(MODE_C_SHIFT_TO_B[0]);
        append_all(&mut out, &b_cw);
        return Some(out);
    }
    let pairs = n / 2;
    let mut out: Vec<u16> = Vec::new();
    out.push(MODE_C_FN1_AT_SEGSTART);
    let head = &digits[0..pairs * 2];
    proof {
        assert(head@ =~= digits@.subrange(0, (n as int / 2) * 2));
    }
    let pair_cws = match encode_c(head) {
        Some(p) => p,
        None => return None,
    };
    append_all(&mut out, &pair_cws);
    if n % 2 == 1 {
        let tail = &digits[n - 1..n];
        let trail = match encode_b(tail) {
            Some(b) => b,
            None => return None,
        };
        out.push(MODE_C_SHIFT_TO_B[0]);
        append_all(&mut out, &trail);
    }
    Some(out)
}

/// What the encoder does first at the start of a message.
#[derive(Debug, Clone, Copy, PartialEq, Eq, Structural)]
pub enum InitialAction {
    /// The message is empty.
    NoPrologue,
    /// Two or more leading digits: FNC1, then digit pairs in mode C.
    Fn1ThenStayInC,
    /// Latch to mode A.
    LatchToA,
    /// Latch to mode B for a run of more than four.
    LatchToB,
    /// Shift to mode B for a run of `n` (1 to 4) values.
    ShiftToBFor(u32),
    /// The leading byte starts no mode-A or mode-B run (a byte of 128 or
    /// more): binary mode.
    LatchToBinary,
}

/// The segment-start decision for `msg`.
pub open spec fn initial_action(msg: Seq<u8>) -> InitialAction {
    let m = lift(msg);
    if msg.len() == 0 {
        InitialAction::NoPrologue
    } else if nd_at(m, 0) >= 2 {
        InitialAction::Fn1ThenStayInC
    } else if ahead_a_at(m, 0) > ahead_b_at(m, 0) {
        InitialAction::LatchToA
    } else if msg[0] == 9 || msg[0] == 28 || msg[0] == 29 || msg[0] == 30 {
        InitialAction::LatchToA
    } else if ahead_b_at(m, 0) == 0 {
        InitialAction::LatchToBinary
    } else if ahead_b_at(m, 0) > 4 {
        InitialAction::LatchToB
    } else {
        InitialAction::ShiftToBFor(ahead_b_at(m, 0) as u32)
    }
}

/// Picks the segment-start action for `msg` from its tables.
pub fn dispatch_initial(tables: &PositionTables, msg: &[u8]) -> (r: InitialAction)
    requires
        tables_of(*tables, lift(msg@)),
    ensures
        r == initial_action(msg@),
        r matches InitialAction::ShiftToBFor(n) ==> 1 <= n <= 4,
{
    proof {
        lemma_ahead_b_nonneg(lift(msg@), 0);
    }
    if msg.len() == 0 {
        return InitialAction::NoPrologue;
    }
    proof {
        assert(tables.n_digits@[0] == nd_at(lift(msg@), 0));
    }
    if tables.n_digits[0] >= 2 {
        return InitialAction::Fn1ThenStayInC;
    }
    let m = tables.ahead_a[0];
    let n = tables.ahead_b[0];
    if m > n {
        return InitialAction::LatchToA;
    }
    let b = msg[0];
    if b == 9 || b == 28 || b == 29 || b == 30 {
        return InitialAction::LatchToA;
    }
    if n == 0 {
        return InitialAction::LatchToBinary;
    }
    if n > 4 {
        return InitialAction::LatchToB;
    }
    InitialAction::ShiftToBFor(n)
}

/// The codewords of a payload that one run covers, or `None` when the
/// payload needs mode changes in the middle.
pub open spec fn short_pure_spec(msg: Seq<u8>) -> Option<Seq<u16>> {
    match initial_action(msg) {
        InitialAction::NoPrologue => Some(Seq::empty()),
        InitialAction::Fn1ThenStayInC => if all_digit_bytes(msg) {
            numeric_run_spec(msg)
        } else {
            None
        },
        InitialAction::LatchToA => match codewords_in(msg, 0) {
            Some(body) => Some(seq![MODE_C_LATCH_TO_A] + body),
            None => None,
        },
        InitialAction::LatchToBinary => None,
        InitialAction::LatchToB | InitialAction::ShiftToBFor(_) => {
            let whole = match initial_action(msg) {
                InitialAction::ShiftToBFor(n) => msg.len() == n as int,
                _ => true,
            };
            if whole {
                match codewords_in(msg, 1) {
                    Some(body) => Some(c_to_b_prefix(msg.len() as int) + body),
                    None => None,
                }
            } else {
                None
            }
        },
    }
}

/// Encodes a payload that one run of a single mode covers.
pub fn encode_short_pure(msg: &[u8]) -> (r: Option<Vec<u16>>)
    requires
        msg@.len() < 0x1000_0000,
    ensures
        match short_pure_spec(msg@) {
            Some(s) => r matches Some(v) && v@ == s,
            None => r is None,
        },
{
    let tables = build_position_tables(msg);
    match dispatch_initial(&tables, msg) {
        InitialAction::NoPrologue => Some(Vec::new()),
        InitialAction::Fn1ThenStayInC => {
            let mut k: usize = 0;
            while k < msg.len()
                invariant
                    k <= msg@.len(),
                    initial_action(msg@) == InitialAction::Fn1ThenStayInC,
                    forall|j: int| 0 <= j < k ==> is_digit_byte(#[trigger] msg@[j] as int),
                decreases msg@.len() - k,
            {
                if !(48 <= msg[k] && msg[k] <= 57) {
                    proof {
                        assert(!is_digit_byte(msg@[k as int] as int));
                        assert(!all_digit_bytes(msg@));
                    }
                    return None;
                }
                k = k + 1;
            }
            encode_numeric_run_from_c(msg)
        },
        InitialAction::LatchToA => encode_mode_a_run_from_c(msg),
        InitialAction::LatchToB => encode_mode_b_run_from_c(msg),
        InitialAction::LatchToBinary => None,
        InitialAction::ShiftToBFor(n) => {
            if msg.len() == n as usize {
                encode_mode_b_run_from_c(msg)
            } else {
                None
            }
        },
    }
}

} // verus!
