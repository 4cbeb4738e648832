//! DotCode's mode selector: one step of each compaction mode (A, B, C and
//! binary), stated as spec functions over the message and its lookahead
//! tables, and the executable steps that follow them.

use vstd::prelude::*;

use super::binary::{base259_spec, flush_spec, BinState};
use super::position::build_position_tables_i16;
use crate::error::Error;
use crate::text::{decimal, push_decimal, push_signed, signed_decimal};
use super::position::{
    ahead_a_at, ahead_b_at, ahead_c_at, binary_at, crlf_at, datum_a_at, datum_b_at, datum_c_at,
    nd_at, tables_of, try_c_at, PositionTables,
};
use super::tables::{
    codeword_in, first_row_from, is_digit_byte, lemma_fn_markers_encodable, lookup_codeword_in_mode,
    lookup_codeword_in_mode_i16, BIN_ENTER,
    BIN_LATCH_TO_C, BIN_SHIFT_TO_C, BIN_TERM_TO_A, BIN_TERM_TO_B, CHARMAPS, FN1, FN2, FN3,
    MODE_A_LATCH_TO_B, MODE_A_LATCH_TO_C, MODE_A_SHIFT_TO_B, MODE_A_SHIFT_TO_C,
    MODE_B_CRLF, MODE_B_LATCH_TO_A, MODE_B_LATCH_TO_C, MODE_B_SHIFT_TO_A_ONE, MODE_B_SHIFT_TO_C,
    MODE_C_FN1_AT_SEGSTART, MODE_C_LATCH_TO_A, MODE_C_LATCH_TO_B, MODE_C_SHIFT_TO_B,
};

verus! {

/// The encoder's current compaction mode.
#[derive(Debug, Clone, Copy, PartialEq, Eq, Structural)]
pub enum Mode {
    A,
    B,
    C,
    Bin,
}

/// A stream the selector accepts: bytes `0..=255` and the three
/// function-character markers.
pub open spec fn valid_stream(msg: Seq<i16>) -> bool {
    forall|j: int|
        0 <= j < msg.len() ==> (0 <= #[trigger] msg[j] <= 255 || msg[j] == FN1 || msg[j] == FN2
            || msg[j] == FN3)
}

/// `FN1`, `FN2` or `FN3`.
pub open spec fn is_fn_marker(b: i16) -> bool {
    b == FN1 || b == FN2 || b == FN3
}

/// Codeword of a function-character marker (the same in every mode).
pub open spec fn marker_cw(b: i16) -> u16 {
    if b == FN1 {
        107
    } else if b == FN2 {
        108
    } else {
        109
    }
}

/// Codeword of `b` in column `col`, `0` when it has none.
pub open spec fn cw_of(b: i16, col: int) -> u16 {
    match codeword_in(b, col) {
        Some(c) => c,
        None => 0,
    }
}

/// Mode-C codeword of the digit pair at `i`.
pub open spec fn pair_cw(msg: Seq<i16>, i: int) -> u16 {
    ((msg[i] - 48) * 10 + (msg[i + 1] - 48)) as u16
}

/// `k` mode-C units from `i` (a marker or a digit pair each): the
/// codewords and the index after them.
pub open spec fn c_run(msg: Seq<i16>, i: int, k: nat) -> (Seq<u16>, int)
    decreases k,
{
    if k == 0 {
        (Seq::empty(), i)
    } else if msg[i] < 0 {
        let r = c_run(msg, i + 1, (k - 1) as nat);
        (seq![cw_of(msg[i], 2)] + r.0, r.1)
    } else {
        let r = c_run(msg, i + 2, (k - 1) as nat);
        (seq![pair_cw(msg, i)] + r.0, r.1)
    }
}

/// `k` mode-B units from `i` (`<CR><LF>` is one unit): the codewords and
/// the index after them.
pub open spec fn b_run(msg: Seq<i16>, i: int, k: nat) -> (Seq<u16>, int)
    decreases k,
{
    if k == 0 {
        (Seq::empty(), i)
    } else if crlf_at(msg, i) {
        let r = b_run(msg, i + 2, (k - 1) as nat);
        (seq![MODE_B_CRLF] + r.0, r.1)
    } else {
        let r = b_run(msg, i + 1, (k - 1) as nat);
        (seq![cw_of(msg[i], 1)] + r.0, r.1)
    }
}

/// One mode-C step at `i`: the next index, the next mode and the
/// codewords emitted.  `binary_escape` selects whether a high byte
/// enters binary mode (the marker-aware selector) or is left alone.
#[verifier::opaque]
pub open spec fn c_step(msg: Seq<i16>, i: int, segstart: int, binary_escape: bool) -> (
    int,
    Mode,
    Seq<u16>,
) {
    let pre: Seq<u16> = if i == segstart && nd_at(msg, i) >= 2 {
        seq![MODE_C_FN1_AT_SEGSTART]
    } else {
        Seq::empty()
    };
    let a = ahead_a_at(msg, i);
    let b = ahead_b_at(msg, i);
    if i == segstart && msg[i] == FN1 && nd_at(msg, i + 1) >= 2 {
        (i + 1, Mode::C, pre)
    } else if datum_c_at(msg, i) && is_fn_marker(msg[i]) {
        (i + 1, Mode::C, pre.push(marker_cw(msg[i])))
    } else if datum_c_at(msg, i) && is_digit_byte(msg[i] as int) && i + 1 < msg.len()
        && is_digit_byte(msg[i + 1] as int) {
        (i + 2, Mode::C, pre.push(pair_cw(msg, i)))
    } else if binary_escape && binary_at(msg, i) {
        (i, Mode::Bin, pre.push(BIN_ENTER))
    } else if a > b {
        (i, Mode::A, pre.push(MODE_C_LATCH_TO_A))
    } else if i == segstart && (msg[i] == 9 || msg[i] == 28 || msg[i] == 29 || msg[i] == 30) {
        (i, Mode::A, pre.push(MODE_C_LATCH_TO_A))
    } else if b > 4 {
        (i, Mode::B, pre.push(MODE_C_LATCH_TO_B))
    } else if b == 0 {
        (i, Mode::C, pre)
    } else {
        let r = b_run(msg, i, b as nat);
        (r.1, Mode::C, pre.push(MODE_C_SHIFT_TO_B@[b - 1]) + r.0)
    }
}

/// One mode-A step at `i`.
#[verifier::opaque]
pub open spec fn a_step(msg: Seq<i16>, i: int) -> (int, Mode, Seq<u16>) {
    let tc = try_c_at(msg, i);
    let nb = ahead_b_at(msg, i);
    if tc >= 2 {
        if tc > 4 {
            (i, Mode::C, seq![MODE_A_LATCH_TO_C])
        } else {
            let r = c_run(msg, i, tc as nat);
            (r.1, Mode::A, seq![MODE_A_SHIFT_TO_C@[tc - 2]] + r.0)
        }
    } else if datum_a_at(msg, i) {
        if is_fn_marker(msg[i]) {
            (i + 1, Mode::A, seq![marker_cw(msg[i])])
        } else {
            (i + 1, Mode::A, seq![cw_of(msg[i], 0)])
        }
    } else if nb > 6 {
        (i, Mode::B, seq![MODE_A_LATCH_TO_B])
    } else if nb == 0 {
        (i, Mode::A, Seq::empty())
    } else {
        let r = b_run(msg, i, nb as nat);
        (r.1, Mode::A, seq![MODE_A_SHIFT_TO_B@[nb - 1]] + r.0)
    }
}

/// One mode-B step at `i`.
#[verifier::opaque]
pub open spec fn b_step(msg: Seq<i16>, i: int) -> (int, Mode, Seq<u16>) {
    let tc = try_c_at(msg, i);
    if tc >= 2 {
        if tc > 4 {
            (i, Mode::C, seq![MODE_B_LATCH_TO_C])
        } else {
            let r = c_run(msg, i, tc as nat);
            (r.1, Mode::B, seq![MODE_B_SHIFT_TO_C@[tc - 2]] + r.0)
        }
    } else if datum_b_at(msg, i) {
        if is_fn_marker(msg[i]) {
            (i + 1, Mode::B, seq![marker_cw(msg[i])])
        } else if crlf_at(msg, i) {
            (i + 2, Mode::B, seq![MODE_B_CRLF])
        } else {
            (i + 1, Mode::B, seq![cw_of(msg[i], 1)])
        }
    } else if ahead_a_at(msg, i) == 1 {
        (i + 1, Mode::B, seq![MODE_B_SHIFT_TO_A_ONE, cw_of(msg[i], 0)])
    } else {
        (i, Mode::A, seq![MODE_B_LATCH_TO_A])
    }
}

/// A mode-C run of `k` units stays inside the message and uses up `k` of
/// the lookahead.
pub proof fn lemma_c_run(msg: Seq<i16>, i: int, k: nat)
    requires
        valid_stream(msg),
        0 <= i,
        k <= ahead_c_at(msg, i),
    ensures
        i + k <= c_run(msg, i, k).1 <= msg.len() || k == 0,
        c_run(msg, i, k).1 >= i,
        k == 0 ==> c_run(msg, i, k).1 == i,
        ahead_c_at(msg, c_run(msg, i, k).1) == ahead_c_at(msg, i) - k,
        c_run(msg, i, k).1 <= msg.len() || k == 0,
    decreases k,
{
    if k > 0 {
        if msg[i] < 0 {
            lemma_c_run(msg, i + 1, (k - 1) as nat);
        } else {
            assert(nd_at(msg, i) >= 2);
            lemma_nd_bound(msg, i);
            lemma_c_run(msg, i + 2, (k - 1) as nat);
        }
    }
}

/// A digit run never runs past the end.
pub proof fn lemma_nd_bound(msg: Seq<i16>, i: int)
    ensures
        nd_at(msg, i) <= msg.len() - i || nd_at(msg, i) == 0,
        nd_at(msg, i) >= 0,
        nd_at(msg, i) >= 1 ==> 0 <= i < msg.len() && is_digit_byte(msg[i] as int),
        nd_at(msg, i) >= 2 ==> i + 1 < msg.len() && is_digit_byte(msg[i + 1] as int),
    decreases msg.len() - i,
{
    if 0 <= i < msg.len() {
        lemma_nd_bound(msg, i + 1);
    }
}

/// The mode-B lookahead is never negative.
pub proof fn lemma_ahead_b_nonneg(msg: Seq<i16>, i: int)
    ensures
        ahead_b_at(msg, i) >= 0,
    decreases msg.len() - i,
{
    if 0 <= i < msg.len() {
        lemma_ahead_b_nonneg(msg, i + 1);
        if i + 2 <= msg.len() {
            lemma_ahead_b_nonneg(msg, i + 2);
        }
    }
}

/// A mode-B run of `k` units stays inside the message and uses up `k` of
/// the lookahead.
pub proof fn lemma_b_run(msg: Seq<i16>, i: int, k: nat)
    requires
        0 <= i,
        k <= ahead_b_at(msg, i),
    ensures
        k > 0 ==> i + k <= c_run_end_b(msg, i, k) <= msg.len(),
        k == 0 ==> b_run(msg, i, k).1 == i,
        b_run(msg, i, k).1 >= i,
        ahead_b_at(msg, b_run(msg, i, k).1) == ahead_b_at(msg, i) - k,
    decreases k,
{
    if k > 0 {
        if crlf_at(msg, i) {
            lemma_b_run(msg, i + 2, (k - 1) as nat);
        } else {
            lemma_b_run(msg, i + 1, (k - 1) as nat);
        }
    }
}

/// End index of a mode-B run.
pub open spec fn c_run_end_b(msg: Seq<i16>, i: int, k: nat) -> int {
    b_run(msg, i, k).1
}

/// Emits `k` mode-C units from `*i`.
fn emit_c_units(msg: &[i16], i: &mut usize, k: u32, cws: &mut Vec<u16>)
    requires
        valid_stream(msg@),
        msg@.len() < 0x1000_0000,
        *old(i) <= msg@.len(),
        k <= ahead_c_at(msg@, *old(i) as int),
    ensures
        *final(i) as int == c_run(msg@, *old(i) as int, k as nat).1,
        final(cws)@ == old(cws)@ + c_run(msg@, *old(i) as int, k as nat).0,
{
    let ghost i0 = *i as int;
    let ghost c0 = cws@;
    let mut r: u32 = k;
    proof {
        lemma_c_run(msg@, i0, k as nat);
    }
    while r > 0
        invariant
            valid_stream(msg@),
            msg@.len() < 0x1000_0000,
            *i <= msg@.len(),
            r <= ahead_c_at(msg@, *i as int),
            cws@ + c_run(msg@, *i as int, r as nat).0 == c0 + c_run(msg@, i0, k as nat).0,
            c_run(msg@, *i as int, r as nat).1 == c_run(msg@, i0, k as nat).1,
        decreases r,
    {
        let ghost j = *i as int;
        let cur = msg[*i];
        if cur < 0 {
            proof {
                lemma_fn_markers_encodable(2);
            }
            let cw = lookup_codeword_in_mode_i16(cur, 2).unwrap();
            cws.push(cw);
            *i = *i + 1;
        } else {
            proof {
                lemma_nd_bound(msg@, j);
            }
            let nxt = msg[*i + 1];
            let pair = (cur - 48) * 10 + (nxt - 48);
            cws.push(pair as u16);
            *i = *i + 2;
        }
        r = r - 1;
        proof {
            assert(cws@ + c_run(msg@, *i as int, r as nat).0 =~= c0 + c_run(msg@, i0, k as nat).0);
        }
    }
}

/// Emits `k` mode-B units from `*i`.
fn emit_b_units(msg: &[i16], i: &mut usize, k: u32, cws: &mut Vec<u16>)
    requires
        msg@.len() < 0x1000_0000,
        *old(i) <= msg@.len(),
        k <= ahead_b_at(msg@, *old(i) as int),
    ensures
        *final(i) as int == b_run(msg@, *old(i) as int, k as nat).1,
        final(cws)@ == old(cws)@ + b_run(msg@, *old(i) as int, k as nat).0,
{
    let ghost i0 = *i as int;
    let ghost c0 = cws@;
    let mut r: u32 = k;
    while r > 0
        invariant
            msg@.len() < 0x1000_0000,
            *i <= msg@.len(),
            r <= ahead_b_at(msg@, *i as int),
            cws@ + b_run(msg@, *i as int, r as nat).0 == c0 + b_run(msg@, i0, k as nat).0,
            b_run(msg@, *i as int, r as nat).1 == b_run(msg@, i0, k as nat).1,
        decreases r,
    {
        let cur = msg[*i];
        if cur == 13 && *i + 1 < msg.len() && msg[*i + 1] == 10 {
            cws.push(MODE_B_CRLF);
            *i = *i + 2;
        } else {
            let cw = lookup_codeword_in_mode_i16(cur, 1).unwrap();
            cws.push(cw);
            *i = *i + 1;
        }
        r = r - 1;
        proof {
            assert(cws@ + b_run(msg@, *i as int, r as nat).0 =~= c0 + b_run(msg@, i0, k as nat).0);
        }
    }
}

/// The codeword of a function-character marker.
fn marker_codeword(cur: i16) -> (cw: u16)
    requires
        is_fn_marker(cur),
    ensures
        cw == marker_cw(cur),
{
    if cur == FN1 {
        107
    } else if cur == FN2 {
        108
    } else {
        109
    }
}

/// One step of the marker-aware mode-C encoder.
fn enc_c_step_i16(
    msg: &[i16],
    tables: &PositionTables,
    i: &mut usize,
    mode: &mut Mode,
    cws: &mut Vec<u16>,
    segstart: usize,
)
    requires
        tables_of(*tables, msg@),
        valid_stream(msg@),
        msg@.len() < 0x1000_0000,
        *old(i) < msg@.len(),
        *old(mode) == Mode::C,
    ensures
        *final(i) as int == c_step(msg@, *old(i) as int, segstart as int, true).0,
        *final(mode) == c_step(msg@, *old(i) as int, segstart as int, true).1,
        final(cws)@ == old(cws)@ + c_step(msg@, *old(i) as int, segstart as int, true).2,
{
    proof {
        reveal(c_step);
    }
    let ghost i0 = *i as int;
    let ghost c0 = cws@;
    let ghost m = msg@;
    proof {
        assert(tables.n_digits@[i0] == nd_at(m, i0));
        assert(tables.n_digits@[i0 + 1] == nd_at(m, i0 + 1));
        lemma_nd_bound(m, i0);
    }
    if *i == segstart {
        if tables.n_digits[*i] >= 2 {
            cws.push(MODE_C_FN1_AT_SEGSTART);
        }
        if msg[*i] == FN1 && tables.n_digits[*i + 1] >= 2 {
            *i = *i + 1;
            return;
        }
    }
    let ghost c1 = cws@;
    if tables.datum_c[*i] {
        let cur = msg[*i];
        if cur == FN1 || cur == FN2 || cur == FN3 {
            cws.push(marker_codeword(cur));
            *i = *i + 1;
            return;
        }
        if 48 <= cur && cur <= 57 && *i + 1 < msg.len() && 48 <= msg[*i + 1] && msg[*i + 1] <= 57 {
            let pair = (cur - 48) * 10 + (msg[*i + 1] - 48);
            cws.push(pair as u16);
            *i = *i + 2;
            return;
        }
    }
    if tables.binary[*i] {
        cws.push(BIN_ENTER);
        *mode = Mode::Bin;
        return;
    }
    let a = tables.ahead_a[*i];
    let n = tables.ahead_b[*i];
    if a > n {
        cws.push(MODE_C_LATCH_TO_A);
        *mode = Mode::A;
        return;
    }
    if *i == segstart {
        let b = msg[*i];
        if b == 9 || b == 28 || b == 29 || b == 30 {
            cws.push(MODE_C_LATCH_TO_A);
            *mode = Mode::A;
            return;
        }
    }
    if n > 4 {
        cws.push(MODE_C_LATCH_TO_B);
        *mode = Mode::B;
        return;
    }
    if n == 0 {
        return;
    }
    cws.push(MODE_C_SHIFT_TO_B[(n - 1) as usize]);
    let ghost c2 = cws@;
    emit_b_units(msg, i, n, cws);
    proof {
        assert(cws@ =~= c0 + c_step(m, i0, segstart as int, true).2);
    }
}

/// One step of the marker-aware mode-B encoder.
fn enc_b_step_i16(
    msg: &[i16],
    tables: &PositionTables,
    i: &mut usize,
    mode: &mut Mode,
    cws: &mut Vec<u16>,
)
    requires
        tables_of(*tables, msg@),
        valid_stream(msg@),
        msg@.len() < 0x1000_0000,
        *old(i) < msg@.len(),
        *old(mode) == Mode::B,
    ensures
        *final(i) as int == b_step(msg@, *old(i) as int).0,
        *final(mode) == b_step(msg@, *old(i) as int).1,
        final(cws)@ == old(cws)@ + b_step(msg@, *old(i) as int).2,
{
    proof {
        reveal(b_step);
    }
    let ghost i0 = *i as int;
    let ghost c0 = cws@;
    let ghost m = msg@;
    proof {
        assert(tables.n_digits@[i0] == nd_at(m, i0));
    }
    let n_try_c = tables.try_c[*i];
    if n_try_c >= 2 {
        if n_try_c > 4 {
            cws.push(MODE_B_LATCH_TO_C);
            *mode = Mode::C;
            return;
        }
        cws.push(MODE_B_SHIFT_TO_C[(n_try_c - 2) as usize]);
        emit_c_units(msg, i, n_try_c, cws);
        proof {
            assert(cws@ =~= c0 + b_step(m, i0).2);
        }
        return;
    }
    if tables.datum_b[*i] {
        let cur = msg[*i];
        if cur == FN1 || cur == FN2 || cur == FN3 {
            cws.push(marker_codeword(cur));
            *i = *i + 1;
            return;
        }
        if cur == 13 && *i + 1 < msg.len() && msg[*i + 1] == 10 {
            cws.push(MODE_B_CRLF);
            *i = *i + 2;
            return;
        }
        let cw = lookup_codeword_in_mode_i16(cur, 1).unwrap();
        cws.push(cw);
        *i = *i + 1;
        return;
    }
    let n_a = tables.ahead_a[*i];
    if n_a == 1 {
        cws.push(MODE_B_SHIFT_TO_A_ONE);
        let cw = lookup_codeword_in_mode_i16(msg[*i], 0).unwrap();
        cws.push(cw);
        *i = *i + 1;
        proof {
            assert(cws@ =~= c0 + b_step(m, i0).2);
        }
        return;
    }
    cws.push(MODE_B_LATCH_TO_A);
    *mode = Mode::A;
}

/// One step of the marker-aware mode-A encoder.
fn enc_a_step_i16(
    msg: &[i16],
    tables: &PositionTables,
    i: &mut usize,
    mode: &mut Mode,
    cws: &mut Vec<u16>,
)
    requires
        tables_of(*tables, msg@),
        valid_stream(msg@),
        msg@.len() < 0x1000_0000,
        *old(i) < msg@.len(),
        *old(mode) == Mode::A,
    ensures
        *final(i) as int == a_step(msg@, *old(i) as int).0,
        *final(mode) == a_step(msg@, *old(i) as int).1,
        final(cws)@ == old(cws)@ + a_step(msg@, *old(i) as int).2,
{
    proof {
        reveal(a_step);
    }
    let ghost i0 = *i as int;
    let ghost c0 = cws@;
    let ghost m = msg@;
    proof {
        assert(tables.n_digits@[i0] == nd_at(m, i0));
    }
    let n_try_c = tables.try_c[*i];
    if n_try_c >= 2 {
        if n_try_c > 4 {
            cws.push(MODE_A_LATCH_TO_C);
            *mode = Mode::C;
            return;
        }
        cws.push(MODE_A_SHIFT_TO_C[(n_try_c - 2) as usize]);
        emit_c_units(msg, i, n_try_c, cws);
        proof {
            assert(cws@ =~= c0 + a_step(m, i0).2);
        }
        return;
    }
    if tables.datum_a[*i] {
        let cur = msg[*i];
        if cur == FN1 || cur == FN2 || cur == FN3 {
            cws.push(marker_codeword(cur));
            *i = *i + 1;
            return;
        }
        let cw = lookup_codeword_in_mode_i16(cur, 0).unwrap();
        cws.push(cw);
        *i = *i + 1;
        return;
    }
    let n_b = tables.ahead_b[*i];
    if n_b > 6 {
        cws.push(MODE_A_LATCH_TO_B);
        *mode = Mode::B;
        return;
    }
    if n_b == 0 {
        return;
    }
    cws.push(MODE_A_SHIFT_TO_B[(n_b - 1) as usize]);
    emit_b_units(msg, i, n_b, cws);
    proof {
        assert(cws@ =~= c0 + a_step(m, i0).2);
    }
}

/// A high byte at `i` or within the next three positions keeps binary
/// mode worthwhile.
pub open spec fn bin_window(msg: Seq<i16>, i: int) -> bool {
    binary_at(msg, i) || binary_at(msg, i + 1) || binary_at(msg, i + 2) || binary_at(msg, i + 3)
}

/// One binary-mode step at `i` with the pending group `buf`: the next
/// index, mode, emitted codewords and pending group.
#[verifier::opaque]
pub open spec fn bin_step(msg: Seq<i16>, i: int, buf: Seq<u8>) -> (int, Mode, Seq<u16>, Seq<u8>) {
    let tc = try_c_at(msg, i);
    if tc >= 2 {
        let f = flush_spec(buf);
        if tc > 7 {
            (i, Mode::C, f.push(BIN_LATCH_TO_C), Seq::empty())
        } else {
            let r = c_run(msg, i, tc as nat);
            (r.1, Mode::Bin, f.push(BIN_SHIFT_TO_C@[tc - 2]) + r.0, Seq::empty())
        }
    } else if msg[i] >= 0 && bin_window(msg, i) {
        let grown = buf.push(msg[i] as u8);
        if grown.len() == 5 || i + 1 == msg.len() {
            (i + 1, Mode::Bin, base259_spec(grown), Seq::empty())
        } else {
            (i + 1, Mode::Bin, Seq::empty(), grown)
        }
    } else if ahead_a_at(msg, i) > ahead_b_at(msg, i) {
        (i, Mode::A, flush_spec(buf).push(BIN_TERM_TO_A), Seq::empty())
    } else {
        (i, Mode::B, flush_spec(buf).push(BIN_TERM_TO_B), Seq::empty())
    }
}

/// Binary mode never loses a byte: a step either keeps the pending group,
/// grown by the byte it takes and with nothing emitted, or ends with no
/// group pending, and then its output begins with the base-259 codewords
/// of every pending byte (the old group, plus the byte it takes when it
/// takes one), whichever mode follows.
#[verifier::rlimit(50)]
pub proof fn law_binary_keeps_every_byte(msg: Seq<i16>, i: int, buf: Seq<u8>)
    requires
        0 <= i < msg.len(),
        buf.len() < 5,
    ensures
        ({
            let r = bin_step(msg, i, buf);
            &&& r.3.len() > 0 ==> r.3 == buf.push(msg[i] as u8) && r.2.len() == 0 && r.0 == i + 1
            &&& r.3.len() == 0 ==> exists|nb: Seq<u8>|
                (nb == buf || (nb == buf.push(msg[i] as u8) && r.0 == i + 1))
                    && r.2.len() >= #[trigger] flush_spec(nb).len() && r.2.subrange(
                    0,
                    flush_spec(nb).len() as int,
                ) == flush_spec(nb)
        }),
{
    reveal(bin_step);
    let r = bin_step(msg, i, buf);
    let tc = try_c_at(msg, i);
    if tc >= 2 {
        let f = flush_spec(buf);
        if tc > 7 {
            assert(r.2.subrange(0, f.len() as int) =~= f);
        } else {
            let c = c_run(msg, i, tc as nat);
            assert(r.2.subrange(0, f.len() as int) =~= f);
        }
        assert(flush_spec(buf) == f);
    } else if msg[i] >= 0 && bin_window(msg, i) {
        let grown = buf.push(msg[i] as u8);
        if grown.len() == 5 || i + 1 == msg.len() {
            assert(flush_spec(grown) == base259_spec(grown));
            assert(r.2.subrange(0, flush_spec(grown).len() as int) =~= flush_spec(grown));
        }
    } else {
        let f = flush_spec(buf);
        assert(r.2.subrange(0, f.len() as int) =~= f);
    }
}

/// Lifts a byte string to the marker-aware form.
pub open spec fn lift_bytes(msg: Seq<u8>) -> Seq<i16> {
    msg.map_values(|b: u8| b as i16)
}

/// One step of the binary-mode encoder.
fn enc_bin_step_i16(
    msg: &[i16],
    tables: &PositionTables,
    i: &mut usize,
    mode: &mut Mode,
    cws: &mut Vec<u16>,
    bin: &mut BinState,
)
    requires
        tables_of(*tables, msg@),
        valid_stream(msg@),
        msg@.len() < 0x1000_0000,
        *old(i) < msg@.len(),
        *old(mode) == Mode::Bin,
        old(bin).bpos < 5,
    ensures
        *final(i) as int == bin_step(msg@, *old(i) as int, old(bin).pending()).0,
        *final(mode) == bin_step(msg@, *old(i) as int, old(bin).pending()).1,
        final(cws)@ == old(cws)@ + bin_step(msg@, *old(i) as int, old(bin).pending()).2,
        final(bin).pending() == bin_step(msg@, *old(i) as int, old(bin).pending()).3,
        final(bin).bpos < 5,
{
    proof {
        reveal(bin_step);
    }
    let ghost i0 = *i as int;
    let ghost c0 = cws@;
    let ghost m = msg@;
    let ghost buf = bin.pending();
    proof {
        assert(tables.n_digits@[i0] == nd_at(m, i0));
        assert(m[i0] == msg@[i0]);
    }
    let n_try_c = tables.try_c[*i];
    if n_try_c >= 2 {
        bin.finalise(cws);
        if n_try_c > 7 {
            cws.push(BIN_LATCH_TO_C);
            *mode = Mode::C;
            proof {
                assert(bin.pending() =~= Seq::<u8>::empty());
            }
            return;
        }
        cws.push(BIN_SHIFT_TO_C[(n_try_c - 2) as usize]);
        emit_c_units(msg, i, n_try_c, cws);
        proof {
            assert(cws@ =~= c0 + bin_step(m, i0, buf).2);
            assert(bin.pending() =~= Seq::<u8>::empty());
        }
        return;
    }
    let cur = msg[*i];
    if cur >= 0 {
        let in_bin_window = tables.binary[*i] || tables.binary[*i + 1] || tables.binary[*i + 2]
            || tables.binary[*i + 3];
        if in_bin_window {
            bin.add_byte(cur as u8, cws);
            *i = *i + 1;
            if *i == msg.len() {
                bin.finalise(cws);
            }
            proof {
                let grown = buf.push(cur as u8);
                assert(bin.pending() =~= bin_step(m, i0, buf).3);
                assert(cws@ =~= c0 + bin_step(m, i0, buf).2);
            }
            return;
        }
    }
    bin.finalise(cws);
    let a = tables.ahead_a[*i];
    let n = tables.ahead_b[*i];
    if a > n {
        cws.push(BIN_TERM_TO_A);
        *mode = Mode::A;
    } else {
        cws.push(BIN_TERM_TO_B);
        *mode = Mode::B;
    }
    proof {
        assert(bin.pending() =~= Seq::<u8>::empty());
    }
}

/// One step of the byte-only mode-C encoder (no binary escape: a high
/// byte stops it).
fn enc_c_step(
    msg: &[u8],
    tables: &PositionTables,
    i: &mut usize,
    mode: &mut Mode,
    cws: &mut Vec<u16>,
    segstart: usize,
)
    requires
        tables_of(*tables, lift_bytes(msg@)),
        msg@.len() < 0x1000_0000,
        *old(i) < msg@.len(),
        *old(mode) == Mode::C,
    ensures
        *final(i) as int == c_step(lift_bytes(msg@), *old(i) as int, segstart as int, false).0,
        *final(mode) == c_step(lift_bytes(msg@), *old(i) as int, segstart as int, false).1,
        final(cws)@ == old(cws)@ + c_step(lift_bytes(msg@), *old(i) as int, segstart as int, false).2,
{
    proof {
        reveal(c_step);
    }
    let ghost i0 = *i as int;
    let ghost c0 = cws@;
    let ghost m = lift_bytes(msg@);
    proof {
        assert(tables.n_digits@[i0] == nd_at(m, i0));
        lemma_nd_bound(m, i0);
        assert(m[i0] == msg@[i0] as i16);
        if i0 + 1 < m.len() {
            assert(m[i0 + 1] == msg@[i0 + 1] as i16);
        }
    }
    if *i == segstart && tables.n_digits[*i] >= 2 {
        cws.push(MODE_C_FN1_AT_SEGSTART);
    }
    if tables.datum_c[*i] && 48 <= msg[*i] && msg[*i] <= 57 && 48 <= msg[*i + 1] && msg[*i + 1] <= 57 {
        let pair = ((msg[*i] - 48) as u16) * 10 + ((msg[*i + 1] - 48) as u16);
        cws.push(pair);
        *i = *i + 2;
        return;
    }
    let a = tables.ahead_a[*i];
    let n = tables.ahead_b[*i];
    if a > n {
        cws.push(MODE_C_LATCH_TO_A);
        *mode = Mode::A;
        return;
    }
    if *i == segstart {
        let b = msg[*i];
        if b == 9 || b == 28 || b == 29 || b == 30 {
            cws.push(MODE_C_LATCH_TO_A);
            *mode = Mode::A;
            return;
        }
    }
    if n > 4 {
        cws.push(MODE_C_LATCH_TO_B);
        *mode = Mode::B;
        return;
    }
    if n == 0 {
        return;
    }
    cws.push(MODE_C_SHIFT_TO_B[(n - 1) as usize]);
    let ghost c2 = cws@;
    let ghost j0 = *i as int;
    let mut r: u32 = n;
    while r > 0
        invariant
            m == lift_bytes(msg@),
            msg@.len() < 0x1000_0000,
            *i <= msg@.len(),
            r <= ahead_b_at(m, *i as int),
            cws@ + b_run(m, *i as int, r as nat).0 == c2 + b_run(m, j0, n as nat).0,
            b_run(m, *i as int, r as nat).1 == b_run(m, j0, n as nat).1,
        decreases r,
    {
        let ghost j = *i as int;
        proof {
            assert(m[j] == msg@[j] as i16);
            if j + 1 < m.len() {
                assert(m[j + 1] == msg@[j + 1] as i16);
            }
        }
        if msg[*i] == 13 && *i + 1 < msg.len() && msg[*i + 1] == 10 {
            cws.push(MODE_B_CRLF);
            *i = *i + 2;
        } else {
            let cw = lookup_codeword_in_mode(msg[*i], 1).unwrap();
            cws.push(cw);
            *i = *i + 1;
        }
        r = r - 1;
        proof {
            assert(cws@ + b_run(m, *i as int, r as nat).0 =~= c2 + b_run(m, j0, n as nat).0);
        }
    }
    proof {
        assert(cws@ =~= c0 + c_step(m, i0, segstart as int, false).2);
    }
}

/// Encodes one byte in mode B.
pub fn enc_b_step(msg: &[u8], i: &mut usize, _mode: &mut Mode, cws: &mut Vec<u16>)
    requires
        *old(i) < msg@.len(),
        codeword_in(msg@[*old(i) as int] as i16, 1) is Some,
    ensures
        *final(i) == *old(i) + 1,
        final(cws)@ == old(cws)@.push(cw_of(msg@[*old(i) as int] as i16, 1)),
{
    let cw = lookup_codeword_in_mode(msg[*i], 1).unwrap();
    cws.push(cw);
    *i = *i + 1;
}

/// Encodes one byte in mode A.
pub fn enc_a_step(msg: &[u8], i: &mut usize, _mode: &mut Mode, cws: &mut Vec<u16>)
    requires
        *old(i) < msg@.len(),
        codeword_in(msg@[*old(i) as int] as i16, 0) is Some,
    ensures
        *final(i) == *old(i) + 1,
        final(cws)@ == old(cws)@.push(cw_of(msg@[*old(i) as int] as i16, 0)),
{
    let cw = lookup_codeword_in_mode(msg[*i], 0).unwrap();
    cws.push(cw);
    *i = *i + 1;
}

/// A mode-C run of `k` units emits `k` codewords.
pub proof fn lemma_c_run_len(msg: Seq<i16>, i: int, k: nat)
    ensures
        c_run(msg, i, k).0.len() == k,
    decreases k,
{
    if k > 0 {
        lemma_c_run_len(msg, i + 1, (k - 1) as nat);
        lemma_c_run_len(msg, i + 2, (k - 1) as nat);
    }
}

/// A mode-B run of `k` units emits `k` codewords.
pub proof fn lemma_b_run_len(msg: Seq<i16>, i: int, k: nat)
    ensures
        b_run(msg, i, k).0.len() == k,
    decreases k,
{
    if k > 0 {
        lemma_b_run_len(msg, i + 1, (k - 1) as nat);
        lemma_b_run_len(msg, i + 2, (k - 1) as nat);
    }
}

/// A step emits at most 13 codewords.
pub proof fn lemma_step_output_len(msg: Seq<i16>, i: int, mode: Mode, buf: Seq<u8>)
    requires
        buf.len() < 5,
    ensures
        enc_step(msg, i, mode, buf).2.len() <= 13,
{
    reveal(c_step);
    reveal(a_step);
    reveal(b_step);
    reveal(bin_step);
    let tc = try_c_at(msg, i);
    if tc >= 0 {
        lemma_c_run_len(msg, i, tc as nat);
    }
    lemma_ahead_b_nonneg(msg, i);
    let b = ahead_b_at(msg, i);
    lemma_b_run_len(msg, i, b as nat);
}

/// One step of the marker-aware selector in any mode, at `i` with the
/// pending binary group `buf`.
pub open spec fn enc_step(msg: Seq<i16>, i: int, mode: Mode, buf: Seq<u8>) -> (
    int,
    Mode,
    Seq<u16>,
    Seq<u8>,
) {
    match mode {
        Mode::C => {
            let r = c_step(msg, i, 0, true);
            (r.0, r.1, r.2, buf)
        },
        Mode::A => {
            let r = a_step(msg, i);
            (r.0, r.1, r.2, buf)
        },
        Mode::B => {
            let r = b_step(msg, i);
            (r.0, r.1, r.2, buf)
        },
        Mode::Bin => bin_step(msg, i, buf),
    }
}

/// How many mode changes at most can follow in place before the selector
/// consumes input or stops.
pub open spec fn stall_rank(msg: Seq<i16>, i: int, mode: Mode) -> int {
    match mode {
        Mode::C => if nd_at(msg, i) >= 2 {
            0
        } else {
            4
        },
        Mode::A => 2,
        Mode::B => if datum_b_at(msg, i) && try_c_at(msg, i) < 2 {
            1
        } else {
            3
        },
        Mode::Bin => if binary_at(msg, i) {
            0
        } else {
            5
        },
    }
}

/// Termination measure of the selector.
pub open spec fn enc_measure(msg: Seq<i16>, i: int, mode: Mode) -> int {
    (msg.len() - i) * 8 + stall_rank(msg, i, mode)
}

/// The shape of a step's outcome: it stays inside the message, and either
/// stays put in the same mode or lowers the measure.
pub open spec fn step_ok(msg: Seq<i16>, i: int, mode: Mode, r: (int, Mode, Seq<u16>, Seq<u8>)) -> bool {
    &&& i <= r.0 <= msg.len()
    &&& (r.0 == i && r.1 == mode) || enc_measure(msg, r.0, r.1) < enc_measure(msg, i, mode)
}

proof fn lemma_progress_measure(msg: Seq<i16>, i: int, j: int, mode: Mode, next: Mode)
    requires
        0 <= i < j <= msg.len(),
    ensures
        enc_measure(msg, j, next) < enc_measure(msg, i, mode),
{
    assert(0 <= stall_rank(msg, j, next) <= 5);
    assert(0 <= stall_rank(msg, i, mode));
    assert((msg.len() - j) * 8 <= (msg.len() - i) * 8 - 8) by (nonlinear_arith)
        requires
            i < j,
    ;
}

proof fn lemma_c_step_measure(msg: Seq<i16>, i: int, buf: Seq<u8>)
    requires
        valid_stream(msg),
        0 <= i < msg.len(),
    ensures
        step_ok(msg, i, Mode::C, enc_step(msg, i, Mode::C, buf)),
{
    reveal(c_step);
    let r = enc_step(msg, i, Mode::C, buf);
    lemma_nd_bound(msg, i);
    lemma_nd_bound(msg, i + 1);
    let a = ahead_a_at(msg, i);
    let b = ahead_b_at(msg, i);
    lemma_ahead_b_nonneg(msg, i);
    if nd_at(msg, i) >= 2 {
        assert(datum_c_at(msg, i));
        assert(r.0 == i + 2);
    }
    if binary_at(msg, i) {
        assert(nd_at(msg, i) == 0);
    }
    if i == 0 && msg[i] == FN1 && nd_at(msg, i + 1) >= 2 {
    } else if datum_c_at(msg, i) && is_fn_marker(msg[i]) {
    } else if datum_c_at(msg, i) && is_digit_byte(msg[i] as int) && i + 1 < msg.len()
        && is_digit_byte(msg[i + 1] as int) {
    } else if binary_at(msg, i) {
    } else if a > b {
    } else if i == 0 && (msg[i] == 9 || msg[i] == 28 || msg[i] == 29 || msg[i] == 30) {
    } else if b > 4 {
        assert(datum_b_at(msg, i) && try_c_at(msg, i) < 2);
    } else if b == 0 {
    } else {
        lemma_b_run(msg, i, b as nat);
        assert(r.0 == b_run(msg, i, b as nat).1);
        assert(r.0 <= msg.len());
    }
    if r.0 > i {
        lemma_progress_measure(msg, i, r.0, Mode::C, r.1);
    }
}

proof fn lemma_a_step_measure(msg: Seq<i16>, i: int, buf: Seq<u8>)
    requires
        valid_stream(msg),
        0 <= i < msg.len(),
    ensures
        step_ok(msg, i, Mode::A, enc_step(msg, i, Mode::A, buf)),
{
    reveal(a_step);
    let r = enc_step(msg, i, Mode::A, buf);
    lemma_nd_bound(msg, i);
    let tc = try_c_at(msg, i);
    let nb = ahead_b_at(msg, i);
    lemma_ahead_b_nonneg(msg, i);
    if tc >= 2 {
        assert(nd_at(msg, i) >= 2);
        lemma_c_run(msg, i, tc as nat);
        if tc <= 4 {
            assert(r.0 == c_run(msg, i, tc as nat).1);
        }
    } else if datum_a_at(msg, i) {
    } else if nb > 6 {
        assert(datum_b_at(msg, i) && try_c_at(msg, i) < 2);
    } else if nb == 0 {
    } else {
        lemma_b_run(msg, i, nb as nat);
        assert(r.0 == b_run(msg, i, nb as nat).1);
    }
    if r.0 > i {
        lemma_progress_measure(msg, i, r.0, Mode::A, r.1);
    }
}

proof fn lemma_b_step_measure(msg: Seq<i16>, i: int, buf: Seq<u8>)
    requires
        valid_stream(msg),
        0 <= i < msg.len(),
    ensures
        step_ok(msg, i, Mode::B, enc_step(msg, i, Mode::B, buf)),
{
    reveal(b_step);
    let r = enc_step(msg, i, Mode::B, buf);
    lemma_nd_bound(msg, i);
    let tc = try_c_at(msg, i);
    if tc >= 2 {
        assert(nd_at(msg, i) >= 2);
        lemma_c_run(msg, i, tc as nat);
    }
    if r.0 > i {
        lemma_progress_measure(msg, i, r.0, Mode::B, r.1);
    }
}

proof fn lemma_bin_step_measure(msg: Seq<i16>, i: int, buf: Seq<u8>)
    requires
        valid_stream(msg),
        0 <= i < msg.len(),
    ensures
        step_ok(msg, i, Mode::Bin, enc_step(msg, i, Mode::Bin, buf)),
        buf.len() < 5 ==> enc_step(msg, i, Mode::Bin, buf).3.len() < 5,
{
    reveal(bin_step);
    let r = enc_step(msg, i, Mode::Bin, buf);
    lemma_nd_bound(msg, i);
    let tc = try_c_at(msg, i);
    if tc >= 2 {
        assert(nd_at(msg, i) >= 2);
        lemma_c_run(msg, i, tc as nat);
    }
    if binary_at(msg, i) {
        assert(nd_at(msg, i) == 0);
    }
    if r.0 > i {
        lemma_progress_measure(msg, i, r.0, Mode::Bin, r.1);
    }
}

/// Every step either stays put in the same mode (the selector is stuck)
/// or lowers the measure, and never leaves the message.
pub proof fn lemma_step_measure(msg: Seq<i16>, i: int, mode: Mode, buf: Seq<u8>)
    requires
        valid_stream(msg),
        0 <= i < msg.len(),
    ensures
        step_ok(msg, i, mode, enc_step(msg, i, mode, buf)),
        buf.len() < 5 ==> enc_step(msg, i, mode, buf).3.len() < 5,
{
    match mode {
        Mode::C => lemma_c_step_measure(msg, i, buf),
        Mode::A => lemma_a_step_measure(msg, i, buf),
        Mode::B => lemma_b_step_measure(msg, i, buf),
        Mode::Bin => lemma_bin_step_measure(msg, i, buf),
    }
}

/// One step of the run: stuck at `i`, or the step's codewords followed by
/// the rest of the run.
pub proof fn lemma_run_step(msg: Seq<i16>, i: int, mode: Mode, buf: Seq<u8>)
    requires
        valid_stream(msg),
        0 <= i < msg.len(),
    ensures
        ({
            let r = enc_step(msg, i, mode, buf);
            if r.0 == i && r.1 == mode {
                run_from(msg, i, mode, buf) == Err::<Seq<u16>, int>(i)
            } else {
                run_from(msg, i, mode, buf) == match run_from(msg, r.0, r.1, r.3) {
                    Ok(rest) => Ok(r.2 + rest),
                    Err(k) => Err::<Seq<u16>, int>(k),
                }
            }
        }),
{
    lemma_step_measure(msg, i, mode, buf);
}

/// The codewords the selector produces from index `i` in `mode` with the
/// pending group `buf`, or the index where it gets stuck (a step that
/// neither consumes input nor changes mode).
pub open spec fn run_from(msg: Seq<i16>, i: int, mode: Mode, buf: Seq<u8>) -> Result<Seq<u16>, int>
    decreases enc_measure(msg, i, mode),
    when valid_stream(msg) && 0 <= i <= msg.len()
{
    if i >= msg.len() {
        Ok(flush_spec(buf))
    } else {
        let r = enc_step(msg, i, mode, buf);
        if r.0 == i && r.1 == mode {
            Err(i)
        } else {
            proof {
                lemma_step_measure(msg, i, mode, buf);
            }
            match run_from(msg, r.0, r.1, r.3) {
                Ok(rest) => Ok(r.2 + rest),
                Err(k) => Err(k),
            }
        }
    }
}

/// The data codewords of a marker stream, or the index where the selector
/// gets stuck.
pub open spec fn encode_stream(msg: Seq<i16>) -> Result<Seq<u16>, int> {
    run_from(msg, 0, Mode::C, Seq::empty())
}

/// Error message for a stream the selector gets stuck on at `pos`.
pub open spec fn stuck_message(msg: Seq<i16>, pos: int) -> Seq<char> {
    "DotCode: byte "@ + signed_decimal(msg[pos] as int) + " at position "@ + decimal(pos as nat)
        + " requires an extended-marker codeword (macro / ECI / SeventeenTen) outside this encoder's scope"@
}

/// Runs the marker-aware selector to the end of `msg` and returns the
/// data codewords (no padding).
pub fn encode_message_with_markers(msg: &[i16]) -> (r: Result<Vec<u16>, Error>)
    requires
        valid_stream(msg@),
        msg@.len() < 0x1000_0000,
    ensures
        match r {
            Ok(c) => encode_stream(msg@) == Ok::<Seq<u16>, int>(c@),
            Err(e) => encode_stream(msg@) is Err && (e matches Error::InvalidData(s) && s@
                == stuck_message(msg@, encode_stream(msg@)->Err_0)),
        },
        r matches Ok(c) ==> c@.len() <= 104 * msg@.len() + 57,
{
    let tables = build_position_tables_i16(msg);
    let mut cws: Vec<u16> = Vec::new();
    let mut bin = BinState::default();
    let mut i: usize = 0;
    let mut mode = Mode::C;
    let segstart: usize = 0;
    let ghost m = msg@;
    proof {
        assert(bin.pending() =~= Seq::<u8>::empty());
        assert(cws@ + Seq::<u16>::empty() =~= Seq::<u16>::empty());
    }
    while i < msg.len()
        invariant
            m == msg@,
            valid_stream(m),
            m.len() < 0x1000_0000,
            tables_of(tables, m),
            segstart == 0,
            i <= m.len(),
            bin.bpos < 5,
            cws@.len() + 13 * enc_measure(m, i as int, mode) <= 13 * (8 * m.len() + 4),
            encode_stream(m) == (match run_from(m, i as int, mode, bin.pending()) {
                Ok(rest) => Ok(cws@ + rest),
                Err(k) => Err::<Seq<u16>, int>(k),
            }),
        decreases enc_measure(m, i as int, mode),
    {
        let prev_i = i;
        let prev_mode = mode;
        let ghost prev_cws = cws@;
        let ghost prev_buf = bin.pending();
        proof {
            lemma_step_measure(m, i as int, mode, prev_buf);
            lemma_run_step(m, i as int, mode, prev_buf);
            lemma_step_output_len(m, i as int, mode, prev_buf);
        }
        match mode {
            Mode::C => enc_c_step_i16(msg, &tables, &mut i, &mut mode, &mut cws, segstart),
            Mode::A => enc_a_step_i16(msg, &tables, &mut i, &mut mode, &mut cws),
            Mode::B => enc_b_step_i16(msg, &tables, &mut i, &mut mode, &mut cws),
            Mode::Bin => enc_bin_step_i16(msg, &tables, &mut i, &mut mode, &mut cws, &mut bin),
        }
        if i == prev_i && mode == prev_mode {
            let byte = msg[prev_i];
            let mut text = String::from_str("DotCode: byte ");
            push_signed(&mut text, byte as i64);
            text.append(" at position ");
            push_decimal(&mut text, prev_i as u64);
            text.append(
                " requires an extended-marker codeword (macro / ECI / SeventeenTen) outside this encoder's scope",
            );
            return Err(Error::InvalidData(text));
        }
        proof {
            let st = enc_step(m, prev_i as int, prev_mode, prev_buf);
            assert(cws@ == prev_cws + st.2);
            match run_from(m, i as int, mode, bin.pending()) {
                Ok(rest) => {
                    assert(cws@ + rest =~= prev_cws + (st.2 + rest));
                },
                Err(k) => {},
            }
        }
    }
    let ghost before = cws@;
    let ghost pend = bin.pending();
    proof {
        assert(enc_measure(m, i as int, mode) >= 0);
        assert(flush_spec(pend).len() <= 5);
    }
    bin.finalise(&mut cws);
    proof {
        assert(cws@ =~= before + flush_spec(pend));
    }
    Ok(cws)
}

/// Byte-string form of [`encode_message_with_markers`].
pub fn encode_message(msg: &[u8]) -> (r: Result<Vec<u16>, Error>)
    requires
        msg@.len() < 0x1000_0000,
    ensures
        match r {
            Ok(c) => encode_stream(lift_bytes(msg@)) == Ok::<Seq<u16>, int>(c@),
            Err(e) => encode_stream(lift_bytes(msg@)) is Err && (e matches Error::InvalidData(s)
                && s@ == stuck_message(
                lift_bytes(msg@),
                encode_stream(lift_bytes(msg@))->Err_0,
            )),
        },
{
    let mut lifted: Vec<i16> = Vec::new();
    let mut i: usize = 0;
    while i < msg.len()
        invariant
            i <= msg@.len(),
            lifted@ == lift_bytes(msg@.subrange(0, i as int)),
        decreases msg@.len() - i,
    {
        lifted.push(msg[i] as i16);
        proof {
            assert(lifted@ =~= lift_bytes(msg@.subrange(0, i + 1)));
        }
        i = i + 1;
    }
    proof {
        assert(msg@.subrange(0, msg@.len() as int) =~= msg@);
        assert(valid_stream(lifted@)) by {
            assert forall|j: int| 0 <= j < lifted@.len() implies (0 <= #[trigger] lifted@[j] <= 255
                || lifted@[j] == FN1 || lifted@[j] == FN2 || lifted@[j] == FN3) by {
                assert(lifted@[j] == msg@[j] as i16);
            }
        }
    }
    encode_message_with_markers(lifted.as_slice())
}

} // verus!
