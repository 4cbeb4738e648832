//! Per-position lookahead tables that drive DotCode's mode selector.
//!
//! Every table is indexed by message position `0..=n` (slot `n` is the
//! right-edge sentinel) and is defined by a right-to-left recurrence.

use vstd::prelude::*;

use super::tables::{codeword_in, is_digit_byte, lookup_codeword_in_mode_i16, FN3};

verus! {

/// `msg[i..i+2]` is `<CR><LF>`.
pub open spec fn crlf_at(msg: Seq<i16>, i: int) -> bool {
    0 <= i && i + 1 < msg.len() && msg[i] == 13 && msg[i + 1] == 10
}

/// Length of the digit run starting at `i`.
pub open spec fn nd_at(msg: Seq<i16>, i: int) -> int
    decreases msg.len() - i,
{
    if i < 0 || i >= msg.len() {
        0
    } else if is_digit_byte(msg[i] as int) {
        nd_at(msg, i + 1) + 1
    } else {
        0
    }
}

/// `msg[i]` has a mode-A codeword.
pub open spec fn datum_a_at(msg: Seq<i16>, i: int) -> bool {
    0 <= i < msg.len() && codeword_in(msg[i], 0) is Some
}

/// `msg[i]` has a mode-B codeword, or opens a `<CR><LF>`.
pub open spec fn datum_b_at(msg: Seq<i16>, i: int) -> bool {
    0 <= i < msg.len() && (codeword_in(msg[i], 1) is Some || crlf_at(msg, i))
}

/// Mode C can take position `i`: a digit pair or a marker.
pub open spec fn datum_c_at(msg: Seq<i16>, i: int) -> bool {
    0 <= i < msg.len() && (nd_at(msg, i) >= 2 || msg[i] < 0)
}

/// `msg[i]` is a high byte that needs binary mode.
pub open spec fn binary_at(msg: Seq<i16>, i: int) -> bool {
    0 <= i < msg.len() && msg[i] >= 128
}

/// A ten-digit run `17XXXXXX10` starts at `i`.
pub open spec fn seventeen_ten_at(msg: Seq<i16>, i: int) -> bool {
    &&& 0 <= i < msg.len()
    &&& nd_at(msg, i) >= 10
    &&& msg[i] == 49
    &&& msg[i + 1] == 55
    &&& msg[i + 8] == 49
    &&& msg[i + 9] == 48
}

/// Number of mode-C codewords that cover the run starting at `i`.
pub open spec fn ahead_c_at(msg: Seq<i16>, i: int) -> int
    decreases msg.len() - i,
{
    if i < 0 || i >= msg.len() {
        0
    } else if msg[i] < 0 && msg[i] != FN3 {
        ahead_c_at(msg, i + 1) + 1
    } else if nd_at(msg, i) <= 1 || i + 2 > msg.len() {
        0
    } else {
        ahead_c_at(msg, i + 2) + 1
    }
}

/// Mode C strictly gains at `i`: its run, else 0.
pub open spec fn try_c_at(msg: Seq<i16>, i: int) -> int {
    if 0 <= i < msg.len() && nd_at(msg, i) > 0 && ahead_c_at(msg, i) > ahead_c_at(msg, i + 1) {
        ahead_c_at(msg, i)
    } else {
        0
    }
}

/// Length of the mode-A run starting at `i`.
pub open spec fn ahead_a_at(msg: Seq<i16>, i: int) -> int
    decreases msg.len() - i,
{
    if 0 <= i < msg.len() && datum_a_at(msg, i) && try_c_at(msg, i) < 2 && msg[i] != FN3 {
        ahead_a_at(msg, i + 1) + 1
    } else {
        0
    }
}

/// Number of mode-B codewords in the run starting at `i` (`<CR><LF>`
/// counts once).
pub open spec fn ahead_b_at(msg: Seq<i16>, i: int) -> int
    decreases msg.len() - i,
{
    if 0 <= i < msg.len() && datum_b_at(msg, i) && try_c_at(msg, i) < 2 && msg[i] != FN3 {
        ahead_b_at(msg, if crlf_at(msg, i) { i + 2 } else { i + 1 }) + 1
    } else {
        0
    }
}

/// Distance to the next `FN3` segment boundary (or the end).
pub open spec fn until_end_seg_at(msg: Seq<i16>, i: int) -> int
    decreases msg.len() - i,
{
    if 0 <= i < msg.len() && msg[i] != FN3 {
        until_end_seg_at(msg, i + 1) + 1
    } else {
        0
    }
}

/// The lookahead tables of a message.
#[derive(Debug, Clone, PartialEq, Eq)]
pub struct PositionTables {
    pub n_digits: Vec<u32>,
    pub datum_a: Vec<bool>,
    pub datum_b: Vec<bool>,
    pub datum_c: Vec<bool>,
    pub seventeen_ten: Vec<bool>,
    pub ahead_a: Vec<u32>,
    pub ahead_b: Vec<u32>,
    pub ahead_c: Vec<u32>,
    pub try_c: Vec<u32>,
    pub until_end_seg: Vec<u32>,
    /// `msg.len() + 8` entries, so a 7-position lookahead stays in range.
    pub binary: Vec<bool>,
}

/// `t` holds the tables of `msg`.
pub open spec fn tables_of(t: PositionTables, msg: Seq<i16>) -> bool {
    let n = msg.len() as int;
    &&& t.n_digits@.len() == n + 1
    &&& t.datum_a@.len() == n + 1
    &&& t.datum_b@.len() == n + 1
    &&& t.datum_c@.len() == n + 1
    &&& t.seventeen_ten@.len() == n + 1
    &&& t.ahead_a@.len() == n + 1
    &&& t.ahead_b@.len() == n + 1
    &&& t.ahead_c@.len() == n + 1
    &&& t.try_c@.len() == n + 1
    &&& t.until_end_seg@.len() == n + 1
    &&& t.binary@.len() == n + 8
    &&& forall|i: int| 0 <= i <= n ==> {
        &&& #[trigger] t.n_digits@[i] == nd_at(msg, i)
        &&& t.datum_a@[i] == datum_a_at(msg, i)
        &&& t.datum_b@[i] == datum_b_at(msg, i)
        &&& t.datum_c@[i] == datum_c_at(msg, i)
        &&& t.seventeen_ten@[i] == seventeen_ten_at(msg, i)
        &&& t.ahead_a@[i] == ahead_a_at(msg, i)
        &&& t.ahead_b@[i] == ahead_b_at(msg, i)
        &&& t.ahead_c@[i] == ahead_c_at(msg, i)
        &&& t.try_c@[i] == try_c_at(msg, i)
        &&& t.until_end_seg@[i] == until_end_seg_at(msg, i)
    }
    &&& forall|i: int| 0 <= i < n + 8 ==> #[trigger] t.binary@[i] == binary_at(msg, i)
}

proof fn lemma_until_end(msg: Seq<i16>, i: int)
    requires
        0 <= i <= msg.len(),
        forall|k: int| 0 <= k < msg.len() ==> #[trigger] msg[k] != FN3,
    ensures
        until_end_seg_at(msg, i) == msg.len() - i,
    decreases msg.len() - i,
{
    if i < msg.len() {
        lemma_until_end(msg, i + 1);
    }
}

proof fn lemma_digit_run(msg: Seq<i16>, i: int)
    requires
        0 <= i <= msg.len(),
    ensures
        0 <= nd_at(msg, i) <= msg.len() - i,
        forall|k: int| i <= k < i + nd_at(msg, i) ==> is_digit_byte(#[trigger] msg[k] as int),
        i + nd_at(msg, i) < msg.len() ==> !is_digit_byte(msg[i + nd_at(msg, i)] as int),
    decreases msg.len() - i,
{
    if i < msg.len() && is_digit_byte(msg[i] as int) {
        lemma_digit_run(msg, i + 1);
    }
}

/// What the tables hold at the edges and along the message: slot `n` (the
/// right-edge sentinel) is zero or false in every table; `n_digits[i]` is
/// the length of the run of ASCII digits starting at `i`; `binary[i]` marks
/// a byte of 128 or more; and in a message without an `FN3` boundary,
/// `until_end_seg[i]` is the distance `n - i` to the end.
pub proof fn law_table_edges(t: PositionTables, msg: Seq<i16>)
    requires
        tables_of(t, msg),
    ensures
        t.n_digits@[msg.len() as int] == 0,
        !t.datum_a@[msg.len() as int],
        !t.datum_b@[msg.len() as int],
        !t.datum_c@[msg.len() as int],
        !t.seventeen_ten@[msg.len() as int],
        t.ahead_a@[msg.len() as int] == 0,
        t.ahead_b@[msg.len() as int] == 0,
        t.ahead_c@[msg.len() as int] == 0,
        t.try_c@[msg.len() as int] == 0,
        t.until_end_seg@[msg.len() as int] == 0,
        forall|i: int| msg.len() <= i < msg.len() + 8 ==> !#[trigger] t.binary@[i],
        forall|i: int| 0 <= i < msg.len() ==> #[trigger] t.binary@[i] == (msg[i] >= 128),
        forall|i: int|
            0 <= i < msg.len() ==> {
                let r = #[trigger] t.n_digits@[i] as int;
                &&& r <= msg.len() - i
                &&& forall|k: int| i <= k < i + r ==> is_digit_byte(#[trigger] msg[k] as int)
                &&& i + r < msg.len() ==> !is_digit_byte(msg[i + r] as int)
            },
        (forall|k: int| 0 <= k < msg.len() ==> #[trigger] msg[k] != FN3) ==> forall|i: int|
            0 <= i <= msg.len() ==> #[trigger] t.until_end_seg@[i] == msg.len() - i,
{
    let n = msg.len() as int;
    assert(t.n_digits@[n] == nd_at(msg, n));
    assert forall|i: int| 0 <= i < n implies {
        let r = #[trigger] t.n_digits@[i] as int;
        &&& r <= msg.len() - i
        &&& forall|k: int| i <= k < i + r ==> is_digit_byte(#[trigger] msg[k] as int)
        &&& i + r < msg.len() ==> !is_digit_byte(msg[i + r] as int)
    } by {
        assert(t.n_digits@[i] == nd_at(msg, i));
        lemma_digit_run(msg, i);
    }
    if forall|k: int| 0 <= k < msg.len() ==> #[trigger] msg[k] != FN3 {
        assert forall|i: int| 0 <= i <= n implies #[trigger] t.until_end_seg@[i] == n - i by {
            assert(t.n_digits@[i] == nd_at(msg, i));
            lemma_until_end(msg, i);
        }
    }
}

/// Lifts a byte string to the marker-aware form.
pub open spec fn lift(msg: Seq<u8>) -> Seq<i16> {
    msg.map_values(|b: u8| b as i16)
}

/// Byte-string form of [`build_position_tables_i16`].
pub fn build_position_tables(msg: &[u8]) -> (t: PositionTables)
    requires
        msg@.len() + 8 <= u32::MAX,
    ensures
        tables_of(t, lift(msg@)),
{
    let mut lifted: Vec<i16> = Vec::new();
    let mut i: usize = 0;
    while i < msg.len()
        invariant
            i <= msg@.len(),
            lifted@ == lift(msg@.subrange(0, i as int)),
        decreases msg@.len() - i,
    {
        lifted.push(msg[i] as i16);
        proof {
            assert(lifted@ =~= lift(msg@.subrange(0, i + 1)));
        }
        i = i + 1;
    }
    proof {
        assert(msg@.subrange(0, msg@.len() as int) =~= msg@);
    }
    build_position_tables_i16(lifted.as_slice())
}

/// Builds the lookahead tables of a byte/marker stream, right to left.
pub fn build_position_tables_i16(msg: &[i16]) -> (t: PositionTables)
    requires
        msg@.len() + 8 <= u32::MAX,
    ensures
        tables_of(t, msg@),
{
    let n = msg.len();
    let mut n_digits = vec![0u32; n + 1];
    let mut datum_a = vec![false; n + 1];
    let mut datum_b = vec![false; n + 1];
    let mut datum_c = vec![false; n + 1];
    let mut seventeen_ten = vec![false; n + 1];
    let mut ahead_a = vec![0u32; n + 1];
    let mut ahead_b = vec![0u32; n + 1];
    let mut ahead_c = vec![0u32; n + 1];
    let mut try_c = vec![0u32; n + 1];
    let mut until_end_seg = vec![0u32; n + 1];
    let mut binary = vec![false; n + 8];
    let ghost m = msg@;
    let mut k: usize = n;
    while k > 0
        invariant
            n == m.len(),
            m == msg@,
            n + 8 <= u32::MAX,
            k <= n,
            n_digits@.len() == n + 1,
            datum_a@.len() == n + 1,
            datum_b@.len() == n + 1,
            datum_c@.len() == n + 1,
            seventeen_ten@.len() == n + 1,
            ahead_a@.len() == n + 1,
            ahead_b@.len() == n + 1,
            ahead_c@.len() == n + 1,
            try_c@.len() == n + 1,
            until_end_seg@.len() == n + 1,
            binary@.len() == n + 8,
            forall|j: int| k <= j <= n ==> {
                &&& #[trigger] n_digits@[j] == nd_at(m, j)
                &&& datum_a@[j] == datum_a_at(m, j)
                &&& datum_b@[j] == datum_b_at(m, j)
                &&& datum_c@[j] == datum_c_at(m, j)
                &&& seventeen_ten@[j] == seventeen_ten_at(m, j)
                &&& ahead_a@[j] == ahead_a_at(m, j)
                &&& ahead_b@[j] == ahead_b_at(m, j)
                &&& ahead_c@[j] == ahead_c_at(m, j)
                &&& try_c@[j] == try_c_at(m, j)
                &&& until_end_seg@[j] == until_end_seg_at(m, j)
                &&& nd_at(m, j) <= n - j
                &&& ahead_a_at(m, j) <= n - j
                &&& ahead_b_at(m, j) <= n - j
                &&& ahead_c_at(m, j) <= n - j
                &&& until_end_seg_at(m, j) <= n - j
            },
            forall|j: int| (k <= j < n + 8) ==> #[trigger] binary@[j] == binary_at(m, j),
            forall|j: int| 0 <= j < k ==> !(#[trigger] binary@[j]),
        decreases k,
    {
        let i = k - 1;
        let b = msg[i];
        let ghost old_nd = n_digits@;
        proof {
            let i1 = i as int + 1;
            assert(n_digits@[i1] == nd_at(m, i1));
            if i1 + 1 <= n {
                assert(n_digits@[i1 + 1] == nd_at(m, i1 + 1));
            }
        }
        let is_digit = 48 <= b && b <= 57;
        let nd_here = if is_digit { n_digits[i + 1] + 1 } else { 0 };
        n_digits.set(i, nd_here);
        let da = lookup_codeword_in_mode_i16(b, 0).is_some();
        datum_a.set(i, da);
        let mut db = lookup_codeword_in_mode_i16(b, 1).is_some();
        let crlf = b == 13 && i + 1 < n && msg[i + 1] == 10;
        if crlf {
            db = true;
        }
        datum_b.set(i, db);
        let nd = n_digits[i];
        datum_c.set(i, nd >= 2 || b < 0);
        if b >= 128 {
            binary.set(i, true);
        }
        let st = nd >= 10 && msg[i] == 49 && msg[i + 1] == 55 && msg[i + 8] == 49 && msg[i + 9] == 48;
        seventeen_ten.set(i, st);
        if b < 0 && b != FN3 {
            ahead_c.set(i, ahead_c[i + 1] + 1);
        } else if nd <= 1 || i + 2 > n {
            ahead_c.set(i, 0);
        } else {
            ahead_c.set(i, ahead_c[i + 2] + 1);
        }
        let tc = if nd > 0 && ahead_c[i] > ahead_c[i + 1] { ahead_c[i] } else { 0 };
        try_c.set(i, tc);
        if da && tc < 2 && b != FN3 {
            ahead_a.set(i, ahead_a[i + 1] + 1);
        } else {
            ahead_a.set(i, 0);
        }
        if db && tc < 2 && b != FN3 {
            let next = if crlf { i + 2 } else { i + 1 };
            ahead_b.set(i, ahead_b[next] + 1);
        } else {
            ahead_b.set(i, 0);
        }
        if b != FN3 {
            until_end_seg.set(i, until_end_seg[i + 1] + 1);
        } else {
            until_end_seg.set(i, 0);
        }
        proof {
            let ii = i as int;
            assert(n_digits@[ii] == nd_at(m, ii));
            assert(datum_a@[ii] == datum_a_at(m, ii));
            assert(datum_b@[ii] == datum_b_at(m, ii));
            assert(datum_c@[ii] == datum_c_at(m, ii));
            assert(seventeen_ten@[ii] == seventeen_ten_at(m, ii));
            assert(ahead_c@[ii] == ahead_c_at(m, ii));
            assert(try_c@[ii] == try_c_at(m, ii));
            assert(ahead_a@[ii] == ahead_a_at(m, ii));
            assert(ahead_b@[ii] == ahead_b_at(m, ii));
            assert(until_end_seg@[ii] == until_end_seg_at(m, ii));
            assert(binary@[ii] == binary_at(m, ii));
            assert(nd_at(m, ii) <= n - ii);
            assert(ahead_a_at(m, ii) <= n - ii);
            assert(ahead_b_at(m, ii) <= n - ii);
            assert(ahead_c_at(m, ii) <= n - ii);
            assert(until_end_seg_at(m, ii) <= n - ii);
            assert forall|j: int| ii <= j <= n implies {
                &&& #[trigger] n_digits@[j] == nd_at(m, j)
                &&& datum_a@[j] == datum_a_at(m, j)
                &&& datum_b@[j] == datum_b_at(m, j)
                &&& datum_c@[j] == datum_c_at(m, j)
                &&& seventeen_ten@[j] == seventeen_ten_at(m, j)
                &&& ahead_a@[j] == ahead_a_at(m, j)
                &&& ahead_b@[j] == ahead_b_at(m, j)
                &&& ahead_c@[j] == ahead_c_at(m, j)
                &&& try_c@[j] == try_c_at(m, j)
                &&& until_end_seg@[j] == until_end_seg_at(m, j)
                &&& nd_at(m, j) <= n - j
                &&& ahead_a_at(m, j) <= n - j
                &&& ahead_b_at(m, j) <= n - j
                &&& ahead_c_at(m, j) <= n - j
                &&& until_end_seg_at(m, j) <= n - j
            } by {
                if j > ii {
                    assert(old_nd[j] == nd_at(m, j));
                }
            }
        }
        k = i;
    }
    PositionTables {
        n_digits,
        datum_a,
        datum_b,
        datum_c,
        seventeen_ten,
        ahead_a,
        ahead_b,
        ahead_c,
        try_c,
        until_end_seg,
        binary,
    }
}

} // verus!
