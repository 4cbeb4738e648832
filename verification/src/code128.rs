//! Code 128 from a token stream (ASCII bytes, FNC1 and the composite
//! linkage flags): code-set selection, check character and bar widths.

use vstd::prelude::*;

use crate::encoding::{LinearModel, LinearPattern};
use crate::error::Error;
use crate::options::Options;
use crate::text::{decimal, push_decimal};

verus! {

/// One input unit of a Code 128 symbol.
#[derive(Debug, Clone, Copy, PartialEq, Eq, Structural)]
pub enum Token {
    /// Function character 1 (the GS1 separator).
    Fnc1,
    /// An ASCII byte.
    Ascii(u8),
    /// Linkage flag for a CC-A / CC-B companion.
    LinkA,
    /// Linkage flag for a CC-C companion.
    LinkC,
}

/// The active code set.
#[derive(Debug, Clone, Copy, PartialEq, Eq, Structural)]
pub enum CodeSet {
    A,
    B,
    C,
}

/// Bar/space widths of symbol values 0..=105.
pub const PATTERNS: [[u8; 6]; 106] = [
    [2, 1, 2, 2, 2, 2], [2, 2, 2, 1, 2, 2], [2, 2, 2, 2, 2, 1], [1, 2, 1, 2, 2, 3],
    [1, 2, 1, 3, 2, 2], [1, 3, 1, 2, 2, 2], [1, 2, 2, 2, 1, 3], [1, 2, 2, 3, 1, 2],
    [1, 3, 2, 2, 1, 2], [2, 2, 1, 2, 1, 3], [2, 2, 1, 3, 1, 2], [2, 3, 1, 2, 1, 2],
    [1, 1, 2, 2, 3, 2], [1, 2, 2, 1, 3, 2], [1, 2, 2, 2, 3, 1], [1, 1, 3, 2, 2, 2],
    [1, 2, 3, 1, 2, 2], [1, 2, 3, 2, 2, 1], [2, 2, 3, 2, 1, 1], [2, 2, 1, 1, 3, 2],
    [2, 2, 1, 2, 3, 1], [2, 1, 3, 2, 1, 2], [2, 2, 3, 1, 1, 2], [3, 1, 2, 1, 3, 1],
    [3, 1, 1, 2, 2, 2], [3, 2, 1, 1, 2, 2], [3, 2, 1, 2, 2, 1], [3, 1, 2, 2, 1, 2],
    [3, 2, 2, 1, 1, 2], [3, 2, 2, 2, 1, 1], [2, 1, 2, 1, 2, 3], [2, 1, 2, 3, 2, 1],
    [2, 3, 2, 1, 2, 1], [1, 1, 1, 3, 2, 3], [1, 3, 1, 1, 2, 3], [1, 3, 1, 3, 2, 1],
    [1, 1, 2, 3, 1, 3], [1, 3, 2, 1, 1, 3], [1, 3, 2, 3, 1, 1], [2, 1, 1, 3, 1, 3],
    [2, 3, 1, 1, 1, 3], [2, 3, 1, 3, 1, 1], [1, 1, 2, 1, 3, 3], [1, 1, 2, 3, 3, 1],
    [1, 3, 2, 1, 3, 1], [1, 1, 3, 1, 2, 3], [1, 1, 3, 3, 2, 1], [1, 3, 3, 1, 2, 1],
    [3, 1, 3, 1, 2, 1], [2, 1, 1, 3, 3, 1], [2, 3, 1, 1, 3, 1], [2, 1, 3, 1, 1, 3],
    [2, 1, 3, 3, 1, 1], [2, 1, 3, 1, 3, 1], [3, 1, 1, 1, 2, 3], [3, 1, 1, 3, 2, 1],
    [3, 3, 1, 1, 2, 1], [3, 1, 2, 1, 1, 3], [3, 1, 2, 3, 1, 1], [3, 3, 2, 1, 1, 1],
    [3, 1, 4, 1, 1, 1], [2, 2, 1, 4, 1, 1], [4, 3, 1, 1, 1, 1], [1, 1, 1, 2, 2, 4],
    [1, 1, 1, 4, 2, 2], [1, 2, 1, 1, 2, 4], [1, 2, 1, 4, 2, 1], [1, 4, 1, 1, 2, 2],
    [1, 4, 1, 2, 2, 1], [1, 1, 2, 2, 1, 4], [1, 1, 2, 4, 1, 2], [1, 2, 2, 1, 1, 4],
    [1, 2, 2, 4, 1, 1], [1, 4, 2, 1, 1, 2], [1, 4, 2, 2, 1, 1], [2, 4, 1, 2, 1, 1],
    [2, 2, 1, 1, 1, 4], [4, 1, 3, 1, 1, 1], [2, 4, 1, 1, 1, 2], [1, 3, 4, 1, 1, 1],
    [1, 1, 1, 2, 4, 2], [1, 2, 1, 1, 4, 2], [1, 2, 1, 2, 4, 1], [1, 1, 4, 2, 1, 2],
    [1, 2, 4, 1, 1, 2], [1, 2, 4, 2, 1, 1], [4, 1, 1, 2, 1, 2], [4, 2, 1, 1, 1, 2],
    [4, 2, 1, 2, 1, 1], [2, 1, 2, 1, 4, 1], [2, 1, 4, 1, 2, 1], [4, 1, 2, 1, 2, 1],
    [1, 1, 1, 1, 4, 3], [1, 1, 1, 3, 4, 1], [1, 3, 1, 1, 4, 1], [1, 1, 4, 1, 1, 3],
    [1, 1, 4, 3, 1, 1], [4, 1, 1, 1, 1, 3], [4, 1, 1, 3, 1, 1], [1, 1, 3, 1, 4, 1],
    [1, 1, 4, 1, 3, 1], [3, 1, 1, 1, 4, 1], [4, 1, 1, 1, 3, 1], [2, 1, 1, 4, 1, 2],
    [2, 1, 1, 2, 1, 4], [2, 1, 1, 2, 3, 2],
];

/// Bar/space widths of the stop symbol.
pub const STOP: [u8; 7] = [2, 3, 3, 1, 1, 1, 2];

/// Symbol values with a fixed meaning.
pub const FNC1_VALUE: u16 = 102;
pub const CODE_A: u16 = 101;
pub const CODE_B: u16 = 100;
pub const CODE_C: u16 = 99;
pub const START_A: u16 = 103;
pub const START_B: u16 = 104;
pub const START_C: u16 = 105;

/// An ASCII digit byte.
pub open spec fn is_digit_byte(b: u8) -> bool {
    48 <= b <= 57
}

/// Length of the run of digit tokens from `i`.
pub open spec fn digit_run(t: Seq<Token>, i: int) -> int
    decreases t.len() - i,
{
    if 0 <= i < t.len() && (t[i] matches Token::Ascii(b) && is_digit_byte(b)) {
        1 + digit_run(t, i + 1)
    } else {
        0
    }
}

/// Index of the first data token (after a leading FNC1).
pub open spec fn data_start(t: Seq<Token>) -> int {
    if t.len() > 0 && t[0] == Token::Fnc1 {
        1
    } else {
        0
    }
}

/// The start code set: C for a leading run of at least four digits (or
/// an all-digit payload of even length), A for a leading control
/// character, B otherwise.
pub open spec fn start_set(t: Seq<Token>) -> CodeSet {
    let ds = data_start(t);
    let r = digit_run(t, ds);
    if r >= 4 || (r >= 2 && r % 2 == 0 && r == t.len() - ds) {
        CodeSet::C
    } else if ds < t.len() && (t[ds] matches Token::Ascii(b) && b < 32) {
        CodeSet::A
    } else {
        CodeSet::B
    }
}

/// Value of byte `b` in code set A (`b < 96`) or B (`32 <= b < 128`).
pub open spec fn value_in(set: CodeSet, b: u8) -> u16 {
    if set == CodeSet::A {
        if b < 32 {
            (b + 64) as u16
        } else {
            (b - 32) as u16
        }
    } else {
        (b - 32) as u16
    }
}

/// One step from token `i` in `set`: the symbol values emitted, the next
/// index and set; `None` for a byte above 127.
#[verifier::opaque]
pub open spec fn c128_step(t: Seq<Token>, i: int, set: CodeSet) -> Option<(Seq<u16>, int, CodeSet)> {
    match t[i] {
        Token::Fnc1 => Some((seq![FNC1_VALUE], i + 1, set)),
        Token::LinkA => Some((seq![CODE_A], i + 1, CodeSet::A)),
        Token::LinkC => Some((seq![CODE_C], i + 1, CodeSet::C)),
        Token::Ascii(b) => {
            let r = digit_run(t, i);
            if b > 127 {
                None
            } else if set == CodeSet::C {
                if r >= 2 {
                    Some((seq![pair_value(t, i)], i + 2, CodeSet::C))
                } else if b < 32 {
                    Some((seq![CODE_A, value_in(CodeSet::A, b)], i + 1, CodeSet::A))
                } else {
                    Some((seq![CODE_B, value_in(CodeSet::B, b)], i + 1, CodeSet::B))
                }
            } else if r >= 4 && r % 2 == 0 {
                Some((seq![CODE_C, pair_value(t, i)], i + 2, CodeSet::C))
            } else if set == CodeSet::A && b >= 96 {
                Some((seq![CODE_B, value_in(CodeSet::B, b)], i + 1, CodeSet::B))
            } else if set == CodeSet::B && b < 32 {
                Some((seq![CODE_A, value_in(CodeSet::A, b)], i + 1, CodeSet::A))
            } else {
                Some((seq![value_in(set, b)], i + 1, set))
            }
        },
    }
}

/// The digit pair at `i` as a code-set-C value.
pub open spec fn pair_value(t: Seq<Token>, i: int) -> u16 {
    match (t[i], t[i + 1]) {
        (Token::Ascii(a), Token::Ascii(b)) => ((a - 48) * 10 + (b - 48)) as u16,
        _ => 0,
    }
}

/// Symbol values of the tokens from `i` in `set` (no start, check or
/// stop), or the index of a byte above 127.
pub open spec fn c128_values(t: Seq<Token>, i: int, set: CodeSet) -> Result<Seq<u16>, int>
    decreases t.len() - i,
{
    if i < 0 || i >= t.len() {
        Ok(Seq::empty())
    } else {
        match c128_step(t, i, set) {
            None => Err(i),
            Some(st) => if st.1 <= i || st.1 > t.len() {
                Ok(Seq::empty())
            } else {
                match c128_values(t, st.1, st.2) {
                    Ok(rest) => Ok(st.0 + rest),
                    Err(k) => Err(k),
                }
            },
        }
    }
}

/// The start value of a set.
pub open spec fn start_value(set: CodeSet) -> u16 {
    match set {
        CodeSet::A => START_A,
        CodeSet::B => START_B,
        CodeSet::C => START_C,
    }
}

/// Weighted sum `sum (k + 1) * v[k]`.
pub open spec fn weighted(v: Seq<u16>) -> int
    decreases v.len(),
{
    if v.len() == 0 {
        0
    } else {
        weighted(v.drop_last()) + v.len() * v.last()
    }
}

/// The full symbol: start, data values, modulo-103 check.
pub open spec fn symbol_values(t: Seq<Token>) -> Result<Seq<u16>, int> {
    let s = start_set(t);
    match c128_values(t, 0, s) {
        Ok(v) => Ok(seq![start_value(s)] + v + seq![((start_value(s) + weighted(v)) % 103) as u16]),
        Err(k) => Err(k),
    }
}

/// Bar widths of symbol values, then the stop pattern.
pub open spec fn widths_of(v: Seq<u16>) -> Seq<u8>
    decreases v.len(),
{
    if v.len() == 0 {
        STOP@
    } else {
        PATTERNS@[v[0] as int]@ + widths_of(v.drop_first())
    }
}

/// Message for a byte Code 128 cannot carry.
pub open spec fn byte_message(b: int) -> Seq<char> {
    "Code 128: byte "@ + decimal(b as nat) + " is outside the ASCII range"@
}

/// The pattern (or error message) for a token stream.
pub open spec fn code128_spec(t: Seq<Token>) -> Result<LinearModel, Seq<char>> {
    match symbol_values(t) {
        Ok(v) => Ok(LinearModel { bars: widths_of(v), text: None }),
        Err(k) => Err(byte_message(match t[k] {
            Token::Ascii(b) => b as int,
            _ => 0,
        })),
    }
}

proof fn lemma_digit_run(t: Seq<Token>, i: int)
    ensures
        0 <= digit_run(t, i),
        digit_run(t, i) >= 1 ==> 0 <= i < t.len() && (t[i] matches Token::Ascii(b) && is_digit_byte(b)),
        digit_run(t, i) >= 2 ==> i + 1 < t.len() && (t[i + 1] matches Token::Ascii(b) && is_digit_byte(b)),
        i >= 0 ==> digit_run(t, i) <= t.len() - i || digit_run(t, i) == 0,
    decreases t.len() - i,
{
    if 0 <= i < t.len() {
        lemma_digit_run(t, i + 1);
    }
}

fn digit_run_exec(t: &[Token], i: usize) -> (r: usize)
    requires
        i <= t@.len(),
    ensures
        r as int == digit_run(t@, i as int),
{
    let mut k = t.len();
    let mut r: usize = 0;
    while k > i
        invariant
            i <= k <= t@.len(),
            r as int == digit_run(t@, k as int),
            r <= t@.len() - k,
        decreases k - i,
    {
        let is_d = match t[k - 1] {
            Token::Ascii(b) => 48 <= b && b <= 57,
            _ => false,
        };
        if is_d {
            r = r + 1;
        } else {
            r = 0;
        }
        k = k - 1;
    }
    r
}

/// The start set of a token stream.
fn pick_start_set(t: &[Token]) -> (s: CodeSet)
    ensures
        s == start_set(t@),
{
    let ds: usize = if t.len() > 0 && t[0] == Token::Fnc1 {
        1
    } else {
        0
    };
    let r = digit_run_exec(t, ds);
    if r >= 4 || (r >= 2 && r % 2 == 0 && r == t.len() - ds) {
        CodeSet::C
    } else if ds < t.len() && (match t[ds] {
        Token::Ascii(b) => b < 32,
        _ => false,
    }) {
        CodeSet::A
    } else {
        CodeSet::B
    }
}

fn value_in_exec(set: CodeSet, b: u8) -> (v: u16)
    requires
        set == CodeSet::A ==> b < 96,
        set != CodeSet::A ==> 32 <= b < 128,
    ensures
        v == value_in(set, b),
{
    match set {
        CodeSet::A => if b < 32 {
            (b + 64) as u16
        } else {
            (b - 32) as u16
        },
        _ => (b - 32) as u16,
    }
}

proof fn lemma_weighted_nonneg(v: Seq<u16>)
    ensures
        weighted(v) >= 0,
    decreases v.len(),
{
    if v.len() > 0 {
        lemma_weighted_nonneg(v.drop_last());
        assert(v.len() * v.last() >= 0) by (nonlinear_arith);
    }
}

proof fn lemma_step_advances(t: Seq<Token>, i: int, set: CodeSet)
    requires
        0 <= i < t.len(),
        c128_step(t, i, set) is Some,
    ensures
        i < c128_step(t, i, set).unwrap().1 <= t.len(),
        c128_step(t, i, set).unwrap().0.len() <= 2,
        forall|k: int| 0 <= k < c128_step(t, i, set).unwrap().0.len() ==> #[trigger] c128_step(t, i, set).unwrap().0[k] < 106,
{
    reveal(c128_step);
    lemma_digit_run(t, i);
}

/// One step of the encoder: appends the step's values and returns the
/// next index and set, or `None` for a byte above 127.
fn step_exec(t: &[Token], i: usize, set: CodeSet, vals: &mut Vec<u16>) -> (r: Option<(usize, CodeSet)>)
    requires
        i < t@.len(),
        t@.len() < 0x1000_0000,
    ensures
        match c128_step(t@, i as int, set) {
            None => r is None,
            Some(st) => r == Some((st.1 as usize, st.2)) && final(vals)@ == old(vals)@ + st.0,
        },
{
    proof {
        reveal(c128_step);
        lemma_digit_run(t@, i as int);
    }
    let ghost before = vals@;
    match t[i] {
        Token::Fnc1 => {
            vals.push(FNC1_VALUE);
            Some((i + 1, set))
        },
        Token::LinkA => {
            vals.push(CODE_A);
            Some((i + 1, CodeSet::A))
        },
        Token::LinkC => {
            vals.push(CODE_C);
            Some((i + 1, CodeSet::C))
        },
        Token::Ascii(b) => {
            if b > 127 {
                return None;
            }
            let r = digit_run_exec(t, i);
            let pair: u16 = if r >= 2 {
                let b2 = match t[i + 1] {
                    Token::Ascii(x) => x,
                    _ => 48,
                };
                ((b - 48) as u16) * 10 + ((b2 - 48) as u16)
            } else {
                0
            };
            if set == CodeSet::C {
                if r >= 2 {
                    vals.push(pair);
                    Some((i + 2, CodeSet::C))
                } else if b < 32 {
                    vals.push(CODE_A);
                    vals.push(value_in_exec(CodeSet::A, b));
                    Some((i + 1, CodeSet::A))
                } else {
                    vals.push(CODE_B);
                    vals.push(value_in_exec(CodeSet::B, b));
                    Some((i + 1, CodeSet::B))
                }
            } else if r >= 4 && r % 2 == 0 {
                vals.push(CODE_C);
                vals.push(pair);
                Some((i + 2, CodeSet::C))
            } else if set == CodeSet::A && b >= 96 {
                vals.push(CODE_B);
                vals.push(value_in_exec(CodeSet::B, b));
                Some((i + 1, CodeSet::B))
            } else if set == CodeSet::B && b < 32 {
                vals.push(CODE_A);
                vals.push(value_in_exec(CodeSet::A, b));
                Some((i + 1, CodeSet::A))
            } else {
                vals.push(value_in_exec(set, b));
                Some((i + 1, set))
            }
        },
    }
}

/// One more weighted value keeps the running sum modulo 103.
proof fn lemma_check_step(v: Seq<u16>, k: int, sv: int, sum: int)
    requires
        0 <= k < v.len() < 0x4000_0000,
        v[k] < 106,
        sv >= 0,
        sum == (sv + weighted(v.subrange(0, k))) % 103,
    ensures
        (sum + (k + 1) * v[k]) % 103 == (sv + weighted(v.subrange(0, k + 1))) % 103,
{
    let pre = v.subrange(0, k + 1);
    assert(pre.drop_last() =~= v.subrange(0, k));
    let w = weighted(v.subrange(0, k));
    let add = (k + 1) * v[k];
    lemma_weighted_nonneg(v.subrange(0, k));
    vstd::arithmetic::div_mod::lemma_add_mod_noop(sv + w, add, 103);
    vstd::arithmetic::div_mod::lemma_mod_twice(sv + w, 103);
    vstd::arithmetic::div_mod::lemma_add_mod_noop(sum, add, 103);
    vstd::arithmetic::div_mod::lemma_mod_twice(add, 103);
}

/// The start value plus the position-weighted values, modulo 103.
fn check_sum(sv: u64, vals: &Vec<u16>) -> (sum: u64)
    requires
        sv < 106,
        vals@.len() < 0x4000_0000,
        forall|j: int| 0 <= j < vals@.len() ==> #[trigger] vals@[j] < 106,
    ensures
        sum as int == (sv + weighted(vals@)) % 103,
{
    let nv = vals.len();
    let mut sum: u64 = sv % 103;
    let mut k: usize = 0;
    proof {
        assert(vals@.subrange(0, 0) =~= Seq::<u16>::empty());
    }
    while k < nv
        invariant
            nv == vals@.len(),
            nv < 0x4000_0000,
            k <= nv,
            sv < 106,
            forall|j: int| 0 <= j < vals@.len() ==> #[trigger] vals@[j] < 106,
            sum < 103,
            sum as int == (sv + weighted(vals@.subrange(0, k as int))) % 103,
        decreases nv - k,
    {
        proof {
            assert((k + 1) * vals@[k as int] <= 106 * 0x4000_0000) by (nonlinear_arith)
                requires
                    vals@[k as int] < 106,
                    k < 0x4000_0000,
            ;
            lemma_check_step(vals@, k as int, sv as int, sum as int);
        }
        sum = (sum + ((k + 1) as u64) * (vals[k] as u64)) % 103;
        k = k + 1;
    }
    assert(vals@.subrange(0, nv as int) =~= vals@);
    sum
}

/// Encodes a token stream as a Code 128 pattern.
pub fn encode_tokens(tokens: &[Token], opts: &Options) -> (r: Result<LinearPattern, Error>)
    requires
        tokens@.len() < 0x1000_0000,
    ensures
        match (r, code128_spec(tokens@)) {
            (Ok(p), Ok(m)) => p@ == m,
            (Err(Error::InvalidData(msg)), Err(e)) => msg@ == e,
            _ => false,
        },
{
    let t = tokens;
    let n = t.len();
    let start = pick_start_set(t);
    let mut set = start;
    let mut vals: Vec<u16> = Vec::new();
    let mut i: usize = 0;
    proof {
        assert(vals@ + Seq::<u16>::empty() =~= vals@);
    }
    while i < n
        invariant
            n == t@.len(),
            t@ == tokens@,
            n < 0x1000_0000,
            i <= n,
            forall|k: int| 0 <= k < vals@.len() ==> #[trigger] vals@[k] < 106,
            vals@.len() <= 2 * i,
            c128_values(t@, 0, start_set(t@)) == match c128_values(t@, i as int, set) {
                Ok(rest) => Ok(vals@ + rest),
                Err(k) => Err::<Seq<u16>, int>(k),
            },
        decreases n - i,
    {
        let ghost before = vals@;
        let ghost i0 = i as int;
        let ghost s0 = set;
        match step_exec(t, i, set, &mut vals) {
            None => {
                let b: u8 = match t[i] {
                    Token::Ascii(x) => x,
                    _ => 0,
                };
                let mut text = String::from_str("Code 128: byte ");
                push_decimal(&mut text, b as u64);
                text.append(" is outside the ASCII range");
                proof {
                    reveal(c128_step);
                    assert(c128_values(t@, i as int, set) == Err::<Seq<u16>, int>(i as int));
                    assert(symbol_values(t@) == Err::<Seq<u16>, int>(i as int));
                    assert(code128_spec(t@) == Err::<LinearModel, Seq<char>>(byte_message(b as int)));
                    assert(text@ =~= byte_message(b as int));
                    assert(tokens@ == t@);
                }
                let e = Error::InvalidData(text);
                proof {
                    assert(e matches Error::InvalidData(m) && m@ == byte_message(b as int));
                }
                return Err(e);
            },
            Some((ni, ns)) => {
                proof {
                    let x = c128_step(t@, i0, s0).unwrap();
                    lemma_step_advances(t@, i0, s0);
                    match c128_values(t@, ni as int, ns) {
                        Ok(rest) => {
                            assert(vals@ + rest =~= before + (x.0 + rest));
                        },
                        Err(k) => {},
                    }
                }
                i = ni;
                set = ns;
            },
        }
    }
    let sv = match start {
        CodeSet::A => START_A,
        CodeSet::B => START_B,
        CodeSet::C => START_C,
    };
    let nv = vals.len();
    let sum = check_sum(sv as u64, &vals);
    let check = (sum % 103) as u16;
    proof {
        vstd::arithmetic::div_mod::lemma_mod_twice(sv + weighted(vals@), 103);
    }
    let mut all: Vec<u16> = Vec::new();
    all.push(sv);
    let mut k: usize = 0;
    while k < nv
        invariant
            nv == vals@.len(),
            k <= nv,
            all@ == seq![sv] + vals@.subrange(0, k as int),
            forall|j: int| 0 <= j < vals@.len() ==> #[trigger] vals@[j] < 106,
            forall|j: int| 0 <= j < all@.len() ==> #[trigger] all@[j] < 106,
        decreases nv - k,
    {
        all.push(vals[k]);
        k = k + 1;
        assert(all@ =~= seq![sv] + vals@.subrange(0, k as int));
    }
    all.push(check);
    proof {
        assert(vals@.subrange(0, nv as int) =~= vals@);
    }
    let ghost av = all@;
    let mut bars: Vec<u8> = Vec::new();
    assert(av.subrange(0, av.len() as int) =~= av);
    let mut q: usize = 0;
    while q < all.len()
        invariant
            av == all@,
            q <= all@.len(),
            forall|j: int| 0 <= j < all@.len() ==> #[trigger] all@[j] < 106,
            bars@ + widths_of(av.subrange(q as int, av.len() as int)) == widths_of(av),
        decreases all@.len() - q,
    {
        let pat = PATTERNS[all[q] as usize];
        let ghost before = bars@;
        let mut w: usize = 0;
        while w < 6
            invariant
                w <= 6,
                bars@ == before + pat@.subrange(0, w as int),
            decreases 6 - w,
        {
            bars.push(pat[w]);
            w = w + 1;
            assert(bars@ =~= before + pat@.subrange(0, w as int));
        }
        proof {
            let rest = av.subrange(q as int, av.len() as int);
            assert(rest.drop_first() =~= av.subrange(q + 1, av.len() as int));
            assert(pat@.subrange(0, 6) =~= pat@);
            assert(bars@ + widths_of(av.subrange(q + 1, av.len() as int)) =~= before + widths_of(rest));
        }
        q = q + 1;
    }
    let mut w: usize = 0;
    let ghost before = bars@;
    while w < 7
        invariant
            w <= 7,
            bars@ == before + STOP@.subrange(0, w as int),
        decreases 7 - w,
    {
        bars.push(STOP[w]);
        w = w + 1;
        assert(bars@ =~= before + STOP@.subrange(0, w as int));
    }
    proof {
        assert(av.subrange(av.len() as int, av.len() as int) =~= Seq::<u16>::empty());
        assert(STOP@.subrange(0, 7) =~= STOP@);
        assert(bars@ == widths_of(av));
        assert(c128_values(t@, 0, start_set(t@)) == Ok::<Seq<u16>, int>(vals@));
        assert(av =~= seq![start_value(start)] + vals@ + seq![((start_value(start) + weighted(vals@)) % 103) as u16]);
        assert(symbol_values(t@) == Ok::<Seq<u16>, int>(av));
    }
    let p = LinearPattern { bars, text: None };
    proof {
        assert(p@ == LinearModel { bars: widths_of(av), text: None });
    }
    Ok(p)
}

/// Reads symbol values back in code set `set` by the Code 128 tables:
/// `102` is FNC1; in set C a value below 100 is two digits and `101` /
/// `100` switch to A / B; in sets A and B `99` switches to C and `101` /
/// `100` to the other of A and B; below 64 a value is the character 32
/// above it, and from 64 to 95 the control character 64 below it (set A)
/// or the character 32 above it (set B).
pub open spec fn c128_decode(v: Seq<u16>, set: CodeSet) -> Seq<Token>
    decreases v.len(),
{
    if v.len() == 0 {
        Seq::empty()
    } else {
        let x = v[0];
        let rest = v.drop_first();
        if x == 102 {
            seq![Token::Fnc1] + c128_decode(rest, set)
        } else if set == CodeSet::C {
            if x < 100 {
                seq![Token::Ascii((48 + x / 10) as u8), Token::Ascii((48 + x % 10) as u8)] + c128_decode(
                    rest,
                    CodeSet::C,
                )
            } else if x == 101 {
                c128_decode(rest, CodeSet::A)
            } else if x == 100 {
                c128_decode(rest, CodeSet::B)
            } else {
                c128_decode(rest, set)
            }
        } else if x == 99 {
            c128_decode(rest, CodeSet::C)
        } else if set == CodeSet::A && x == 100 {
            c128_decode(rest, CodeSet::B)
        } else if set == CodeSet::B && x == 101 {
            c128_decode(rest, CodeSet::A)
        } else if x < 64 {
            seq![Token::Ascii((x + 32) as u8)] + c128_decode(rest, set)
        } else if x < 96 {
            seq![Token::Ascii((if set == CodeSet::A { x - 64 } else { x + 32 }) as u8)] + c128_decode(
                rest,
                set,
            )
        } else {
            c128_decode(rest, set)
        }
    }
}

/// The code set a start value opens.
pub open spec fn set_of_start(v: u16) -> CodeSet {
    if v == START_A {
        CodeSet::A
    } else if v == START_B {
        CodeSet::B
    } else {
        CodeSet::C
    }
}

/// A token stream of FNC1s and ASCII bytes (no linkage flags).
pub open spec fn plain_tokens(t: Seq<Token>) -> bool {
    forall|k: int| 0 <= k < t.len() ==> (#[trigger] t[k] == Token::Fnc1 || t[k] is Ascii)
}

proof fn lemma_decode_two(a: u16, b: u16, rest: Seq<u16>, set: CodeSet)
    ensures
        (seq![a, b] + rest)[0] == a,
        (seq![a, b] + rest).drop_first() =~= seq![b] + rest,
        (seq![b] + rest)[0] == b,
        (seq![b] + rest).drop_first() =~= rest,
{
}

proof fn lemma_decode_value(x: u16, b: u8, rest: Seq<u16>, set: CodeSet)
    requires
        set != CodeSet::C,
        set == CodeSet::A ==> b < 96,
        set == CodeSet::B ==> 32 <= b < 128,
        x == value_in(set, b),
    ensures
        c128_decode(seq![x] + rest, set) == seq![Token::Ascii(b)] + c128_decode(rest, set),
{
    assert((seq![x] + rest)[0] == x);
    assert((seq![x] + rest).drop_first() =~= rest);
}

proof fn lemma_decode_switch(sw: u16, x: u16, rest: Seq<u16>, from: CodeSet, to: CodeSet)
    requires
        (from == CodeSet::C && sw == CODE_A && to == CodeSet::A) || (from == CodeSet::C && sw
            == CODE_B && to == CodeSet::B) || (from != CodeSet::C && sw == CODE_C && to
            == CodeSet::C) || (from == CodeSet::A && sw == CODE_B && to == CodeSet::B) || (from
            == CodeSet::B && sw == CODE_A && to == CodeSet::A),
    ensures
        c128_decode(seq![sw, x] + rest, from) == c128_decode(seq![x] + rest, to),
{
    assert((seq![sw, x] + rest)[0] == sw);
    assert((seq![sw, x] + rest).drop_first() =~= seq![x] + rest);
}

proof fn lemma_decode_pair(a: u8, b: u8, rest: Seq<u16>)
    requires
        48 <= a <= 57,
        48 <= b <= 57,
    ensures
        c128_decode(seq![((a - 48) * 10 + (b - 48)) as u16] + rest, CodeSet::C) == seq![
            Token::Ascii(a),
            Token::Ascii(b),
        ] + c128_decode(rest, CodeSet::C),
{
    let x = ((a - 48) * 10 + (b - 48)) as u16;
    assert((seq![x] + rest)[0] == x);
    assert((seq![x] + rest).drop_first() =~= rest);
    assert(x / 10 == a - 48 && x % 10 == b - 48);
}

proof fn lemma_values_decode(t: Seq<Token>, i: int, set: CodeSet)
    requires
        plain_tokens(t),
        0 <= i <= t.len(),
        c128_values(t, i, set) is Ok,
    ensures
        c128_decode(c128_values(t, i, set)->Ok_0, set) == t.subrange(i, t.len() as int),
    decreases t.len() - i,
{
    if i == t.len() {
        assert(t.subrange(i, i) =~= Seq::<Token>::empty());
    } else {
        reveal(c128_step);
        lemma_digit_run(t, i);
        lemma_digit_run(t, i + 1);
        let st = c128_step(t, i, set)->0;
        assert(st.1 > i && st.1 <= t.len());
        lemma_values_decode(t, st.1, st.2);
        let rest = c128_values(t, st.1, st.2)->Ok_0;
        let tail = t.subrange(st.1, t.len() as int);
        assert(c128_values(t, i, set)->Ok_0 == st.0 + rest);
        assert(c128_decode(rest, st.2) == tail);
        if st.1 == i + 1 {
            assert(t.subrange(i, t.len() as int) =~= seq![t[i]] + tail);
        } else {
            assert(t.subrange(i, t.len() as int) =~= seq![t[i], t[i + 1]] + tail);
        }
        assert(t[i] == Token::Fnc1 || t[i] is Ascii);
        match t[i] {
            Token::Fnc1 => {
                assert((seq![FNC1_VALUE] + rest)[0] == FNC1_VALUE);
                assert((seq![FNC1_VALUE] + rest).drop_first() =~= rest);
            },
            Token::Ascii(b) => {
                let r = digit_run(t, i);
                if set == CodeSet::C {
                    if r >= 2 {
                        let nb = match t[i + 1] {
                            Token::Ascii(c) => c,
                            _ => 0,
                        };
                        lemma_decode_pair(b, nb, rest);
                    } else if b < 32 {
                        lemma_decode_switch(CODE_A, value_in(CodeSet::A, b), rest, CodeSet::C, CodeSet::A);
                        lemma_decode_value(value_in(CodeSet::A, b), b, rest, CodeSet::A);
                    } else {
                        lemma_decode_switch(CODE_B, value_in(CodeSet::B, b), rest, CodeSet::C, CodeSet::B);
                        lemma_decode_value(value_in(CodeSet::B, b), b, rest, CodeSet::B);
                    }
                } else if r >= 4 && r % 2 == 0 {
                    let nb = match t[i + 1] {
                        Token::Ascii(c) => c,
                        _ => 0,
                    };
                    let pv = pair_value(t, i);
                    lemma_decode_switch(CODE_C, pv, rest, set, CodeSet::C);
                    lemma_decode_pair(b, nb, rest);
                } else if set == CodeSet::A && b >= 96 {
                    lemma_decode_switch(CODE_B, value_in(CodeSet::B, b), rest, CodeSet::A, CodeSet::B);
                    lemma_decode_value(value_in(CodeSet::B, b), b, rest, CodeSet::B);
                } else if set == CodeSet::B && b < 32 {
                    lemma_decode_switch(CODE_A, value_in(CodeSet::A, b), rest, CodeSet::B, CodeSet::A);
                    lemma_decode_value(value_in(CodeSet::A, b), b, rest, CodeSet::A);
                } else {
                    lemma_decode_value(value_in(set, b), b, rest, set);
                }
            },
            _ => {},
        }
    }
}

/// Reading a symbol's data values back by the Code 128 tables, from the
/// code set its start value opens, gives exactly the FNC1s and bytes it
/// was made from.
pub proof fn law_code128_reads_back(t: Seq<Token>)
    requires
        plain_tokens(t),
        symbol_values(t) is Ok,
    ensures
        ({
            let v = symbol_values(t)->Ok_0;
            c128_decode(v.subrange(1, v.len() - 1), set_of_start(v[0])) == t
        }),
{
    let s = start_set(t);
    lemma_values_decode(t, 0, s);
    let d = c128_values(t, 0, s)->Ok_0;
    let v = symbol_values(t)->Ok_0;
    assert(v.subrange(1, v.len() - 1) =~= d);
    assert(set_of_start(v[0]) == s);
    assert(t.subrange(0, t.len() as int) =~= t);
}

} // verus!
