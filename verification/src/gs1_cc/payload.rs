//! The general-purpose field of a GS1 composite component: runs of each
//! compaction mode, the mode-switching encoder, and the mode it ends in.

use vstd::prelude::*;
use std::collections::HashMap;

use super::maps::{
    alnum_entry, build_alphanumeric_map, build_iso646_map, build_numeric_map, iso_entry, key_digit,
    map_of, numeric_entry, NumericMap, FNC1,
};

verus! {

broadcast use vstd::std_specs::hash::group_hash_axioms;

/// The compaction mode.
#[derive(Debug, Clone, Copy, PartialEq, Eq, Structural)]
pub enum CcMode {
    Numeric,
    Alphanumeric,
    Iso646,
}

/// FNC1 among the numeric-mode key characters (`'^'`).
pub const NUMERIC_FNC1: u8 = 94;

/// A general-purpose field: bytes and FNC1.
pub open spec fn valid_gpf(g: Seq<i32>) -> bool {
    forall|j: int| 0 <= j < g.len() ==> (#[trigger] g[j] == FNC1 || 0 <= g[j] <= 255)
}

/// The numeric-mode key character of a field value (`'^'` for FNC1).
pub open spec fn pair_byte_spec(v: i32) -> u8 {
    if v == FNC1 {
        94
    } else {
        v as u8
    }
}

/// The numeric-mode key character of a field value (`'^'` for FNC1).
pub fn pair_byte(v: i32) -> (b: u8)
    ensures
        b == pair_byte_spec(v),
{
    if v == FNC1 {
        NUMERIC_FNC1
    } else {
        v as u8
    }
}

/// Values `i` and `i + 1` form a numeric-mode pair.
pub open spec fn pair_ok(g: Seq<i32>, i: int) -> bool {
    0 <= i && i + 1 < g.len() && numeric_entry(pair_byte_spec(g[i]), pair_byte_spec(g[i + 1])) is Some
}

/// Length of the run of numeric pairs from `i` (in values).
pub open spec fn numeric_run(g: Seq<i32>, i: int) -> int
    decreases g.len() - i,
{
    if pair_ok(g, i) {
        numeric_run(g, i + 2) + 2
    } else {
        0
    }
}

/// Length of the run of alphanumeric-encodable values from `i`.
pub open spec fn alnum_run(g: Seq<i32>, i: int) -> int
    decreases g.len() - i,
{
    if 0 <= i < g.len() && alnum_entry(g[i]) is Some {
        alnum_run(g, i + 1) + 1
    } else {
        0
    }
}

/// A value only ISO 646 mode can encode.
pub open spec fn iso_only(v: i32) -> bool {
    iso_entry(v) is Some && alnum_entry(v) is None
}

/// Distance to the next ISO-646-only value (`9999` past the end, then
/// counting up, saturating).
pub open spec fn next_iso_only(g: Seq<i32>, i: int) -> int
    decreases g.len() - i,
{
    if i < 0 || i >= g.len() {
        9999
    } else if iso_only(g[i]) {
        0
    } else {
        let v = next_iso_only(g, i + 1) + 1;
        if v > u32::MAX {
            u32::MAX as int
        } else {
            v
        }
    }
}

/// The bits of `v` in `w` bits, most significant first.
pub open spec fn bits_of(v: u32, w: u8) -> Seq<bool> {
    Seq::new(w as nat, |j: int| ((v >> ((w - 1 - j) as u32)) & 1u32) == 1u32)
}

/// Appends `value` in `width` bits, most significant first.
pub fn push_bits(out: &mut Vec<bool>, value: u32, width: u8)
    requires
        width <= 32,
    ensures
        final(out)@ == old(out)@ + bits_of(value, width),
{
    let ghost start = out@;
    let mut k: u8 = width;
    while k > 0
        invariant
            k <= width <= 32,
            out@ == start + bits_of(value, width).subrange(0, (width - k) as int),
        decreases k,
    {
        k = k - 1;
        out.push(((value >> (k as u32)) & 1) == 1);
        assert(out@ =~= start + bits_of(value, width).subrange(0, (width - k) as int));
    }
    assert(bits_of(value, width).subrange(0, width as int) =~= bits_of(value, width));
}

/// One step of the encoder at `i` in `mode`: bits emitted, next index and
/// mode.
#[verifier::opaque]
pub open spec fn payload_step(g: Seq<i32>, i: int, mode: CcMode) -> (Seq<bool>, int, CcMode) {
    let n = g.len() as int;
    let c = g[i];
    let run = numeric_run(g, i);
    match mode {
        CcMode::Numeric => if i + 1 < n {
            if pair_ok(g, i) {
                let v = numeric_entry(pair_byte_spec(g[i]), pair_byte_spec(g[i + 1]))->0;
                (bits_of(v.0, v.1), i + 2, CcMode::Numeric)
            } else {
                (bits_of(0, 4), i, CcMode::Alphanumeric)
            }
        } else if !(48 <= c <= 57) {
            (bits_of(0, 4), i, CcMode::Alphanumeric)
        } else {
            let v = numeric_entry(c as u8, 94)->0;
            (bits_of(v.0, v.1), i + 1, CcMode::Numeric)
        },
        CcMode::Alphanumeric => if c == FNC1 {
            (bits_of(15, 5), i + 1, CcMode::Numeric)
        } else if iso_only(c) {
            (bits_of(4, 5), i, CcMode::Iso646)
        } else if run >= 6 || (run >= 4 && i + run == n) {
            (bits_of(0, 3), i, CcMode::Numeric)
        } else if alnum_entry(c) is Some {
            let v = alnum_entry(c)->0;
            (bits_of(v.0, v.1), i + 1, CcMode::Alphanumeric)
        } else {
            (bits_of(4, 5), i, CcMode::Iso646)
        },
        CcMode::Iso646 => if c == FNC1 {
            (bits_of(15, 5), i + 1, CcMode::Numeric)
        } else if run >= 4 && next_iso_only(g, i) >= 10 {
            (bits_of(0, 3), i, CcMode::Numeric)
        } else if alnum_run(g, i) >= 5 && next_iso_only(g, i) >= 10 {
            (bits_of(4, 5), i, CcMode::Alphanumeric)
        } else if iso_entry(c) is Some {
            let v = iso_entry(c)->0;
            (bits_of(v.0, v.1), i + 1, CcMode::Iso646)
        } else {
            (Seq::empty(), i + 1, CcMode::Iso646)
        },
    }
}

/// One step of the final-mode scan at `i` in `mode`: next index and mode.
#[verifier::opaque]
pub open spec fn mode_step(g: Seq<i32>, i: int, mode: CcMode) -> (int, CcMode) {
    let n = g.len() as int;
    let c = g[i];
    let run = numeric_run(g, i);
    match mode {
        CcMode::Numeric => if i + 1 < n {
            if pair_ok(g, i) {
                (i + 2, CcMode::Numeric)
            } else {
                (i, CcMode::Alphanumeric)
            }
        } else if !(48 <= c <= 57) {
            (i, CcMode::Alphanumeric)
        } else {
            (i + 1, CcMode::Numeric)
        },
        CcMode::Alphanumeric => if c == FNC1 {
            (i + 1, CcMode::Numeric)
        } else if iso_only(c) {
            (i, CcMode::Iso646)
        } else if run >= 6 || (run >= 4 && i + run == n) {
            (i, CcMode::Numeric)
        } else {
            (i + 1, CcMode::Alphanumeric)
        },
        CcMode::Iso646 => if c == FNC1 {
            (i + 1, CcMode::Numeric)
        } else if run >= 4 && next_iso_only(g, i) >= 10 {
            (i, CcMode::Numeric)
        } else if alnum_run(g, i) >= 5 && next_iso_only(g, i) >= 10 {
            (i, CcMode::Alphanumeric)
        } else {
            (i + 1, CcMode::Iso646)
        },
    }
}

/// Numeric mode consumes input at `i`.
pub open spec fn numeric_progresses(g: Seq<i32>, i: int) -> bool {
    (i + 1 < g.len() && pair_ok(g, i)) || (i + 1 == g.len() && 48 <= g[i] <= 57)
}

/// How many mode changes can follow in place at `i` before input is
/// consumed.
pub open spec fn cc_rank(g: Seq<i32>, i: int, mode: CcMode) -> int {
    let n = g.len() as int;
    let c = g[i];
    let run = numeric_run(g, i);
    match mode {
        CcMode::Numeric => if numeric_progresses(g, i) {
            0
        } else {
            3
        },
        CcMode::Alphanumeric => if c == FNC1 {
            0
        } else if iso_only(c) {
            2
        } else if run >= 6 || (run >= 4 && i + run == n) {
            1
        } else if alnum_entry(c) is Some {
            0
        } else {
            2
        },
        CcMode::Iso646 => if c == FNC1 {
            0
        } else if run >= 4 && next_iso_only(g, i) >= 10 {
            1
        } else if alnum_run(g, i) >= 5 && next_iso_only(g, i) >= 10 {
            1
        } else {
            0
        },
    }
}

/// Termination measure of both scans.
pub open spec fn cc_measure(g: Seq<i32>, i: int, mode: CcMode) -> int {
    if i >= g.len() {
        0
    } else {
        (g.len() - i) * 4 + cc_rank(g, i, mode)
    }
}

proof fn lemma_runs(g: Seq<i32>, i: int)
    ensures
        numeric_run(g, i) >= 0,
        alnum_run(g, i) >= 0,
        next_iso_only(g, i) >= 0,
        numeric_run(g, i) >= 2 ==> pair_ok(g, i),
        alnum_run(g, i) >= 1 ==> 0 <= i < g.len() && alnum_entry(g[i]) is Some,
        0 <= i < g.len() ==> (next_iso_only(g, i) == 0 <==> iso_only(g[i])),
    decreases g.len() - i,
{
    if 0 <= i < g.len() {
        lemma_runs(g, i + 1);
        if i + 2 <= g.len() {
            lemma_runs(g, i + 2);
        }
    }
}

proof fn lemma_progress(g: Seq<i32>, i: int, j: int, m: CcMode, m2: CcMode)
    requires
        0 <= i < j <= g.len(),
        0 <= cc_rank(g, i, m),
        j < g.len() ==> cc_rank(g, j, m2) <= 3,
    ensures
        cc_measure(g, j, m2) < cc_measure(g, i, m),
{
    assert((g.len() - j) * 4 + 3 < (g.len() - i) * 4);
}

/// Both scans stay inside the field and either consume input or lower the
/// measure by changing mode.
pub proof fn lemma_cc_steps(g: Seq<i32>, i: int, mode: CcMode)
    requires
        valid_gpf(g),
        0 <= i < g.len(),
    ensures
        i <= payload_step(g, i, mode).1 <= g.len(),
        (payload_step(g, i, mode).1 > i) || (payload_step(g, i, mode).2 != mode),
        cc_measure(g, payload_step(g, i, mode).1, payload_step(g, i, mode).2) < cc_measure(g, i, mode),
        i <= mode_step(g, i, mode).0 <= g.len(),
        (mode_step(g, i, mode).0 > i) || (mode_step(g, i, mode).1 != mode),
        cc_measure(g, mode_step(g, i, mode).0, mode_step(g, i, mode).1) < cc_measure(g, i, mode),
{
    reveal(payload_step);
    reveal(mode_step);
    lemma_runs(g, i);
    let c = g[i];
    assert(48 <= c <= 57 ==> numeric_entry(c as u8, 94) is Some);
    let p = payload_step(g, i, mode);
    let q = mode_step(g, i, mode);
    assert(cc_rank(g, i, mode) >= 0);
    if p.1 < g.len() {
        assert(cc_rank(g, p.1, p.2) <= 3);
    }
    if q.0 < g.len() {
        assert(cc_rank(g, q.0, q.1) <= 3);
    }
    if p.1 > i {
        lemma_progress(g, i, p.1, mode, p.2);
    }
    if q.0 > i {
        lemma_progress(g, i, q.0, mode, q.1);
    }
}

proof fn lemma_step_len(g: Seq<i32>, i: int, mode: CcMode)
    requires
        valid_gpf(g),
        0 <= i < g.len(),
    ensures
        payload_step(g, i, mode).0.len() <= 8,
{
    reveal(payload_step);
    lemma_runs(g, i);
}

/// Every step emits at most eight bits, so the bits from `i` are at most
/// eight times the measure.
pub proof fn lemma_payload_len(g: Seq<i32>, i: int, mode: CcMode)
    requires
        valid_gpf(g),
        0 <= i,
    ensures
        payload_from(g, i, mode).len() <= 8 * cc_measure(g, i, mode),
        cc_measure(g, i, mode) <= 4 * g.len() + 3,
    decreases cc_measure(g, i, mode),
{
    if i < g.len() {
        lemma_cc_steps(g, i, mode);
        lemma_step_len(g, i, mode);
        let st = payload_step(g, i, mode);
        lemma_payload_len(g, st.1, st.2);
    }
}

/// The bits the encoder emits from `i` in `mode`.
pub open spec fn payload_from(g: Seq<i32>, i: int, mode: CcMode) -> Seq<bool>
    decreases cc_measure(g, i, mode),
    when valid_gpf(g) && 0 <= i
{
    if i >= g.len() {
        Seq::empty()
    } else {
        proof {
            lemma_cc_steps(g, i, mode);
        }
        let st = payload_step(g, i, mode);
        st.0 + payload_from(g, st.1, st.2)
    }
}

/// The mode the scan ends in from `i` in `mode`.
pub open spec fn final_mode_from(g: Seq<i32>, i: int, mode: CcMode) -> CcMode
    decreases cc_measure(g, i, mode),
    when valid_gpf(g) && 0 <= i
{
    if i >= g.len() {
        mode
    } else {
        proof {
            lemma_cc_steps(g, i, mode);
        }
        let st = mode_step(g, i, mode);
        final_mode_from(g, st.0, st.1)
    }
}

/// The mode the encoder is in once it has consumed the field from `i` in
/// `mode`.
pub open spec fn payload_mode_from(g: Seq<i32>, i: int, mode: CcMode) -> CcMode
    decreases cc_measure(g, i, mode),
    when valid_gpf(g) && 0 <= i
{
    if i >= g.len() {
        mode
    } else {
        proof {
            lemma_cc_steps(g, i, mode);
        }
        let st = payload_step(g, i, mode);
        payload_mode_from(g, st.1, st.2)
    }
}

/// Every value of the field is FNC1 or has an alphanumeric or ISO 646
/// code.
pub open spec fn all_encodable(g: Seq<i32>) -> bool {
    forall|j: int|
        0 <= j < g.len() ==> (#[trigger] g[j] == FNC1 || alnum_entry(g[j]) is Some || iso_entry(
            g[j],
        ) is Some)
}

/// The final-mode scan ends in the mode the encoder ends in, for any field
/// whose values all have a code.
pub proof fn law_final_mode_matches_encoder(g: Seq<i32>, i: int, mode: CcMode)
    requires
        valid_gpf(g),
        all_encodable(g),
        0 <= i,
    ensures
        final_mode_from(g, i, mode) == payload_mode_from(g, i, mode),
    decreases cc_measure(g, i, mode),
{
    if i < g.len() {
        lemma_cc_steps(g, i, mode);
        reveal(payload_step);
        reveal(mode_step);
        let c = g[i];
        assert(c == FNC1 || alnum_entry(c) is Some || iso_entry(c) is Some);
        let p = payload_step(g, i, mode);
        let q = mode_step(g, i, mode);
        assert(q.0 == p.1 && q.1 == p.2);
        law_final_mode_matches_encoder(g, p.1, p.2);
    }
}

/// The three lookahead tables: numeric runs, alphanumeric runs and the
/// distance to the next ISO-646-only value, per position.
pub fn compute_runs(
    gpf: &[i32],
    numeric: &NumericMap,
    alphanumeric: &HashMap<i32, (u32, u8)>,
    iso646: &HashMap<i32, (u32, u8)>,
) -> (r: (Vec<u32>, Vec<u32>, Vec<u32>))
    requires
        valid_gpf(gpf@),
        gpf@.len() < 0x1000_0000,
        numeric.wf(),
        alphanumeric@ == map_of(|k: i32| alnum_entry(k)),
        iso646@ == map_of(|k: i32| iso_entry(k)),
    ensures
        r.0@.len() == gpf@.len(),
        r.1@.len() == gpf@.len(),
        r.2@.len() == gpf@.len(),
        forall|i: int| 0 <= i < gpf@.len() ==> #[trigger] r.0@[i] as int == numeric_run(gpf@, i),
        forall|i: int| 0 <= i < gpf@.len() ==> #[trigger] r.1@[i] as int == alnum_run(gpf@, i),
        forall|i: int| 0 <= i < gpf@.len() ==> #[trigger] r.2@[i] as int == next_iso_only(gpf@, i),
{
    let n = gpf.len();
    let mut numeric_runs: Vec<u32> = Vec::new();
    let mut alnum_runs: Vec<u32> = Vec::new();
    let mut next_iso: Vec<u32> = Vec::new();
    let mut z: usize = 0;
    while z < n + 2
        invariant
            z <= n + 2,
            n < 0x1000_0000,
            numeric_runs@.len() == z,
            alnum_runs@.len() == (if z <= n + 1 { z as int } else { n + 1 }),
            next_iso@.len() == (if z <= n + 1 { z as int } else { n + 1 }),
            forall|j: int| 0 <= j < z ==> #[trigger] numeric_runs@[j] == 0,
            forall|j: int| 0 <= j < z && j < n ==> #[trigger] alnum_runs@[j] == 0,
            forall|j: int| 0 <= j < z && j < n ==> #[trigger] next_iso@[j] == 0,
            z == n + 1 || z == n + 2 ==> alnum_runs@[n as int] == 0 && next_iso@[n as int] == 9999,
        decreases n + 2 - z,
    {
        numeric_runs.push(0);
        if z <= n {
            alnum_runs.push(0);
            next_iso.push(if z == n {
                9999
            } else {
                0
            });
        }
        z = z + 1;
    }
    let ghost g = gpf@;
    let mut k: usize = n;
    while k > 0
        invariant
            g == gpf@,
            valid_gpf(g),
            n == g.len(),
            n < 0x1000_0000,
            numeric.wf(),
            alphanumeric@ == map_of(|k: i32| alnum_entry(k)),
            iso646@ == map_of(|k: i32| iso_entry(k)),
            k <= n,
            numeric_runs@.len() == n + 2,
            alnum_runs@.len() == n + 1,
            next_iso@.len() == n + 1,
            forall|j: int| k <= j <= n + 1 ==> #[trigger] numeric_runs@[j] as int == numeric_run(g, j),
            forall|j: int| k <= j <= n ==> #[trigger] alnum_runs@[j] as int == alnum_run(g, j),
            forall|j: int| k <= j <= n ==> #[trigger] next_iso@[j] as int == next_iso_only(g, j),
            forall|j: int| k <= j <= n + 1 ==> numeric_run(g, j) <= n + 2 - j,
            forall|j: int| k <= j <= n ==> alnum_run(g, j) <= n - j,
        decreases k,
    {
        let i = k - 1;
        let c0 = pair_byte(gpf[i]);
        let c1: u8 = if i + 1 < n {
            pair_byte(gpf[i + 1])
        } else {
            0
        };
        let pair = [c0, c1];
        proof {
            assert(numeric_runs@[i + 2] as int == numeric_run(g, i + 2));
            assert(numeric_run(g, i + 2) <= n - i);
        }
        if i + 1 < n && numeric.contains_key(&pair) {
            numeric_runs.set(i, numeric_runs[i + 2] + 2);
        } else {
            numeric_runs.set(i, 0);
        }
        let v = gpf[i];
        let in_alnum = alphanumeric.contains_key(&v);
        if in_alnum {
            alnum_runs.set(i, alnum_runs[i + 1] + 1);
        } else {
            alnum_runs.set(i, 0);
        }
        if iso646.contains_key(&v) && !in_alnum {
            next_iso.set(i, 0);
        } else {
            let nx = next_iso[i + 1];
            next_iso.set(i, nx.saturating_add(1));
        }
        proof {
            assert(numeric_runs@[i as int] as int == numeric_run(g, i as int));
            assert(alnum_runs@[i as int] as int == alnum_run(g, i as int));
            assert(next_iso@[i as int] as int == next_iso_only(g, i as int));
        }
        k = i;
    }
    let mut r0: Vec<u32> = Vec::new();
    let mut r1: Vec<u32> = Vec::new();
    let mut r2: Vec<u32> = Vec::new();
    let mut q: usize = 0;
    while q < n
        invariant
            q <= n,
            n == g.len(),
            numeric_runs@.len() == n + 2,
            alnum_runs@.len() == n + 1,
            next_iso@.len() == n + 1,
            forall|j: int| 0 <= j <= n + 1 ==> #[trigger] numeric_runs@[j] as int == numeric_run(g, j),
            forall|j: int| 0 <= j <= n ==> #[trigger] alnum_runs@[j] as int == alnum_run(g, j),
            forall|j: int| 0 <= j <= n ==> #[trigger] next_iso@[j] as int == next_iso_only(g, j),
            r0@.len() == q,
            r1@.len() == q,
            r2@.len() == q,
            forall|j: int| 0 <= j < q ==> #[trigger] r0@[j] as int == numeric_run(g, j),
            forall|j: int| 0 <= j < q ==> #[trigger] r1@[j] as int == alnum_run(g, j),
            forall|j: int| 0 <= j < q ==> #[trigger] r2@[j] as int == next_iso_only(g, j),
        decreases n - q,
    {
        r0.push(numeric_runs[q]);
        r1.push(alnum_runs[q]);
        r2.push(next_iso[q]);
        q = q + 1;
    }
    (r0, r1, r2)
}

/// The lookahead tables agree with their definitions on `g`.
pub open spec fn runs_ok(g: Seq<i32>, r0: Seq<u32>, r1: Seq<u32>, r2: Seq<u32>) -> bool {
    &&& r0.len() == g.len()
    &&& r1.len() == g.len()
    &&& r2.len() == g.len()
    &&& forall|i: int| 0 <= i < g.len() ==> #[trigger] r0[i] as int == numeric_run(g, i)
    &&& forall|i: int| 0 <= i < g.len() ==> #[trigger] r1[i] as int == alnum_run(g, i)
    &&& forall|i: int| 0 <= i < g.len() ==> #[trigger] r2[i] as int == next_iso_only(g, i)
}

/// The three code maps as built.
pub open spec fn maps_ok(
    numeric: &NumericMap,
    alphanumeric: &HashMap<i32, (u32, u8)>,
    iso646: &HashMap<i32, (u32, u8)>,
) -> bool {
    &&& numeric.wf()
    &&& alphanumeric@ == map_of(|k: i32| alnum_entry(k))
    &&& iso646@ == map_of(|k: i32| iso_entry(k))
}

/// One encoder step: appends the step's bits and returns the next index
/// and mode.
fn encode_step(
    gpf: &[i32],
    i: usize,
    mode: CcMode,
    numeric: &NumericMap,
    alphanumeric: &HashMap<i32, (u32, u8)>,
    iso646: &HashMap<i32, (u32, u8)>,
    numeric_runs: &Vec<u32>,
    alphanumeric_runs: &Vec<u32>,
    next_iso646_only: &Vec<u32>,
    bits: &mut Vec<bool>,
) -> (r: (usize, CcMode))
    requires
        valid_gpf(gpf@),
        i < gpf@.len() < 0x1000_0000,
        maps_ok(numeric, alphanumeric, iso646),
        runs_ok(gpf@, numeric_runs@, alphanumeric_runs@, next_iso646_only@),
    ensures
        final(bits)@ == old(bits)@ + payload_step(gpf@, i as int, mode).0,
        r.0 as int == payload_step(gpf@, i as int, mode).1,
        r.1 == payload_step(gpf@, i as int, mode).2,
{
    proof {
        reveal(payload_step);
        lemma_runs(gpf@, i as int);
    }
    let n = gpf.len();
    let c = gpf[i];
    let run = numeric_runs[i];
    match mode {
        CcMode::Numeric => {
            if i + 1 < n {
                let pair = [pair_byte(gpf[i]), pair_byte(gpf[i + 1])];
                match numeric.get(&pair) {
                    Some(e) => {
                        push_bits(bits, e.0, e.1);
                        (i + 2, CcMode::Numeric)
                    },
                    None => {
                        push_bits(bits, 0, 4);
                        (i, CcMode::Alphanumeric)
                    },
                }
            } else if c < 48 || c > 57 {
                push_bits(bits, 0, 4);
                (i, CcMode::Alphanumeric)
            } else {
                let pair = [c as u8, 94u8];
                match numeric.get(&pair) {
                    Some(e) => {
                        push_bits(bits, e.0, e.1);
                        (i + 1, CcMode::Numeric)
                    },
                    None => {
                        push_bits(bits, 0, 4);
                        (i, CcMode::Alphanumeric)
                    },
                }
            }
        },
        CcMode::Alphanumeric => {
            if c == FNC1 {
                let e = alphanumeric.get(&FNC1).unwrap();
                push_bits(bits, e.0, e.1);
                (i + 1, CcMode::Numeric)
            } else if iso646.contains_key(&c) && !alphanumeric.contains_key(&c) {
                push_bits(bits, 4, 5);
                (i, CcMode::Iso646)
            } else if run >= 6 || (run >= 4 && i + run as usize == n) {
                push_bits(bits, 0, 3);
                (i, CcMode::Numeric)
            } else {
                match alphanumeric.get(&c) {
                    Some(e) => {
                        push_bits(bits, e.0, e.1);
                        (i + 1, CcMode::Alphanumeric)
                    },
                    None => {
                        push_bits(bits, 4, 5);
                        (i, CcMode::Iso646)
                    },
                }
            }
        },
        CcMode::Iso646 => {
            if c == FNC1 {
                let e = iso646.get(&FNC1).unwrap();
                push_bits(bits, e.0, e.1);
                (i + 1, CcMode::Numeric)
            } else if run >= 4 && next_iso646_only[i] >= 10 {
                push_bits(bits, 0, 3);
                (i, CcMode::Numeric)
            } else if alphanumeric_runs[i] >= 5 && next_iso646_only[i] >= 10 {
                push_bits(bits, 4, 5);
                (i, CcMode::Alphanumeric)
            } else {
                match iso646.get(&c) {
                    Some(e) => {
                        push_bits(bits, e.0, e.1);
                        (i + 1, CcMode::Iso646)
                    },
                    None => (i + 1, CcMode::Iso646),
                }
            }
        },
    }
}

/// One step of the final-mode scan: the next index and mode.
fn scan_step(
    gpf: &[i32],
    i: usize,
    mode: CcMode,
    numeric: &NumericMap,
    alphanumeric: &HashMap<i32, (u32, u8)>,
    iso646: &HashMap<i32, (u32, u8)>,
    numeric_runs: &Vec<u32>,
    alphanumeric_runs: &Vec<u32>,
    next_iso646_only: &Vec<u32>,
) -> (r: (usize, CcMode))
    requires
        valid_gpf(gpf@),
        i < gpf@.len() < 0x1000_0000,
        maps_ok(numeric, alphanumeric, iso646),
        runs_ok(gpf@, numeric_runs@, alphanumeric_runs@, next_iso646_only@),
    ensures
        r.0 as int == mode_step(gpf@, i as int, mode).0,
        r.1 == mode_step(gpf@, i as int, mode).1,
{
    proof {
        reveal(mode_step);
        lemma_runs(gpf@, i as int);
    }
    let n = gpf.len();
    let c = gpf[i];
    let run = numeric_runs[i];
    match mode {
        CcMode::Numeric => {
            if i + 1 < n {
                let pair = [pair_byte(gpf[i]), pair_byte(gpf[i + 1])];
                if numeric.contains_key(&pair) {
                    (i + 2, CcMode::Numeric)
                } else {
                    (i, CcMode::Alphanumeric)
                }
            } else if c < 48 || c > 57 {
                (i, CcMode::Alphanumeric)
            } else {
                (i + 1, CcMode::Numeric)
            }
        },
        CcMode::Alphanumeric => {
            if c == FNC1 {
                (i + 1, CcMode::Numeric)
            } else if iso646.contains_key(&c) && !alphanumeric.contains_key(&c) {
                (i, CcMode::Iso646)
            } else if run >= 6 || (run >= 4 && i + run as usize == n) {
                (i, CcMode::Numeric)
            } else {
                (i + 1, CcMode::Alphanumeric)
            }
        },
        CcMode::Iso646 => {
            if c == FNC1 {
                (i + 1, CcMode::Numeric)
            } else if run >= 4 && next_iso646_only[i] >= 10 {
                (i, CcMode::Numeric)
            } else if alphanumeric_runs[i] >= 5 && next_iso646_only[i] >= 10 {
                (i, CcMode::Alphanumeric)
            } else {
                (i + 1, CcMode::Iso646)
            }
        },
    }
}

/// The general-purpose field compacted into bits: from the start in
/// numeric mode, each step picks the mode per the lookahead rules.
pub fn encode_payload(gpf: &[i32]) -> (bits: Vec<bool>)
    requires
        valid_gpf(gpf@),
        gpf@.len() < 0x1000_0000,
    ensures
        bits@ == payload_from(gpf@, 0, CcMode::Numeric),
{
    let numeric = build_numeric_map();
    let alphanumeric = build_alphanumeric_map();
    let iso646 = build_iso646_map();
    let (numeric_runs, alphanumeric_runs, next_iso646_only) = compute_runs(
        gpf,
        &numeric,
        &alphanumeric,
        &iso646,
    );
    let ghost g = gpf@;
    let mut bits: Vec<bool> = Vec::new();
    let mut mode = CcMode::Numeric;
    let mut i: usize = 0;
    assert(bits@ + payload_from(g, 0, mode) =~= payload_from(g, 0, CcMode::Numeric));
    while i < gpf.len()
        invariant
            g == gpf@,
            valid_gpf(g),
            g.len() < 0x1000_0000,
            i <= g.len(),
            maps_ok(&numeric, &alphanumeric, &iso646),
            runs_ok(g, numeric_runs@, alphanumeric_runs@, next_iso646_only@),
            bits@ + payload_from(g, i as int, mode) == payload_from(g, 0, CcMode::Numeric),
        decreases cc_measure(g, i as int, mode),
    {
        proof {
            lemma_cc_steps(g, i as int, mode);
        }
        let ghost before = bits@;
        let ghost st = payload_step(g, i as int, mode);
        let ghost rest = payload_from(g, i as int, mode);
        assert(rest == st.0 + payload_from(g, st.1, st.2));
        let (ni, nm) = encode_step(
            gpf,
            i,
            mode,
            &numeric,
            &alphanumeric,
            &iso646,
            &numeric_runs,
            &alphanumeric_runs,
            &next_iso646_only,
            &mut bits,
        );
        i = ni;
        mode = nm;
        assert(bits@ + payload_from(g, i as int, mode) =~= before + rest);
    }
    assert(payload_from(g, i as int, mode) =~= Seq::<bool>::empty());
    assert(bits@ =~= bits@ + payload_from(g, i as int, mode));
    bits
}

/// The mode the encoder is in once the whole field is consumed.
pub fn final_mode_for(gpf: &[i32]) -> (m: CcMode)
    requires
        valid_gpf(gpf@),
        gpf@.len() < 0x1000_0000,
    ensures
        m == final_mode_from(gpf@, 0, CcMode::Numeric),
{
    let numeric = build_numeric_map();
    let alphanumeric = build_alphanumeric_map();
    let iso646 = build_iso646_map();
    let (numeric_runs, alphanumeric_runs, next_iso646_only) = compute_runs(
        gpf,
        &numeric,
        &alphanumeric,
        &iso646,
    );
    let ghost g = gpf@;
    let mut mode = CcMode::Numeric;
    let mut i: usize = 0;
    while i < gpf.len()
        invariant
            g == gpf@,
            valid_gpf(g),
            g.len() < 0x1000_0000,
            i <= g.len(),
            maps_ok(&numeric, &alphanumeric, &iso646),
            runs_ok(g, numeric_runs@, alphanumeric_runs@, next_iso646_only@),
            final_mode_from(g, i as int, mode) == final_mode_from(g, 0, CcMode::Numeric),
        decreases cc_measure(g, i as int, mode),
    {
        proof {
            lemma_cc_steps(g, i as int, mode);
        }
        let (ni, nm) = scan_step(
            gpf,
            i,
            mode,
            &numeric,
            &alphanumeric,
            &iso646,
            &numeric_runs,
            &alphanumeric_runs,
            &next_iso646_only,
        );
        i = ni;
        mode = nm;
    }
    mode
}

} // verus!
