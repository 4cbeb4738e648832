//! Symbol sizes of a composite component: the default column count per
//! linear symbology, the CC-A / CC-B bit capacities, and the CC-C
//! (PDF417) shape.

use vstd::prelude::*;

use crate::text::str_eq;

verus! {

/// CC-A bit capacities with 2 columns, largest row count first.
pub const BITCAPS_A_2: [u32; 7] = [167, 138, 118, 108, 88, 78, 59];

/// CC-A bit capacities with 3 columns.
pub const BITCAPS_A_3: [u32; 5] = [167, 138, 118, 98, 78];

/// CC-A bit capacities with 4 columns.
pub const BITCAPS_A_4: [u32; 5] = [197, 167, 138, 108, 78];

/// CC-B bit capacities with 2 columns, largest row count first.
pub const BITCAPS_B_2: [u32; 7] = [336, 296, 256, 208, 160, 104, 56];

/// CC-B bit capacities with 3 columns.
pub const BITCAPS_B_3: [u32; 10] = [768, 648, 536, 416, 304, 208, 152, 112, 72, 32];

/// CC-B bit capacities with 4 columns.
pub const BITCAPS_B_4: [u32; 11] = [1184, 1016, 840, 672, 496, 352, 264, 208, 152, 96, 56];

/// The CC-A capacities for column index `col` (0 for 2 columns).
pub open spec fn caps_a(col: int) -> Seq<u32> {
    if col == 0 {
        BITCAPS_A_2@
    } else if col == 1 {
        BITCAPS_A_3@
    } else {
        BITCAPS_A_4@
    }
}

/// The CC-B capacities for column index `col` (0 for 2 columns).
pub open spec fn caps_b(col: int) -> Seq<u32> {
    if col == 0 {
        BITCAPS_B_2@
    } else if col == 1 {
        BITCAPS_B_3@
    } else {
        BITCAPS_B_4@
    }
}

/// The CC-A capacity table, one row per column count (2, 3, 4).
pub fn bitcaps_a() -> (t: [&'static [u32]; 3])
    ensures
        t[0]@ == caps_a(0),
        t[1]@ == caps_a(1),
        t[2]@ == caps_a(2),
{
    [&BITCAPS_A_2, &BITCAPS_A_3, &BITCAPS_A_4]
}

/// The CC-B capacity table, one row per column count (2, 3, 4).
pub fn bitcaps_b() -> (t: [&'static [u32]; 3])
    ensures
        t[0]@ == caps_b(0),
        t[1]@ == caps_b(1),
        t[2]@ == caps_b(2),
{
    [&BITCAPS_B_2, &BITCAPS_B_3, &BITCAPS_B_4]
}

/// The default CC-A / CC-B column count for a linear symbology.
pub open spec fn default_columns(lintype: Seq<char>) -> Option<u8> {
    if lintype == "ean13"@ || lintype == "upca"@ || lintype == "gs1-128"@ || lintype
        == "databaromni"@ || lintype == "databartruncated"@ || lintype == "databarexpanded"@
        || lintype == "databarexpandedstacked"@ {
        Some(4u8)
    } else if lintype == "ean8"@ || lintype == "databarlimited"@ {
        Some(3u8)
    } else if lintype == "upce"@ || lintype == "databarstacked"@ || lintype
        == "databarstackedomni"@ {
        Some(2u8)
    } else {
        None
    }
}

/// The default CC-A / CC-B column count for a linear symbology, `None`
/// for one that takes no composite of these kinds.
pub fn default_cc_columns(lintype: &str) -> (r: Option<u8>)
    ensures
        r == default_columns(lintype@),
{
    if str_eq(lintype, "ean13") || str_eq(lintype, "upca") || str_eq(lintype, "gs1-128")
        || str_eq(lintype, "databaromni") || str_eq(lintype, "databartruncated") || str_eq(
        lintype,
        "databarexpanded",
    ) || str_eq(lintype, "databarexpandedstacked") {
        Some(4)
    } else if str_eq(lintype, "ean8") || str_eq(lintype, "databarlimited") {
        Some(3)
    } else if str_eq(lintype, "upce") || str_eq(lintype, "databarstacked") || str_eq(
        lintype,
        "databarstackedomni",
    ) {
        Some(2)
    } else {
        None
    }
}

/// The composite component version.
#[derive(Debug, Clone, Copy, PartialEq, Eq, Structural)]
pub enum CcVersion {
    A,
    B,
    C,
}

impl CcVersion {
    /// The version's name: `"a"`, `"b"` or `"c"`.
    pub fn as_str(self) -> (s: &'static str)
        ensures
            s@ == (match self {
                CcVersion::A => "a"@,
                CcVersion::B => "b"@,
                CcVersion::C => "c"@,
            }),
    {
        match self {
            CcVersion::A => "a",
            CcVersion::B => "b",
            CcVersion::C => "c",
        }
    }
}

/// The last index below `n` whose capacity holds `bits`.
pub open spec fn last_fit(caps: Seq<u32>, bits: int, n: int) -> Option<int>
    decreases n,
{
    if n <= 0 {
        None
    } else if caps[n - 1] >= bits {
        Some(n - 1)
    } else {
        last_fit(caps, bits, n - 1)
    }
}

proof fn lemma_last_fit(caps: Seq<u32>, bits: int, n: int)
    requires
        n <= caps.len(),
    ensures
        last_fit(caps, bits, n) matches Some(i) ==> 0 <= i < n && caps[i] >= bits,
    decreases n,
{
    if n > 0 {
        lemma_last_fit(caps, bits, n - 1);
    }
}

/// The smallest CC-A size, else the smallest CC-B size, whose capacity
/// holds `bits` with `cols` columns (2 to 4): version, row index and
/// capacity.  The tables run from the largest size down, so the smallest
/// that fits is the last that fits.
pub open spec fn cca_ccb_size(bits: int, cols: int) -> Option<(CcVersion, int, u32)> {
    if cols < 2 || cols > 4 {
        None
    } else {
        let ca = caps_a(cols - 2);
        let cb = caps_b(cols - 2);
        match last_fit(ca, bits, ca.len() as int) {
            Some(i) => Some((CcVersion::A, i, ca[i])),
            None => match last_fit(cb, bits, cb.len() as int) {
                Some(i) => Some((CcVersion::B, i, cb[i])),
                None => None,
            },
        }
    }
}

fn last_fit_exec(caps: &[u32], bits: usize) -> (r: Option<(usize, u32)>)
    ensures
        match (r, last_fit(caps@, bits as int, caps@.len() as int)) {
            (Some((i, c)), Some(j)) => i == j && c == caps@[j],
            (None, None) => true,
            _ => false,
        },
{
    let mut best: Option<(usize, u32)> = None;
    let mut idx: usize = 0;
    while idx < caps.len()
        invariant
            idx <= caps@.len(),
            match (best, last_fit(caps@, bits as int, idx as int)) {
                (Some((i, c)), Some(j)) => i == j && c == caps@[j],
                (None, None) => true,
                _ => false,
            },
        decreases caps@.len() - idx,
    {
        let cap = caps[idx];
        if cap as usize >= bits {
            best = Some((idx, cap));
        }
        idx = idx + 1;
    }
    best
}

/// The smallest CC-A, else CC-B, size that holds `payload_bits` with
/// `cccolumns` columns (2 to 4): version, row index and capacity; `None`
/// when none does.
pub fn select_cca_ccb_size(payload_bits: usize, cccolumns: u8) -> (r: Option<(CcVersion, usize, u32)>)
    ensures
        match (r, cca_ccb_size(payload_bits as int, cccolumns as int)) {
            (Some((v, i, c)), Some((w, j, d))) => v == w && i == j && c == d,
            (None, None) => true,
            _ => false,
        },
{
    if cccolumns < 2 || cccolumns > 4 {
        return None;
    }
    let col_idx = (cccolumns - 2) as usize;
    let ta = bitcaps_a();
    let tb = bitcaps_b();
    let caps_a_row = ta[col_idx];
    match last_fit_exec(caps_a_row, payload_bits) {
        Some((idx, cap)) => Some((CcVersion::A, idx, cap)),
        None => {
            let caps_b_row = tb[col_idx];
            match last_fit_exec(caps_b_row, payload_bits) {
                Some((idx, cap)) => Some((CcVersion::B, idx, cap)),
                None => None,
            }
        },
    }
}

/// Capacities listed from the largest down.
pub open spec fn descending(caps: Seq<u32>) -> bool {
    forall|a: int, b: int| 0 <= a < b < caps.len() ==> caps[a] > caps[b]
}

proof fn lemma_last_fit_smallest(caps: Seq<u32>, bits: int, n: int)
    requires
        descending(caps),
        0 <= n <= caps.len(),
    ensures
        last_fit(caps, bits, n) matches Some(i) ==> forall|k: int|
            0 <= k < n && caps[k] >= bits ==> #[trigger] caps[k] >= caps[i],
        last_fit(caps, bits, n) is None ==> forall|k: int| 0 <= k < n ==> #[trigger] caps[k] < bits,
    decreases n,
{
    if n > 0 {
        lemma_last_fit_smallest(caps, bits, n - 1);
        lemma_last_fit(caps, bits, n - 1);
    }
}

/// The size chosen is the smallest that holds the bits: for columns other
/// than 2 to 4 there is none; otherwise, when some CC-A capacity for these
/// columns holds the bits, the choice is CC-A, at the row whose capacity it
/// reports, that capacity holds the bits and no CC-A capacity that holds
/// them is smaller; CC-B is chosen only when no CC-A size holds them, and
/// then the smallest CC-B size that does; there is none only when no CC-A
/// or CC-B capacity holds them.
pub proof fn law_smallest_fitting_size(bits: int, cols: int)
    ensures
        (cols < 2 || cols > 4) ==> cca_ccb_size(bits, cols) is None,
        2 <= cols <= 4 ==> {
            let ca = caps_a(cols - 2);
            let cb = caps_b(cols - 2);
            &&& (exists|k: int| 0 <= k < ca.len() && #[trigger] ca[k] >= bits) ==> (cca_ccb_size(
                bits,
                cols,
            ) matches Some((v, _, _)) && v == CcVersion::A)
            &&& (cca_ccb_size(bits, cols) matches Some((v, i, cap)) ==> cap >= bits && (v
                == CcVersion::A ==> 0 <= i < ca.len() && cap == ca[i] && forall|k: int|
                0 <= k < ca.len() && ca[k] >= bits ==> #[trigger] ca[k] >= cap) && (v == CcVersion::B
                ==> 0 <= i < cb.len() && cap == cb[i] && (forall|k: int|
                0 <= k < ca.len() ==> #[trigger] ca[k] < bits) && forall|k: int|
                0 <= k < cb.len() && cb[k] >= bits ==> #[trigger] cb[k] >= cap))
            &&& cca_ccb_size(bits, cols) is None ==> (forall|k: int|
                0 <= k < ca.len() ==> #[trigger] ca[k] < bits) && forall|k: int|
                0 <= k < cb.len() ==> #[trigger] cb[k] < bits
        },
{
    if 2 <= cols <= 4 {
        let ca = caps_a(cols - 2);
        let cb = caps_b(cols - 2);
        assert(descending(ca));
        assert(descending(cb));
        lemma_last_fit_smallest(ca, bits, ca.len() as int);
        lemma_last_fit_smallest(cb, bits, cb.len() as int);
        lemma_last_fit(ca, bits, ca.len() as int);
        lemma_last_fit(cb, bits, cb.len() as int);
    }
}

/// The CC-C (PDF417) shape: data columns, error-correction level and the
/// number of payload bytes the data region takes.
#[derive(Debug, Clone, Copy)]
pub struct CcCSize {
    pub columns: u8,
    pub eclevel: u8,
    pub byte_count: u32,
}

/// `a / b` rounded up.
pub open spec fn ceil_div(a: int, b: int) -> int {
    (a + b - 1) / b
}

/// Error-correction codewords for `m` data codewords.
pub open spec fn ccc_eccws(m: int) -> int {
    if m <= 40 {
        8
    } else if m <= 160 {
        16
    } else if m <= 320 {
        32
    } else if m <= 833 {
        64
    } else {
        32
    }
}

/// The error-correction level of `eccws` codewords (their base-2
/// logarithm less one).
pub open spec fn ccc_eclevel(eccws: int) -> int {
    if eccws == 8 {
        2
    } else if eccws == 16 {
        3
    } else if eccws == 32 {
        4
    } else {
        5
    }
}

/// The column count from `c` up, widened until `m` codewords take at most
/// 30 rows or 30 columns are reached.
pub open spec fn ccc_widen(m: int, c: int) -> int
    decreases 30 - c,
{
    if c < 30 && ceil_div(m, c) > 30 {
        ccc_widen(m, c + 1)
    } else {
        c
    }
}

/// The column count the linear's width gives: `(linwidth - 52) / 17`,
/// at least 1 and at most 30.
pub open spec fn ccc_start_columns(linwidth: int) -> int {
    let raw = if linwidth >= 69 {
        (linwidth - 52) / 17
    } else {
        1
    };
    if raw > 30 {
        30
    } else {
        raw
    }
}

/// The CC-C shape for `bits` payload bits beside a linear `linwidth`
/// modules wide: (columns, eclevel, byte count).
pub open spec fn ccc_size(bits: int, linwidth: int) -> (int, int, int) {
    let m_bytes = ceil_div(bits, 8);
    let m_pre = (m_bytes / 6) * 5 + m_bytes % 6;
    let eccws = ccc_eccws(m_pre);
    let m_total = m_pre + eccws + 3;
    let c = ccc_widen(m_total, ccc_start_columns(linwidth));
    let r0 = ceil_div(m_total, c);
    let r = if r0 < 3 {
        3
    } else {
        r0
    };
    let ds0 = c * r - eccws - 3;
    let ds = if ds0 < 0 {
        0
    } else {
        ds0
    };
    (c, ccc_eclevel(eccws), (ds / 5) * 6 + ds % 5)
}

proof fn lemma_widen(m: int, c: int)
    requires
        1 <= c <= 30,
        m >= 0,
    ensures
        c <= ccc_widen(m, c) <= 30,
        ccc_widen(m, c) < 30 ==> ceil_div(m, ccc_widen(m, c)) <= 30,
    decreases 30 - c,
{
    if c < 30 && ceil_div(m, c) > 30 {
        lemma_widen(m, c + 1);
    }
}

proof fn lemma_rows_bound(m: int, c: int)
    requires
        1 <= c <= 30,
        m >= 0,
    ensures
        c * ceil_div(m, c) <= m + c - 1,
        ceil_div(m, c) >= 0,
        c * 3 <= 90,
{
    let q = ceil_div(m, c);
    assert(c * q <= m + c - 1) by (nonlinear_arith)
        requires
            q == (m + c - 1) / c,
            1 <= c,
            m >= 0,
    ;
    assert(q >= 0) by (nonlinear_arith)
        requires
            q == (m + c - 1) / c,
            1 <= c,
            m >= 0,
    ;
}

fn ceil_div_u64(a: u64, b: u64) -> (r: u64)
    requires
        b >= 1,
        a < 0x1_0000_0000,
    ensures
        r == ceil_div(a as int, b as int),
{
    let r = a / b + if a % b != 0 {
        1
    } else {
        0
    };
    assert(r == ceil_div(a as int, b as int)) by (nonlinear_arith)
        requires
            b >= 1,
            a >= 0,
            r == a / b + if a % b != 0 {
                1int
            } else {
                0int
            },
    ;
    r
}

/// The CC-C shape for `payload_bits` payload bits beside a linear
/// `linwidth` modules wide: PDF417 data columns from the linear's width
/// (widened until the rows fit in 30), the error-correction level for the
/// codeword count, and the payload bytes the data region holds.
pub fn select_ccc_size(payload_bits: usize, linwidth: u32) -> (s: CcCSize)
    requires
        payload_bits <= u32::MAX,
    ensures
        s.columns as int == ccc_size(payload_bits as int, linwidth as int).0,
        s.eclevel as int == ccc_size(payload_bits as int, linwidth as int).1,
        s.byte_count as int == ccc_size(payload_bits as int, linwidth as int).2,
        s.byte_count <= payload_bits / 4 + 400,
{
    let bits = payload_bits as u64;
    let m_bytes: u64 = bits / 8 + if bits % 8 != 0 {
        1
    } else {
        0
    };
    assert(m_bytes == ceil_div(bits as int, 8));
    let m_pre: u64 = (m_bytes / 6) * 5 + m_bytes % 6;
    let eccws: u64 = if m_pre <= 40 {
        8
    } else if m_pre <= 160 {
        16
    } else if m_pre <= 320 {
        32
    } else if m_pre <= 833 {
        64
    } else {
        32
    };
    let m_total: u64 = m_pre + eccws + 3;
    let raw: u64 = if linwidth >= 69 {
        ((linwidth - 52) / 17) as u64
    } else {
        1
    };
    let mut cccolumns: u64 = if raw > 30 {
        30
    } else {
        raw
    };
    assert(cccolumns == ccc_start_columns(linwidth as int));
    let ghost c0 = cccolumns as int;
    proof {
        lemma_widen(m_total as int, c0);
    }
    while cccolumns < 30 && ceil_div_u64(m_total, cccolumns) > 30
        invariant
            1 <= c0 <= cccolumns <= 30,
            m_total < 0x1_0000_0000,
            ccc_widen(m_total as int, cccolumns as int) == ccc_widen(m_total as int, c0),
        decreases 30 - cccolumns,
    {
        cccolumns = cccolumns + 1;
    }
    proof {
        lemma_rows_bound(m_total as int, cccolumns as int);
    }
    let r0: u64 = ceil_div_u64(m_total, cccolumns);
    let r: u64 = if r0 < 3 {
        3
    } else {
        r0
    };
    assert(cccolumns * r <= m_total + 30 + 90) by (nonlinear_arith)
        requires
            cccolumns * r0 <= m_total + cccolumns - 1,
            1 <= cccolumns <= 30,
            r == if r0 < 3 {
                3
            } else {
                r0
            },
    ;
    let prod: u64 = cccolumns * r;
    let ds: u64 = if prod > eccws + 3 {
        prod - eccws - 3
    } else {
        0
    };
    let byte_count: u64 = (ds / 5) * 6 + ds % 5;
    assert(byte_count <= 2 * ds) by (nonlinear_arith)
        requires
            byte_count == (ds / 5) * 6 + ds % 5,
    ;
    assert(m_bytes <= bits / 8 + 1);
    assert(m_pre <= m_bytes) by (nonlinear_arith)
        requires
            m_pre == (m_bytes / 6) * 5 + m_bytes % 6,
    ;
    let eclevel: u8 = if eccws == 8 {
        2
    } else if eccws == 16 {
        3
    } else if eccws == 32 {
        4
    } else {
        5
    };
    CcCSize { columns: cccolumns as u8, eclevel, byte_count: byte_count as u32 }
}

} // verus!
