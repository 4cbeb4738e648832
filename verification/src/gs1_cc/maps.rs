//! The bit codes of the three compaction modes of the GS1 composite
//! component's general-purpose field: numeric (digit pairs), alphanumeric
//! and ISO 646.

use vstd::prelude::*;
use std::collections::HashMap;

verus! {

broadcast use vstd::std_specs::hash::group_hash_axioms;

/// FNC1 in the general-purpose field.
pub const FNC1: i32 = -1;
/// Latch to numeric mode.
pub const LATCH_NUMERIC: i32 = -2;
/// Latch to alphanumeric mode.
pub const LATCH_ALPHANUMERIC: i32 = -3;
/// Latch to ISO 646 mode.
pub const LATCH_ISO646: i32 = -4;

/// Alpha-mode code of `k`: letters 5 bits, digits 6 bits, FNC1 `11111`.
pub open spec fn alpha_entry(k: i32) -> Option<(u32, u8)> {
    if 65 <= k <= 90 {
        Some(((k - 65) as u32, 5u8))
    } else if 48 <= k <= 57 {
        Some(((k + 4) as u32, 6u8))
    } else if k == FNC1 {
        Some((31u32, 5u8))
    } else {
        None
    }
}

/// Alphanumeric-mode code of `k`.
pub open spec fn alnum_entry(k: i32) -> Option<(u32, u8)> {
    if 48 <= k <= 57 {
        Some(((k - 43) as u32, 5u8))
    } else if k == FNC1 {
        Some((15u32, 5u8))
    } else if 65 <= k <= 90 {
        Some(((k - 33) as u32, 6u8))
    } else if k == 42 {
        Some((58u32, 6u8))
    } else if 44 <= k <= 47 {
        Some(((k + 15) as u32, 6u8))
    } else if k == LATCH_NUMERIC {
        Some((0u32, 3u8))
    } else if k == LATCH_ISO646 {
        Some((4u32, 5u8))
    } else {
        None
    }
}

/// ISO 646-mode code of `k`.
pub open spec fn iso_entry(k: i32) -> Option<(u32, u8)> {
    if 48 <= k <= 57 {
        Some(((k - 43) as u32, 5u8))
    } else if k == FNC1 {
        Some((15u32, 5u8))
    } else if 65 <= k <= 90 {
        Some(((k - 1) as u32, 7u8))
    } else if 97 <= k <= 122 {
        Some(((k - 7) as u32, 7u8))
    } else if k == 33 {
        Some((232u32, 8u8))
    } else if k == 34 {
        Some((233u32, 8u8))
    } else if 37 <= k <= 47 {
        Some(((k + 197) as u32, 8u8))
    } else if 58 <= k <= 63 {
        Some(((k + 187) as u32, 8u8))
    } else if k == 95 {
        Some((251u32, 8u8))
    } else if k == 32 {
        Some((252u32, 8u8))
    } else if k == LATCH_NUMERIC {
        Some((0u32, 3u8))
    } else if k == LATCH_ALPHANUMERIC {
        Some((4u32, 5u8))
    } else {
        None
    }
}

/// The map whose entries `entry` gives.
pub open spec fn map_of(entry: spec_fn(i32) -> Option<(u32, u8)>) -> Map<i32, (u32, u8)> {
    Map::new(|k: i32| entry(k) is Some, |k: i32| entry(k)->0)
}

/// Inserts the entries for keys `lo..=hi`.
fn insert_range(
    m: &mut HashMap<i32, (u32, u8)>,
    lo: i32,
    hi: i32,
    add: i32,
    width: u8,
    Ghost(entry): Ghost<spec_fn(i32) -> Option<(u32, u8)>>,
)
    requires
        0 <= lo <= hi <= 127,
        -100 <= add <= 200,
        lo + add >= 0,
        forall|k: i32| lo <= k <= hi ==> #[trigger] entry(k) == Some(((k + add) as u32, width)),
    ensures
        forall|k: i32|
            #![trigger final(m)@.contains_key(k)]
            (lo <= k <= hi) ==> final(m)@.contains_key(k) && final(m)@[k] == entry(k)->0,
        forall|k: i32|
            #![trigger final(m)@.contains_key(k)]
            !(lo <= k <= hi) ==> (final(m)@.contains_key(k) == old(m)@.contains_key(k) && (old(
                m,
            )@.contains_key(k) ==> final(m)@[k] == old(m)@[k])),
{
    let mut c = lo;
    while c <= hi
        invariant
            lo <= c <= hi + 1,
            0 <= lo,
            hi <= 127,
            -100 <= add <= 200,
            lo + add >= 0,
            forall|k: i32| lo <= k <= hi ==> #[trigger] entry(k) == Some(((k + add) as u32, width)),
            forall|k: i32|
                #![trigger m@.contains_key(k)]
                (lo <= k < c) ==> m@.contains_key(k) && m@[k] == entry(k)->0,
            forall|k: i32|
                #![trigger m@.contains_key(k)]
                !(lo <= k < c) ==> (m@.contains_key(k) == old(m)@.contains_key(k) && (old(
                    m,
                )@.contains_key(k) ==> m@[k] == old(m)@[k])),
        decreases hi + 1 - c,
    {
        assert(entry(c) == Some(((c + add) as u32, width)));
        m.insert(c, ((c + add) as u32, width));
        c = c + 1;
    }
}

/// The alpha-mode codes.
pub fn build_alpha_map() -> (m: HashMap<i32, (u32, u8)>)
    ensures
        m@ == map_of(|k: i32| alpha_entry(k)),
{
    let ghost e = |k: i32| alpha_entry(k);
    let mut m: HashMap<i32, (u32, u8)> = HashMap::new();
    insert_range(&mut m, 65, 90, -65, 5, Ghost(e));
    insert_range(&mut m, 48, 57, 4, 6, Ghost(e));
    m.insert(FNC1, (31, 5));
    assert(m@ =~= map_of(e));
    m
}

/// The alphanumeric-mode codes.
pub fn build_alphanumeric_map() -> (m: HashMap<i32, (u32, u8)>)
    ensures
        m@ == map_of(|k: i32| alnum_entry(k)),
{
    let ghost e = |k: i32| alnum_entry(k);
    let mut m: HashMap<i32, (u32, u8)> = HashMap::new();
    insert_range(&mut m, 48, 57, -43, 5, Ghost(e));
    m.insert(FNC1, (15, 5));
    insert_range(&mut m, 65, 90, -33, 6, Ghost(e));
    m.insert(42, (58, 6));
    insert_range(&mut m, 44, 47, 15, 6, Ghost(e));
    m.insert(LATCH_NUMERIC, (0, 3));
    m.insert(LATCH_ISO646, (4, 5));
    assert(m@ =~= map_of(e));
    m
}

/// The ISO 646-mode codes.
pub fn build_iso646_map() -> (m: HashMap<i32, (u32, u8)>)
    ensures
        m@ == map_of(|k: i32| iso_entry(k)),
{
    let ghost e = |k: i32| iso_entry(k);
    let mut m: HashMap<i32, (u32, u8)> = HashMap::new();
    insert_range(&mut m, 48, 57, -43, 5, Ghost(e));
    m.insert(FNC1, (15, 5));
    insert_range(&mut m, 65, 90, -1, 7, Ghost(e));
    insert_range(&mut m, 97, 122, -7, 7, Ghost(e));
    m.insert(33, (232, 8));
    m.insert(34, (233, 8));
    insert_range(&mut m, 37, 47, 197, 8, Ghost(e));
    insert_range(&mut m, 58, 63, 187, 8, Ghost(e));
    m.insert(95, (251, 8));
    m.insert(32, (252, 8));
    m.insert(LATCH_NUMERIC, (0, 3));
    m.insert(LATCH_ALPHANUMERIC, (4, 5));
    assert(m@ =~= map_of(e));
    m
}

/// Base-11 digit of a numeric-mode key character (`'^'` stands for FNC1).
pub open spec fn key_digit(c: u8) -> int {
    if 48 <= c <= 57 {
        c - 48
    } else if c == 94 {
        10
    } else {
        11
    }
}

/// Numeric-mode code of a character pair: `p + 8` in 7 bits, where `p`
/// reads the pair in base 11; the pair `^^` has none.
pub open spec fn numeric_entry(c0: u8, c1: u8) -> Option<(u32, u8)> {
    let hi = key_digit(c0);
    let lo = key_digit(c1);
    if hi <= 10 && lo <= 10 && hi * 11 + lo <= 119 {
        Some(((hi * 11 + lo + 8) as u32, 7u8))
    } else {
        None
    }
}

/// The numeric-mode codes, indexed by character pair.
#[derive(Debug, Clone)]
pub struct NumericMap {
    entries: Vec<(u32, u8)>,
}

impl NumericMap {
    /// The stored codes are those of [`numeric_entry`].
    pub closed spec fn wf(&self) -> bool {
        &&& self.entries@.len() == 120
        &&& forall|p: int| 0 <= p < 120 ==> #[trigger] self.entries@[p] == ((p + 8) as u32, 7u8)
    }

    /// The code of a character pair.
    pub fn get(&self, key: &[u8; 2]) -> (r: Option<&(u32, u8)>)
        requires
            self.wf(),
        ensures
            match numeric_entry(key[0], key[1]) {
                Some(v) => r == Some(&v),
                None => r is None,
            },
    {
        let hi = key_index(key[0]);
        let lo = key_index(key[1]);
        if hi <= 10 && lo <= 10 && hi * 11 + lo <= 119 {
            Some(&self.entries[hi * 11 + lo])
        } else {
            None
        }
    }

    /// `true` when the pair has a code.
    pub fn contains_key(&self, key: &[u8; 2]) -> (r: bool)
        requires
            self.wf(),
        ensures
            r == numeric_entry(key[0], key[1]) is Some,
    {
        self.get(key).is_some()
    }

    /// Number of pairs with a code.
    pub fn len(&self) -> (n: usize)
        requires
            self.wf(),
        ensures
            n == 120,
    {
        self.entries.len()
    }
}

fn key_index(c: u8) -> (d: usize)
    ensures
        d as int == key_digit(c),
{
    if 48 <= c && c <= 57 {
        (c - 48) as usize
    } else if c == 94 {
        10
    } else {
        11
    }
}

/// The numeric-mode codes.
pub fn build_numeric_map() -> (m: NumericMap)
    ensures
        m.wf(),
{
    let mut entries: Vec<(u32, u8)> = Vec::new();
    let mut p: u32 = 0;
    while p <= 119
        invariant
            p <= 120,
            entries@.len() == p,
            forall|q: int| 0 <= q < p ==> #[trigger] entries@[q] == ((q + 8) as u32, 7u8),
        decreases 120 - p,
    {
        entries.push((p + 8, 7));
        p = p + 1;
    }
    NumericMap { entries }
}

} // verus!
