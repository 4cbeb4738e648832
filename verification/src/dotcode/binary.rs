//! DotCode's binary mode: up to five bytes at a time are read as a
//! base-259 number and written out as base-103 codewords.

use vstd::prelude::*;

use vstd::arithmetic::div_mod::lemma_fundamental_div_mod;

verus! {

/// Byte `k` of `bytes` left-padded with zeros to five bytes.
pub open spec fn padded5(bytes: Seq<u8>, k: int) -> int {
    let off = 5 - bytes.len();
    if k < off {
        0
    } else {
        bytes[k - off] as int
    }
}

/// The six base-103 codewords of the five bytes `p0..p4`: the high two
/// bytes and the low three bytes are each written in base 103 and
/// recombined through the residues of powers of 259 modulo 103 (`42`,
/// `68`, `92`, `15`), carrying from the low digit up.
pub open spec fn group_digits(p0: int, p1: int, p2: int, p3: int, p4: int) -> Seq<int> {
    let msb = p0 * 259 + p1;
    let m0 = msb % 103;
    let m1 = (msb / 103) % 103;
    let m2 = (msb / 103) / 103;
    let lsb = p2 * 67081 + p3 * 259 + p4;
    let l0 = lsb % 103;
    let l1 = (lsb / 103) % 103;
    let l2 = ((lsb / 103) / 103) % 103;
    let l3 = ((lsb / 103) / 103) / 103;
    let s5 = l0 + m0 * 42;
    let s4 = s5 / 103 + l1 + m0 * 68 + m1 * 42;
    let s3 = s4 / 103 + l2 + m0 * 92 + m1 * 68 + m2 * 42;
    let s2 = s3 / 103 + l3 + m0 * 15 + m1 * 92 + m2 * 68;
    let s1 = s2 / 103 + m1 * 15 + m2 * 92;
    let s0 = s1 / 103 + m2 * 15;
    seq![s0 % 103, s1 % 103, s2 % 103, s3 % 103, s4 % 103, s5 % 103]
}

/// The value of six base-103 digits, most significant first.
pub open spec fn value103(d: Seq<int>) -> int {
    ((((d[0] * 103 + d[1]) * 103 + d[2]) * 103 + d[3]) * 103 + d[4]) * 103 + d[5]
}

/// The value of five bytes read in base 259, most significant first.
pub open spec fn value259(p0: int, p1: int, p2: int, p3: int, p4: int) -> int {
    (((p0 * 259 + p1) * 259 + p2) * 259 + p3) * 259 + p4
}

/// The six codewords of a group read back in base 103 give the number its
/// five bytes spell in base 259, and each is a base-103 digit.
pub proof fn law_binary_group_value(p0: int, p1: int, p2: int, p3: int, p4: int)
    requires
        0 <= p0 < 256,
        0 <= p1 < 256,
        0 <= p2 < 256,
        0 <= p3 < 256,
        0 <= p4 < 256,
    ensures
        value103(group_digits(p0, p1, p2, p3, p4)) == value259(p0, p1, p2, p3, p4),
        forall|k: int| 0 <= k < 6 ==> 0 <= #[trigger] group_digits(p0, p1, p2, p3, p4)[k] < 103,
{
    let msb = p0 * 259 + p1;
    let m0 = msb % 103;
    let m1 = (msb / 103) % 103;
    let m2 = (msb / 103) / 103;
    lemma_fundamental_div_mod(msb, 103);
    lemma_fundamental_div_mod(msb / 103, 103);
    let lsb = p2 * 67081 + p3 * 259 + p4;
    let l0 = lsb % 103;
    let l1 = (lsb / 103) % 103;
    let l2 = ((lsb / 103) / 103) % 103;
    let l3 = ((lsb / 103) / 103) / 103;
    lemma_fundamental_div_mod(lsb, 103);
    lemma_fundamental_div_mod(lsb / 103, 103);
    lemma_fundamental_div_mod((lsb / 103) / 103, 103);
    let s5 = l0 + m0 * 42;
    let s4 = s5 / 103 + l1 + m0 * 68 + m1 * 42;
    let s3 = s4 / 103 + l2 + m0 * 92 + m1 * 68 + m2 * 42;
    let s2 = s3 / 103 + l3 + m0 * 15 + m1 * 92 + m2 * 68;
    let s1 = s2 / 103 + m1 * 15 + m2 * 92;
    let s0 = s1 / 103 + m2 * 15;
    lemma_fundamental_div_mod(s5, 103);
    lemma_fundamental_div_mod(s4, 103);
    lemma_fundamental_div_mod(s3, 103);
    lemma_fundamental_div_mod(s2, 103);
    lemma_fundamental_div_mod(s1, 103);
    lemma_fundamental_div_mod(s0, 103);
    let d = group_digits(p0, p1, p2, p3, p4);
    assert(d == seq![s0 % 103, s1 % 103, s2 % 103, s3 % 103, s4 % 103, s5 % 103]);
    let v = value259(p0, p1, p2, p3, p4);
    assert(v == msb * 17373979 + lsb);
    assert(value103(d) == v - (s0 / 103) * 1194052296529);
    assert(v < 1194052296529);
    assert(s0 / 103 == 0);
}

/// The six base-103 codewords of a group left-padded to five bytes.
pub open spec fn base103_digits(bytes: Seq<u8>) -> Seq<int> {
    group_digits(
        padded5(bytes, 0),
        padded5(bytes, 1),
        padded5(bytes, 2),
        padded5(bytes, 3),
        padded5(bytes, 4),
    )
}

/// The `bytes.len() + 1` codewords of a one- to five-byte group.
pub open spec fn base259_spec(bytes: Seq<u8>) -> Seq<u16> {
    let d = base103_digits(bytes);
    Seq::new(bytes.len() + 1, |k: int| d[5 - bytes.len() + k] as u16)
}

/// The value of digits `ds` in base `b`, most significant first.
pub open spec fn base_value(ds: Seq<int>, b: int) -> int
    decreases ds.len(),
{
    if ds.len() == 0 {
        0
    } else {
        base_value(ds.drop_last(), b) * b + ds.last()
    }
}

/// A group of one to five bytes becomes one codeword more than it has
/// bytes; each codeword is a base-103 digit, and the codewords read in base
/// 103 give the number the bytes spell in base 259.
#[verifier::rlimit(40)]
pub proof fn law_binary_short_group_value(bytes: Seq<u8>)
    requires
        1 <= bytes.len() <= 5,
    ensures
        base259_spec(bytes).len() == bytes.len() + 1,
        forall|k: int| 0 <= k < bytes.len() + 1 ==> #[trigger] base259_spec(bytes)[k] < 103,
        base_value(base259_spec(bytes).map_values(|c: u16| c as int), 103) == base_value(
            bytes.map_values(|b: u8| b as int),
            259,
        ),
{
    let len = bytes.len() as int;
    let p0 = padded5(bytes, 0);
    let p1 = padded5(bytes, 1);
    let p2 = padded5(bytes, 2);
    let p3 = padded5(bytes, 3);
    let p4 = padded5(bytes, 4);
    law_binary_group_value(p0, p1, p2, p3, p4);
    let d = base103_digits(bytes);
    let r = base259_spec(bytes).map_values(|c: u16| c as int);
    let bv = bytes.map_values(|b: u8| b as int);
    assert(forall|k: int| 0 <= k < 6 ==> 0 <= #[trigger] d[k] < 103);
    assert forall|k: int| 0 <= k < len + 1 implies #[trigger] r[k] == d[5 - len + k] by {
        assert(0 <= d[5 - len + k] < 103);
    }
    reveal_with_fuel(base_value, 7);
    let v = value259(p0, p1, p2, p3, p4);
    assert(value103(d) == v);
    if len == 1 {
        assert(p0 == 0 && p1 == 0 && p2 == 0 && p3 == 0 && p4 == bv[0]);
        assert(r.drop_last().drop_last() =~= Seq::<int>::empty());
        assert(bv.drop_last() =~= Seq::<int>::empty());
    } else if len == 2 {
        assert(p0 == 0 && p1 == 0 && p2 == 0 && p3 == bv[0] && p4 == bv[1]);
        assert(r.drop_last().drop_last().drop_last() =~= Seq::<int>::empty());
        assert(bv.drop_last().drop_last() =~= Seq::<int>::empty());
    } else if len == 3 {
        assert(p0 == 0 && p1 == 0 && p2 == bv[0] && p3 == bv[1] && p4 == bv[2]);
        assert(r.drop_last().drop_last().drop_last().drop_last() =~= Seq::<int>::empty());
        assert(bv.drop_last().drop_last().drop_last() =~= Seq::<int>::empty());
    } else if len == 4 {
        assert(p0 == 0 && p1 == bv[0] && p2 == bv[1] && p3 == bv[2] && p4 == bv[3]);
        assert(r.drop_last().drop_last().drop_last().drop_last().drop_last() =~= Seq::<int>::empty());
        assert(bv.drop_last().drop_last().drop_last().drop_last() =~= Seq::<int>::empty());
    } else {
        assert(p0 == bv[0] && p1 == bv[1] && p2 == bv[2] && p3 == bv[3] && p4 == bv[4]);
        assert(r.drop_last().drop_last().drop_last().drop_last().drop_last().drop_last()
            =~= Seq::<int>::empty());
        assert(bv.drop_last().drop_last().drop_last().drop_last().drop_last() =~= Seq::<int>::empty());
    }
}

/// Codewords that flush a pending group (none for an empty one).
pub open spec fn flush_spec(buf: Seq<u8>) -> Seq<u16> {
    if buf.len() == 0 {
        Seq::empty()
    } else {
        base259_spec(buf)
    }
}

#[verifier::rlimit(40)]
fn group_codewords(p0: u32, p1: u32, p2: u32, p3: u32, p4: u32) -> (out: [u32; 6])
    requires
        p0 <= 255,
        p1 <= 255,
        p2 <= 255,
        p3 <= 255,
        p4 <= 255,
    ensures
        forall|k: int|
            0 <= k < 6 ==> #[trigger] out@[k] == group_digits(
                p0 as int,
                p1 as int,
                p2 as int,
                p3 as int,
                p4 as int,
            )[k],
        forall|k: int| 0 <= k < 6 ==> #[trigger] out@[k] < 103,
{
    let value_msb = p0 * 259 + p1;
    let q = value_msb / 103;
    assert(q <= 643) by (nonlinear_arith)
        requires
            value_msb <= 66300,
            q == value_msb / 103,
    ;
    let m0 = value_msb % 103;
    let m1 = q % 103;
    let m2 = q / 103;
    let value_lsb = p2 * 67081 + p3 * 259 + p4;
    let q1 = value_lsb / 103;
    let q2 = q1 / 103;
    assert(q2 <= 1618) by (nonlinear_arith)
        requires
            value_lsb <= 17173245,
            q1 == value_lsb / 103,
            q2 == q1 / 103,
    ;
    let l0 = value_lsb % 103;
    let l1 = q1 % 103;
    let l2 = q2 % 103;
    let l3 = q2 / 103;
    let s5 = l0 + m0 * 42;
    let s4 = (s5 / 103) + l1 + m0 * 68 + m1 * 42;
    let s3 = (s4 / 103) + l2 + m0 * 92 + m1 * 68 + m2 * 42;
    let s2 = (s3 / 103) + l3 + m0 * 15 + m1 * 92 + m2 * 68;
    let s1 = (s2 / 103) + m1 * 15 + m2 * 92;
    let s0 = (s1 / 103) + m2 * 15;
    [s0 % 103, s1 % 103, s2 % 103, s3 % 103, s4 % 103, s5 % 103]
}

/// Packs one to five bytes into `bytes.len() + 1` base-103 codewords.
pub fn base259_to_103(bytes: &[u8]) -> (r: Vec<u16>)
    requires
        1 <= bytes@.len() <= 5,
    ensures
        r@ == base259_spec(bytes@),
        forall|k: int| 0 <= k < r@.len() ==> #[trigger] r@[k] < 103,
{
    let inlen = bytes.len();
    let mut padded: [u32; 5] = [0u32; 5];
    let offset = 5 - inlen;
    let mut i: usize = 0;
    while i < inlen
        invariant
            inlen == bytes@.len(),
            1 <= inlen <= 5,
            offset == 5 - inlen,
            i <= inlen,
            forall|k: int| 0 <= k < offset + i ==> #[trigger] padded@[k] == padded5(bytes@, k),
            forall|k: int| 0 <= k < 5 ==> #[trigger] padded@[k] <= 255,
        decreases inlen - i,
    {
        padded[offset + i] = bytes[i] as u32;
        i = i + 1;
    }
    assert(forall|k: int| 0 <= k < 5 ==> #[trigger] padded@[k] == padded5(bytes@, k));
    let out = group_codewords(padded[0], padded[1], padded[2], padded[3], padded[4]);
    let ghost d = base103_digits(bytes@);
    assert(forall|k: int| 0 <= k < 6 ==> #[trigger] out@[k] == d[k]);
    let start = 5 - inlen;
    let mut r: Vec<u16> = Vec::new();
    let mut k: usize = start;
    while k < 6
        invariant
            start == 5 - bytes@.len(),
            start <= k <= 6,
            d == base103_digits(bytes@),
            forall|j: int| 0 <= j < 6 ==> #[trigger] out@[j] == d[j],
            forall|j: int| 0 <= j < 6 ==> #[trigger] out@[j] < 103,
            r@.len() == k - start,
            forall|j: int| 0 <= j < k - start ==> #[trigger] r@[j] == d[start + j] as u16,
            forall|j: int| 0 <= j < k - start ==> #[trigger] r@[j] < 103,
        decreases 6 - k,
    {
        r.push(out[k] as u16);
        k = k + 1;
    }
    assert(r@ =~= base259_spec(bytes@));
    r
}

/// A pending group of up to four bytes waiting to be flushed.
#[derive(Debug)]
pub struct BinState {
    pub bvals: [u8; 5],
    pub bpos: usize,
}

impl Default for BinState {
    fn default() -> (s: Self)
        ensures
            s.bpos == 0,
    {
        BinState { bvals: [0u8; 5], bpos: 0 }
    }
}

impl BinState {
    /// The bytes waiting in the group.
    pub open spec fn pending(&self) -> Seq<u8> {
        self.bvals@.subrange(0, self.bpos as int)
    }

    /// Adds one byte; a full group of five is flushed at once.
    pub fn add_byte(&mut self, b: u8, cws: &mut Vec<u16>)
        requires
            old(self).bpos < 5,
        ensures
            final(self).bpos < 5,
            old(self).bpos + 1 == 5 ==> final(self).bpos == 0 && final(cws)@ == old(cws)@
                + base259_spec(old(self).pending().push(b)),
            old(self).bpos + 1 < 5 ==> final(self).pending() == old(self).pending().push(b)
                && final(cws)@ == old(cws)@,
    {
        let ghost before = self.pending();
        self.bvals[self.bpos] = b;
        self.bpos = self.bpos + 1;
        assert(self.pending() =~= before.push(b));
        if self.bpos == 5 {
            self.finalise(cws);
        }
    }

    /// Flushes the pending group, if any.
    pub fn finalise(&mut self, cws: &mut Vec<u16>)
        requires
            old(self).bpos <= 5,
        ensures
            final(self).bpos == 0,
            final(cws)@ == old(cws)@ + flush_spec(old(self).pending()),
    {
        if self.bpos == 0 {
            assert(old(cws)@ + flush_spec(self.pending()) =~= old(cws)@);
            return;
        }
        let group = base259_to_103(&self.bvals[0..self.bpos]);
        let mut k: usize = 0;
        let ghost start = cws@;
        while k < group.len()
            invariant
                k <= group@.len(),
                cws@ == start + group@.subrange(0, k as int),
            decreases group@.len() - k,
        {
            cws.push(group[k]);
            k = k + 1;
            assert(cws@ =~= start + group@.subrange(0, k as int));
        }
        assert(group@.subrange(0, group@.len() as int) =~= group@);
        self.bpos = 0;
    }
}

} // verus!
