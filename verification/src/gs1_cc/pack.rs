//! Padding the compacted bits to the symbol's capacity and packing them
//! into codewords: base-928 digits of 69-bit chunks for CC-A, bytes for
//! CC-B and CC-C.

use vstd::prelude::*;

use super::payload::CcMode;

verus! {

/// The fill pattern repeated over the pad.
pub const FILLPAT: [u8; 5] = [0, 0, 1, 0, 0];

/// Bit `j` of the pad when the pad starts with `t` terminator zeros.
pub open spec fn pad_bit(j: int, t: int) -> bool {
    j >= t && FILLPAT@[(j - t) % 5] == 1
}

/// The bits padded to `cap`: unchanged when they already fill it; else
/// followed by four zeros when the encoder ended in numeric mode, then the
/// fill pattern over and over, all cut to `cap` bits.
pub open spec fn padded(payload: Seq<bool>, cap: int, mode: CcMode) -> Seq<bool> {
    if payload.len() >= cap {
        payload
    } else {
        let t: int = if mode == CcMode::Numeric {
            4
        } else {
            0
        };
        payload + Seq::new((cap - payload.len()) as nat, |j: int| pad_bit(j, t))
    }
}

/// Pads the bits to `cap_bits` with the numeric terminator (when the
/// encoder ended in numeric mode) and the fill pattern.
pub fn pad_with_fillpat(payload: &[bool], cap_bits: u32, final_mode: CcMode) -> (out: Vec<bool>)
    ensures
        out@ == padded(payload@, cap_bits as int, final_mode),
{
    let cap = cap_bits as usize;
    let mut out: Vec<bool> = Vec::new();
    let n = payload.len();
    let mut k: usize = 0;
    while k < n
        invariant
            k <= n == payload@.len(),
            out@ == payload@.subrange(0, k as int),
        decreases n - k,
    {
        out.push(payload[k]);
        k = k + 1;
        assert(out@ =~= payload@.subrange(0, k as int));
    }
    assert(payload@.subrange(0, n as int) =~= payload@);
    if n >= cap {
        return out;
    }
    let pad_len = cap - n;
    let t: usize = if final_mode == CcMode::Numeric {
        4
    } else {
        0
    };
    let ghost pad = Seq::new(pad_len as nat, |j: int| pad_bit(j, t as int));
    let mut j: usize = 0;
    while j < pad_len
        invariant
            j <= pad_len,
            n == payload@.len(),
            out@ == payload@ + pad.subrange(0, j as int),
            pad == Seq::new(pad_len as nat, |j: int| pad_bit(j, t as int)),
        decreases pad_len - j,
    {
        let b = j >= t && FILLPAT[(j - t) % 5] == 1;
        out.push(b);
        j = j + 1;
        assert(out@ =~= payload@ + pad.subrange(0, j as int));
    }
    assert(pad.subrange(0, pad_len as int) =~= pad);
    out
}

/// `2^e`.
pub open spec fn two_pow(e: nat) -> int
    decreases e,
{
    if e == 0 {
        1
    } else {
        2 * two_pow((e - 1) as nat)
    }
}

/// The value of bits read most significant first.
pub open spec fn bits_value(s: Seq<bool>) -> int
    decreases s.len(),
{
    if s.len() == 0 {
        0
    } else {
        bits_value(s.drop_last()) * 2 + if s.last() {
            1int
        } else {
            0int
        }
    }
}

/// Bits are worth less than two to the power of their count.
pub proof fn lemma_bits_value_bound(s: Seq<bool>)
    ensures
        0 <= bits_value(s) < two_pow(s.len()),
    decreases s.len(),
{
    if s.len() > 0 {
        lemma_bits_value_bound(s.drop_last());
    }
}

/// The bytes of the bits, eight at a time, most significant first; a
/// partial last byte is dropped.
pub open spec fn ccb_bytes(bits: Seq<bool>) -> Seq<u8> {
    Seq::new(bits.len() / 8, |k: int| bits_value(bits.subrange(8 * k, 8 * k + 8)) as u8)
}

/// Packs bits into bytes, most significant first; a partial last byte is
/// dropped.
pub fn pack_ccb_bytes(bits: &[bool]) -> (out: Vec<u8>)
    ensures
        out@ == ccb_bytes(bits@),
        forall|k: int| 0 <= k < out@.len() ==> out@[k] as int == bits_value(#[trigger] bits@.subrange(8 * k, 8 * k + 8)),
{
    let len = bits.len();
    let n = len / 8;
    let mut out: Vec<u8> = Vec::new();
    let mut k: usize = 0;
    while k < n
        invariant
            k <= n == bits@.len() / 8,
            len == bits@.len(),
            out@.len() == k,
            forall|q: int| 0 <= q < k ==> #[trigger] out@[q] as int == bits_value(bits@.subrange(8 * q, 8 * q + 8)),
        decreases n - k,
    {
        let mut v: u8 = 0;
        let mut j: usize = 0;
        while j < 8
            invariant
                k < n == bits@.len() / 8,
                len == bits@.len(),
                j <= 8,
                v as int == bits_value(bits@.subrange(8 * k as int, 8 * k + j)),
            decreases 8 - j,
        {
            proof {
                assert(8 * k + j < len) by (nonlinear_arith)
                    requires
                        k < n,
                        n == len / 8,
                        j < 8,
                        len >= 0,
                ;
                assert(8 * k + j <= len);
                lemma_bits_value_bound(bits@.subrange(8 * k as int, 8 * k + j));
                assert(two_pow(j as nat) <= 128) by {
                    reveal_with_fuel(two_pow, 8);
                }
            }
            let b = bits[8 * k + j];
            v = v * 2 + if b {
                1
            } else {
                0
            };
            j = j + 1;
            proof {
                let s = bits@.subrange(8 * k as int, 8 * k + j);
                assert(s.drop_last() =~= bits@.subrange(8 * k as int, 8 * k + j - 1));
            }
        }
        out.push(v);
        k = k + 1;
    }
    proof {
        assert forall|q: int| 0 <= q < out@.len() implies out@[q] == #[trigger] ccb_bytes(bits@)[q] by {
            lemma_bits_value_bound(bits@.subrange(8 * q, 8 * q + 8));
            assert(two_pow(8) == 256) by {
                reveal_with_fuel(two_pow, 9);
            }
        }
        assert(out@ =~= ccb_bytes(bits@));
    }
    out
}

/// `928^e`.
pub open spec fn pow928(e: nat) -> int
    decreases e,
{
    if e == 0 {
        1
    } else {
        928 * pow928((e - 1) as nat)
    }
}

/// The value of base-928 digits, most significant first.
pub open spec fn value928(d: Seq<u32>) -> int
    decreases d.len(),
{
    if d.len() == 0 {
        0
    } else {
        value928(d.drop_last()) * 928 + d.last()
    }
}

/// Every digit is below 928.
pub open spec fn digits_ok(d: Seq<u32>) -> bool {
    forall|k: int| 0 <= k < d.len() ==> #[trigger] d[k] < 928
}

/// `n` base-928 digits of `v`, most significant first.
pub open spec fn digits928(v: int, n: nat) -> Seq<u32>
    decreases n,
{
    if n == 0 {
        Seq::empty()
    } else {
        digits928(v / 928, (n - 1) as nat).push((v % 928) as u32)
    }
}

/// Row `j` of the power table: `2^j` in seven base-928 digits.
pub open spec fn pwr928_row(row: Seq<u32>, j: nat) -> bool {
    &&& row.len() == 7
    &&& digits_ok(row)
    &&& value928(row) == two_pow(j)
}

proof fn lemma_pow928_pos(e: nat)
    ensures
        pow928(e) >= 1,
    decreases e,
{
    if e > 0 {
        lemma_pow928_pos((e - 1) as nat);
    }
}

proof fn lemma_two_pow_pos(e: nat)
    ensures
        two_pow(e) >= 1,
    decreases e,
{
    if e > 0 {
        lemma_two_pow_pos((e - 1) as nat);
    }
}

proof fn lemma_two_pow_mono(a: nat, b: nat)
    requires
        a <= b,
    ensures
        two_pow(a) <= two_pow(b),
    decreases b,
{
    if a < b {
        lemma_two_pow_mono(a, (b - 1) as nat);
        lemma_two_pow_pos((b - 1) as nat);
    }
}

/// The value of a concatenation.
proof fn lemma_value928_concat(a: Seq<u32>, s: Seq<u32>)
    ensures
        value928(a + s) == value928(a) * pow928(s.len()) + value928(s),
    decreases s.len(),
{
    if s.len() == 0 {
        assert(a + s =~= a);
    } else {
        lemma_value928_concat(a, s.drop_last());
        assert((a + s).drop_last() =~= a + s.drop_last());
        assert((a + s).last() == s.last());
        let x = value928(a);
        let p = pow928((s.len() - 1) as nat);
        let y = value928(s.drop_last());
        assert((x * p + y) * 928 + s.last() == x * (928 * p) + (y * 928 + s.last())) by (nonlinear_arith);
    }
}

/// Digits below 928 are worth less than `928^n`.
proof fn lemma_value928_bound(d: Seq<u32>)
    requires
        digits_ok(d),
    ensures
        0 <= value928(d) < pow928(d.len()),
    decreases d.len(),
{
    if d.len() > 0 {
        lemma_value928_bound(d.drop_last());
        let v = value928(d.drop_last());
        let p = pow928((d.len() - 1) as nat);
        let z = d.last();
        assert(d[d.len() - 1] < 928);
        assert(v * 928 + z < 928 * p) by (nonlinear_arith)
            requires
                0 <= v < p,
                0 <= z < 928,
        ;
        assert(v * 928 + z >= 0) by (nonlinear_arith)
            requires
                0 <= v,
                0 <= z,
        ;
    }
}

/// Digits below 928 are the digits of their value.
proof fn lemma_digits928_unique(d: Seq<u32>)
    requires
        digits_ok(d),
    ensures
        d == digits928(value928(d), d.len()),
    decreases d.len(),
{
    if d.len() > 0 {
        let rest = d.drop_last();
        lemma_digits928_unique(rest);
        let v = value928(d);
        assert(d[d.len() - 1] < 928);
        vstd::arithmetic::div_mod::lemma_fundamental_div_mod_converse(
            v,
            928,
            value928(rest),
            d.last() as int,
        );
        assert(d =~= digits928(v / 928, rest.len()).push((v % 928) as u32));
    }
}

/// Element-wise sums add values.
proof fn lemma_value928_add(a: Seq<u32>, b: Seq<u32>, c: Seq<u32>)
    requires
        a.len() == b.len() == c.len(),
        forall|k: int| 0 <= k < a.len() ==> #[trigger] c[k] == a[k] + b[k],
    ensures
        value928(c) == value928(a) + value928(b),
    decreases a.len(),
{
    if a.len() > 0 {
        lemma_value928_add(a.drop_last(), b.drop_last(), c.drop_last());
        assert(c[c.len() - 1] == a[a.len() - 1] + b[b.len() - 1]);
    }
}

proof fn lemma_value928_short(s: Seq<u32>)
    ensures
        s.len() == 1 ==> value928(s) == s[0],
        s.len() == 2 ==> value928(s) == s[0] * 928 + s[1],
{
    if s.len() == 1 {
        assert(s.drop_last() =~= Seq::<u32>::empty());
        assert(value928(s) == value928(s.drop_last()) * 928 + s.last());
    } else if s.len() == 2 {
        let t = s.drop_last();
        assert(t.drop_last() =~= Seq::<u32>::empty());
        assert(value928(t) == value928(t.drop_last()) * 928 + t.last());
        assert(value928(s) == value928(t) * 928 + s.last());
    }
}

/// Moving `q` of digit `k` into digit `k - 1` keeps the value.
proof fn lemma_value928_carry(d: Seq<u32>, k: int, q: int, e: Seq<u32>)
    requires
        1 <= k < d.len(),
        e.len() == d.len(),
        e[k - 1] == d[k - 1] + q,
        e[k] == d[k] - 928 * q,
        forall|t: int| 0 <= t < d.len() && t != k - 1 && t != k ==> #[trigger] e[t] == d[t],
    ensures
        value928(e) == value928(d),
{
    let a = d.subrange(0, k - 1);
    let s = d.subrange(k + 1, d.len() as int);
    let md = d.subrange(k - 1, k + 1);
    let me = e.subrange(k - 1, k + 1);
    assert(d =~= a + (md + s));
    assert(e =~= a + (me + s));
    lemma_value928_concat(a, md + s);
    lemma_value928_concat(a, me + s);
    lemma_value928_concat(md, s);
    lemma_value928_concat(me, s);
    lemma_value928_short(md);
    lemma_value928_short(me);
    assert(value928(md) == d[k - 1] * 928 + d[k]);
    assert(value928(me) == e[k - 1] * 928 + e[k]);
}

proof fn lemma_two_pow_add(a: nat, b: nat)
    ensures
        two_pow(a + b) == two_pow(a) * two_pow(b),
    decreases b,
{
    if b > 0 {
        lemma_two_pow_add(a, (b - 1) as nat);
        let x = two_pow(a);
        let y = two_pow((b - 1) as nat);
        assert(two_pow(a + b) == 2 * two_pow((a + b - 1) as nat));
        assert(2 * (x * y) == x * (2 * y)) by (nonlinear_arith);
    }
}

/// `2^69`.
proof fn lemma_two_pow_69()
    ensures
        two_pow(69) == 590295810358705651712int,
{
    assert(two_pow(9) == 512) by {
        reveal_with_fuel(two_pow, 10);
    }
    assert(two_pow(10) == 1024) by {
        reveal_with_fuel(two_pow, 11);
    }
    lemma_two_pow_add(10, 10);
    let a = two_pow(10);
    assert(a * a == 1048576) by (nonlinear_arith)
        requires
            a == 1024,
    ;
    lemma_two_pow_add(20, 20);
    let b = two_pow(20);
    assert(b * b == 1099511627776int) by (nonlinear_arith)
        requires
            b == 1048576,
    ;
    lemma_two_pow_add(40, 20);
    let c = two_pow(40);
    assert(c * b == 1152921504606846976int) by (nonlinear_arith)
        requires
            c == 1099511627776int,
            b == 1048576,
    ;
    lemma_two_pow_add(60, 9);
    let d = two_pow(60);
    let e = two_pow(9);
    assert(d * e == 590295810358705651712int) by (nonlinear_arith)
        requires
            d == 1152921504606846976int,
            e == 512,
    ;
}

/// `2^j` fits seven base-928 digits for every row of the table.
proof fn lemma_two_pow_fits(j: nat)
    requires
        j <= 69,
    ensures
        two_pow(j) < pow928(7),
{
    lemma_two_pow_mono(j, 69);
    lemma_two_pow_69();
    assert(pow928(7) == 592701236857601523712int) by {
        reveal_with_fuel(pow928, 8);
    }
}

/// Doubles a seven-digit base-928 number.
fn double928(prev: &[u32; 7]) -> (row: [u32; 7])
    requires
        digits_ok(prev@),
        2 * value928(prev@) < pow928(7),
    ensures
        digits_ok(row@),
        value928(row@) == 2 * value928(prev@),
{
    let mut row: [u32; 7] = [0u32; 7];
    let mut carry: u32 = 0;
    let mut k: usize = 7;
    proof {
        assert(row@.subrange(7, 7) =~= Seq::<u32>::empty());
        assert(prev@.subrange(7, 7) =~= Seq::<u32>::empty());
    }
    while k > 0
        invariant
            k <= 7,
            carry <= 1,
            digits_ok(prev@),
            row@.len() == 7,
            forall|t: int| k <= t < 7 ==> #[trigger] row@[t] < 928,
            value928(row@.subrange(k as int, 7)) + carry * pow928((7 - k) as nat) == 2 * value928(
                prev@.subrange(k as int, 7),
            ),
        decreases k,
    {
        let ghost old_row = row@;
        k = k - 1;
        assert(prev@[k as int] < 928);
        let v = prev[k] * 2 + carry;
        row[k] = v % 928;
        let ghost c_old = carry as int;
        carry = v / 928;
        proof {
            let e = (7 - k - 1) as nat;
            let rs = row@.subrange(k + 1, 7);
            assert(rs =~= old_row.subrange(k + 1, 7));
            assert(row@.subrange(k as int, 7) =~= seq![row@[k as int]] + rs);
            assert(prev@.subrange(k as int, 7) =~= seq![prev@[k as int]] + prev@.subrange(k + 1, 7));
            lemma_value928_concat(seq![row@[k as int]], rs);
            lemma_value928_concat(seq![prev@[k as int]], prev@.subrange(k + 1, 7));
            lemma_value928_short(seq![row@[k as int]]);
            lemma_value928_short(seq![prev@[k as int]]);
            let p = pow928(e);
            assert(pow928((7 - k) as nat) == 928 * p);
            let x = prev@[k as int] as int;
            let r = row@[k as int] as int;
            let cn = carry as int;
            assert(x * 2 + c_old == cn * 928 + r);
            assert(r * p + cn * (928 * p) == 2 * (x * p) + c_old * p) by (nonlinear_arith)
                requires
                    x * 2 + c_old == cn * 928 + r,
            ;
        }
    }
    proof {
        assert(row@.subrange(0, 7) =~= row@);
        assert(prev@.subrange(0, 7) =~= prev@);
        assert(digits_ok(row@));
        lemma_value928_bound(row@);
        lemma_pow928_pos(7);
        if carry > 0 {
            assert(carry * pow928(7) >= pow928(7)) by (nonlinear_arith)
                requires
                    carry >= 1,
                    pow928(7) >= 1,
            ;
        }
    }
    row
}

/// The power table: row `j` holds `2^j` in seven base-928 digits, most
/// significant first.
pub fn build_pwr928() -> (t: [[u32; 7]; 69])
    ensures
        forall|j: int| 0 <= j < 69 ==> #[trigger] pwr928_row(t[j]@, j as nat),
{
    let mut t: [[u32; 7]; 69] = [[0u32; 7]; 69];
    let mut first: [u32; 7] = [0u32; 7];
    first[6] = 1;
    t[0] = first;
    proof {
        assert(first@ =~= seq![0u32, 0, 0, 0, 0, 0, 1]);
        reveal_with_fuel(value928, 8);
        assert(value928(first@) == 1);
    }
    let mut j: usize = 1;
    while j < 69
        invariant
            1 <= j <= 69,
            forall|q: int| 0 <= q < j ==> #[trigger] pwr928_row(t[q]@, q as nat),
        decreases 69 - j,
    {
        let prev = t[j - 1];
        proof {
            assert(pwr928_row(t[j - 1]@, (j - 1) as nat));
            lemma_two_pow_fits(j as nat);
        }
        let row = double928(&prev);
        t[j] = row;
        j = j + 1;
    }
    t
}

/// Length of the chunk that starts at `b` in `total` bits: 69, or what
/// is left.
pub open spec fn chunk_len(total: int, b: int) -> int {
    if total - b < 69 {
        total - b
    } else {
        69
    }
}

/// The CC-A codewords of the bits from `b`: each chunk of up to 69 bits,
/// read as a number, in `len / 10 + 1` base-928 digits.
pub open spec fn cca_from(bits: Seq<bool>, b: int) -> Seq<u32>
    decreases bits.len() - b,
{
    if b < 0 || b >= bits.len() {
        Seq::empty()
    } else {
        let bsl = chunk_len(bits.len() as int, b);
        digits928(bits_value(bits.subrange(b, b + bsl)), (bsl / 10 + 1) as nat) + cca_from(
            bits,
            b + bsl,
        )
    }
}

/// Adding a leading bit adds its place value.
proof fn lemma_bits_prepend(x: bool, s: Seq<bool>)
    ensures
        bits_value(seq![x] + s) == (if x {
            1int
        } else {
            0int
        }) * two_pow(s.len()) + bits_value(s),
    decreases s.len(),
{
    if s.len() == 0 {
        assert(seq![x] + s =~= seq![x]);
        assert(seq![x].drop_last() =~= Seq::<bool>::empty());
        assert(bits_value(seq![x]) == bits_value(seq![x].drop_last()) * 2 + if x {
            1int
        } else {
            0int
        });
        assert(two_pow(0) == 1);
    } else {
        lemma_bits_prepend(x, s.drop_last());
        let xs = seq![x] + s;
        assert(xs.drop_last() =~= seq![x] + s.drop_last());
        assert(xs.last() == s.last());
        assert(bits_value(xs) == bits_value(xs.drop_last()) * 2 + if xs.last() {
            1int
        } else {
            0int
        });
        assert(two_pow(s.len()) == 2 * two_pow((s.len() - 1) as nat));
        let h: int = if x {
            1
        } else {
            0
        };
        let p = two_pow((s.len() - 1) as nat);
        let y = bits_value(s.drop_last());
        assert((h * p + y) * 2 == h * (2 * p) + y * 2) by (nonlinear_arith);
    }
}

proof fn lemma_value928_nonneg(d: Seq<u32>)
    ensures
        value928(d) >= 0,
    decreases d.len(),
{
    if d.len() > 0 {
        lemma_value928_nonneg(d.drop_last());
    }
}

/// A chunk of up to 69 bits fits `n / 10 + 1` base-928 digits.
proof fn lemma_chunk_fits(n: nat)
    requires
        n <= 69,
    ensures
        two_pow(n) <= pow928(n / 10 + 1),
{
    let q = n / 10;
    lemma_two_pow_mono(n, 10 * q + 9);
    assert(two_pow(9) == 512) by {
        reveal_with_fuel(two_pow, 10);
    }
    assert(two_pow(10) == 1024) by {
        reveal_with_fuel(two_pow, 11);
    }
    lemma_two_pow_add(9, 10);
    lemma_two_pow_add(19, 10);
    lemma_two_pow_add(29, 10);
    lemma_two_pow_add(39, 10);
    lemma_two_pow_add(49, 10);
    lemma_two_pow_add(59, 10);
    assert(two_pow(19) == 524288);
    assert(two_pow(29) == 536870912);
    assert(two_pow(39) == 549755813888int);
    assert(two_pow(49) == 562949953421312int);
    assert(two_pow(59) == 576460752303423488int);
    assert(two_pow(69) == 590295810358705651712int);
    reveal_with_fuel(pow928, 8);
}

/// The low `csl` digits of row `i` are worth `2^i` when `2^i` fits them.
proof fn lemma_low_digits(row: Seq<u32>, i: nat, csl: int)
    requires
        pwr928_row(row, i),
        1 <= csl <= 7,
        two_pow(i) < pow928(csl as nat),
    ensures
        value928(row.subrange(7 - csl, 7)) == two_pow(i),
        digits_ok(row.subrange(7 - csl, 7)),
{
    let hi = row.subrange(0, 7 - csl);
    let lo = row.subrange(7 - csl, 7);
    assert(row =~= hi + lo);
    lemma_value928_concat(hi, lo);
    assert(digits_ok(lo));
    lemma_value928_bound(lo);
    lemma_value928_nonneg(hi);
    let h = value928(hi);
    let p = pow928(csl as nat);
    lemma_value928_nonneg(lo);
    if h >= 1 {
        assert(h * p >= p) by (nonlinear_arith)
            requires
                h >= 1,
                p >= 0,
        ;
    } else {
        assert(h * p == 0) by (nonlinear_arith)
            requires
                h == 0,
        ;
    }
}

/// The base-928 digits of one chunk of `bsl` bits starting at `b`.
fn pack_chunk(bits: &[bool], b: usize, bsl: usize, pwr928: &[[u32; 7]; 69]) -> (d: Vec<u32>)
    requires
        1 <= bsl <= 69,
        b + bsl <= bits@.len(),
        forall|j: int| 0 <= j < 69 ==> #[trigger] pwr928_row(pwr928[j]@, j as nat),
    ensures
        d@ == digits928(bits_value(bits@.subrange(b as int, b + bsl)), (bsl / 10 + 1) as nat),
{
    let len = bits.len();
    let csl = bsl / 10 + 1;
    let ghost chunk = bits@.subrange(b as int, b + bsl);
    proof {
        lemma_chunk_fits(bsl as nat);
        lemma_pow928_pos(csl as nat);
    }
    let mut cs: [u32; 7] = [0u32; 7];
    proof {
        assert(chunk.subrange(bsl as int, bsl as int) =~= Seq::<bool>::empty());
        assert(value928(cs@.subrange(0, csl as int)) == 0) by {
            lemma_value928_add(
                cs@.subrange(0, csl as int),
                cs@.subrange(0, csl as int),
                cs@.subrange(0, csl as int),
            );
        }
    }
    let mut i: usize = 0;
    while i < bsl
        invariant
            1 <= bsl <= 69,
            csl == bsl / 10 + 1,
            b + bsl <= bits@.len(),
            len == bits@.len(),
            chunk == bits@.subrange(b as int, b + bsl),
            two_pow(bsl as nat) <= pow928(csl as nat),
            forall|j: int| 0 <= j < 69 ==> #[trigger] pwr928_row(pwr928[j]@, j as nat),
            i <= bsl,
            value928(cs@.subrange(0, csl as int)) == bits_value(chunk.subrange(bsl - i, bsl as int)),
            forall|t: int| 0 <= t < 7 ==> #[trigger] cs@[t] <= i * 927,
        decreases bsl - i,
    {
        let ghost before = cs@;
        if bits[b + bsl - i - 1] {
            proof {
                let ii = i as int;
                assert(pwr928_row(pwr928[ii]@, ii as nat));
            }
            let row = pwr928[i];
            let mut k: usize = 0;
            while k < csl
                invariant
                    csl <= 7,
                    k <= csl,
                    i < bsl <= 69,
                    pwr928_row(row@, i as nat),
                    forall|t: int| 0 <= t < k ==> #[trigger] cs@[t] == before[t] + row@[t + 7 - csl],
                    forall|t: int| k <= t < 7 ==> #[trigger] cs@[t] == before[t],
                    forall|t: int| 0 <= t < 7 ==> #[trigger] before[t] <= i * 927,
                decreases csl - k,
            {
                assert(row@[k + 7 - csl] < 928);
                cs[k] = cs[k] + row[k + 7 - csl];
                k = k + 1;
            }
            proof {
                lemma_two_pow_mono(i as nat, bsl as nat);
                lemma_two_pow_add(i as nat, 1);
                assert(two_pow((i + 1) as nat) == 2 * two_pow(i as nat)) by {
                    reveal_with_fuel(two_pow, 2);
                }
                lemma_two_pow_pos(i as nat);
                lemma_two_pow_mono((i + 1) as nat, bsl as nat);
                lemma_low_digits(row@, i as nat, csl as int);
                lemma_value928_add(
                    before.subrange(0, csl as int),
                    row@.subrange(7 - csl, 7),
                    cs@.subrange(0, csl as int),
                );
            }
        }
        proof {
            let x = chunk[bsl - i - 1];
            assert(chunk.subrange(bsl - i - 1, bsl as int) =~= seq![x] + chunk.subrange(
                bsl - i,
                bsl as int,
            ));
            lemma_bits_prepend(x, chunk.subrange(bsl - i, bsl as int));
            assert(chunk[bsl - i - 1] == bits@[b + bsl - i - 1]);
            assert forall|t: int| 0 <= t < 7 implies #[trigger] cs@[t] <= (i + 1) * 927 by {
                assert(i * 927 + 927 == (i + 1) * 927);
            }
        }
        i = i + 1;
    }
    let ghost v = bits_value(chunk);
    proof {
        assert(chunk.subrange(0, bsl as int) =~= chunk);
        lemma_bits_value_bound(chunk);
        assert forall|t: int| 0 <= t < 7 implies #[trigger] cs@[t] <= 63963 by {
            assert(bsl * 927 <= 69 * 927);
        }
    }
    let mut k: usize = csl - 1;
    while k > 0
        invariant
            1 <= csl <= 7,
            k < csl,
            value928(cs@.subrange(0, csl as int)) == v,
            forall|t: int| 0 <= t < k ==> #[trigger] cs@[t] <= 63963,
            cs@[k as int] <= 64100,
            forall|t: int| k < t < csl ==> #[trigger] cs@[t] < 928,
        decreases k,
    {
        let ghost before = cs@;
        let q = cs[k] / 928;
        cs[k - 1] = cs[k - 1] + q;
        cs[k] = cs[k] % 928;
        proof {
            assert(before[k - 1] <= 63963);
            lemma_value928_carry(
                before.subrange(0, csl as int),
                k as int,
                q as int,
                cs@.subrange(0, csl as int),
            );
        }
        k = k - 1;
    }
    proof {
        let d = cs@.subrange(0, csl as int);
        let rest = d.subrange(1, csl as int);
        assert(d =~= seq![d[0]] + rest);
        lemma_value928_concat(seq![d[0]], rest);
        lemma_value928_short(seq![d[0]]);
        lemma_value928_nonneg(rest);
        let p = pow928((csl - 1) as nat);
        assert(pow928(csl as nat) == 928 * p);
        if d[0] >= 928 {
            assert(d[0] * p >= 928 * p) by (nonlinear_arith)
                requires
                    d[0] >= 928,
                    p >= 0,
            ;
        }
        assert(digits_ok(d));
        lemma_digits928_unique(d);
    }
    let mut out: Vec<u32> = Vec::new();
    let mut t: usize = 0;
    while t < csl
        invariant
            t <= csl <= 7,
            out@ == cs@.subrange(0, t as int),
        decreases csl - t,
    {
        out.push(cs[t]);
        t = t + 1;
        assert(out@ =~= cs@.subrange(0, t as int));
    }
    out
}

/// Packs bits into CC-A codewords: each chunk of up to 69 bits, read as a
/// number, becomes `len / 10 + 1` base-928 digits.
pub fn pack_cca_codewords(bits: &[bool]) -> (out: Vec<u32>)
    ensures
        out@ == cca_from(bits@, 0),
{
    let pwr928 = build_pwr928();
    let mut out: Vec<u32> = Vec::new();
    let n = bits.len();
    let mut b: usize = 0;
    while b < n
        invariant
            b <= n == bits@.len(),
            forall|j: int| 0 <= j < 69 ==> #[trigger] pwr928_row(pwr928[j]@, j as nat),
            cca_from(bits@, 0) == out@ + cca_from(bits@, b as int),
        decreases n - b,
    {
        let bsl = if n - b < 69 {
            n - b
        } else {
            69
        };
        let digits = pack_chunk(bits, b, bsl, &pwr928);
        let ghost before = out@;
        let mut t: usize = 0;
        while t < digits.len()
            invariant
                t <= digits@.len(),
                out@ == before + digits@.subrange(0, t as int),
            decreases digits@.len() - t,
        {
            out.push(digits[t]);
            t = t + 1;
            assert(out@ =~= before + digits@.subrange(0, t as int));
        }
        proof {
            assert(digits@.subrange(0, digits@.len() as int) =~= digits@);
            assert(out@ + cca_from(bits@, b + bsl) =~= before + cca_from(bits@, b as int));
        }
        b = b + bsl;
    }
    assert(out@ + cca_from(bits@, n as int) =~= out@);
    out
}

/// Base-928 digits read back give the number they were taken from, when it
/// fits them.
pub proof fn lemma_digits928_round_trip(v: int, n: nat)
    requires
        0 <= v < pow928(n),
    ensures
        digits928(v, n).len() == n,
        digits_ok(digits928(v, n)),
        value928(digits928(v, n)) == v,
    decreases n,
{
    if n > 0 {
        let p = pow928((n - 1) as nat);
        assert(v / 928 < p) by (nonlinear_arith)
            requires
                0 <= v < 928 * p,
        ;
        assert(v / 928 >= 0) by (nonlinear_arith)
            requires
                0 <= v,
        ;
        lemma_digits928_round_trip(v / 928, (n - 1) as nat);
        let d = digits928(v, n);
        assert(d.drop_last() =~= digits928(v / 928, (n - 1) as nat));
        assert(v == (v / 928) * 928 + v % 928) by (nonlinear_arith);
        assert(0 <= v % 928 < 928) by (nonlinear_arith);
    }
}

/// A chunk of up to 69 bits comes back from its CC-A codewords (those
/// [`pack_cca_codewords`] returns): no bits give no codewords; otherwise
/// there are `len / 10 + 1` of them, each below 928, and read in base 928,
/// most significant first, they give the number the bits spell in base 2,
/// most significant first.
pub proof fn law_cca_chunk_round_trip(bits: Seq<bool>)
    requires
        bits.len() <= 69,
    ensures
        bits.len() == 0 ==> cca_from(bits, 0) == Seq::<u32>::empty(),
        bits.len() > 0 ==> value928(cca_from(bits, 0)) == bits_value(bits),
        digits_ok(cca_from(bits, 0)),
        bits.len() > 0 ==> cca_from(bits, 0).len() == bits.len() / 10 + 1,
{
    let n = bits.len() as int;
    assert(cca_from(bits, n) =~= Seq::<u32>::empty());
    if n > 0 {
        assert(bits.subrange(0, n) =~= bits);
        lemma_bits_value_bound(bits);
        lemma_chunk_fits(bits.len());
        lemma_digits928_round_trip(bits_value(bits), (n / 10 + 1) as nat);
        let d = digits928(bits_value(bits), (n / 10 + 1) as nat);
        assert(cca_from(bits, 0) =~= d);
    }
}

/// Padding keeps the bits and reaches the capacity: the result starts
/// with the bits and is as long as the longer of the bits and the
/// capacity.
pub proof fn law_padding_shape(payload: Seq<bool>, cap: int, mode: CcMode)
    requires
        cap >= 0,
    ensures
        padded(payload, cap, mode).len() == if payload.len() >= cap {
            payload.len() as int
        } else {
            cap
        },
        padded(payload, cap, mode).subrange(0, payload.len() as int) == payload,
{
    assert(padded(payload, cap, mode).subrange(0, payload.len() as int) =~= payload);
}

} // verus!
