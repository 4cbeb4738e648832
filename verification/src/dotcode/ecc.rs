//! DotCode's masking and Reed-Solomon error correction over GF(113).

use vstd::prelude::*;

use vstd::arithmetic::div_mod::{lemma_add_mod_noop, lemma_fundamental_div_mod, lemma_mul_mod_noop_left};

verus! {

/// The field size.
pub const P: u32 = 113;

/// Per-position offsets of the four masks.
pub const MASK_VALS: [u32; 4] = [0, 3, 7, 17];

/// `3^k mod 113`.
pub open spec fn pow3(k: nat) -> int
    decreases k,
{
    if k == 0 {
        1
    } else {
        (pow3((k - 1) as nat) * 3) % 113
    }
}

/// `g · (x - r)` over GF(113), coefficients from the highest degree down.
pub open spec fn mul_root(g: Seq<int>, r: int) -> Seq<int> {
    Seq::new(
        g.len() + 1,
        |t: int|
            if t == 0 {
                g[0]
            } else if t < g.len() {
                (g[t] - r * g[t - 1]) % 113
            } else {
                (0 - r * g[t - 1]) % 113
            },
    )
}

/// The generator polynomial `(x - 3)(x - 3^2)...(x - 3^k)` over GF(113),
/// `k + 1` coefficients from the leading `1` down to the constant.
pub open spec fn gen_poly(k: nat) -> Seq<int>
    decreases k,
{
    if k == 0 {
        seq![1]
    } else {
        mul_root(gen_poly((k - 1) as nat), pow3(k))
    }
}

/// The generator polynomial of degree `k` has `k + 1` coefficients.
pub proof fn lemma_gen_poly_len(k: nat)
    ensures
        gen_poly(k).len() == k + 1,
    decreases k,
{
    if k > 0 {
        lemma_gen_poly_len((k - 1) as nat);
    }
}

proof fn lemma_small_product(a: u32, b: u32)
    requires
        a < 113,
        b < 113,
    ensures
        a * b < 113 * 113,
{
    assert(a * b < 113 * 113) by (nonlinear_arith)
        requires
            a < 113,
            b < 113,
    ;
}

proof fn lemma_sub_mod(a: int, b: int)
    requires
        0 <= a < 113,
        0 <= b,
    ensures
        (a + (113 - b % 113)) % 113 == (a - b) % 113,
{
    let q = b / 113;
    let m = b % 113;
    assert(b == 113 * q + m) by (nonlinear_arith)
        requires
            q == b / 113,
            m == b % 113,
    ;
    assert((a + (113 - m)) == (a - b) + 113 * (q + 1));
    vstd::arithmetic::div_mod::lemma_mod_multiples_vanish(q + 1, a - b, 113);
}

/// The generator polynomial of degree `nc` over GF(113).
pub fn generator_poly(nc: usize) -> (g: Vec<u32>)
    requires
        nc < usize::MAX,
    ensures
        g@.len() == nc + 1,
        forall|t: int| 0 <= t <= nc ==> #[trigger] g@[t] as int == gen_poly(nc as nat)[t],
        forall|t: int| 0 <= t <= nc ==> #[trigger] g@[t] < 113,
{
    let mut g: Vec<u32> = Vec::new();
    g.push(1);
    let mut r: u32 = 1;
    let mut k: usize = 0;
    while k < nc
        invariant
            k <= nc,
            nc < usize::MAX,
            r as int == pow3(k as nat),
            r < 113,
            g@.len() == k + 1,
            forall|t: int| 0 <= t <= k ==> #[trigger] g@[t] as int == gen_poly(k as nat)[t],
            forall|t: int| 0 <= t <= k ==> #[trigger] g@[t] < 113,
        decreases nc - k,
    {
        r = (r * 3) % 113;
        let ghost old_g = g@;
        proof {
            lemma_gen_poly_len(k as nat);
            assert(old_g.map_values(|v: u32| v as int) =~= gen_poly(k as nat));
        }
        let len = g.len();
        let mut ng: Vec<u32> = Vec::new();
        ng.push(g[0]);
        let mut t: usize = 1;
        while t <= len
            invariant
                1 <= t <= len + 1,
                len == k + 1,
                g@ == old_g,
                old_g.len() == len,
                len <= nc,
                nc < usize::MAX,
                r < 113,
                forall|j: int| 0 <= j < len ==> #[trigger] old_g[j] < 113,
                ng@.len() == t,
                forall|j: int|
                    0 <= j < t ==> #[trigger] ng@[j] as int == mul_root(
                        old_g.map_values(|v: u32| v as int),
                        r as int,
                    )[j],
                forall|j: int| 0 <= j < t ==> #[trigger] ng@[j] < 113,
            decreases len + 1 - t,
        {
            let hi: u32 = if t < len {
                g[t]
            } else {
                0
            };
            proof {
                lemma_small_product(r, g[t - 1]);
            }
            let prod = (r * g[t - 1]) % 113;
            let v = (hi + (113 - prod)) % 113;
            proof {
                lemma_sub_mod(hi as int, r * g[t - 1]);
            }
            ng.push(v);
            proof {
                let gi = old_g.map_values(|v: u32| v as int);
                assert(gi[t as int - 1] == old_g[t as int - 1] as int);
                if t < len {
                    assert(gi[t as int] == old_g[t as int] as int);
                }
                assert(ng@[t as int] as int == mul_root(gi, r as int)[t as int]);
            }
            t = t + 1;
        }
        proof {
            assert forall|j: int| 0 <= j <= k + 1 implies #[trigger] ng@[j] as int == gen_poly(
                (k + 1) as nat,
            )[j] by {
                assert(old_g.map_values(|v: u32| v as int) =~= gen_poly(k as nat));
            }
        }
        g = ng;
        k = k + 1;
    }
    g
}

/// One step of the division register: feed `datum`.
pub open spec fn lfsr_step(lfsr: Seq<int>, datum: int, g: Seq<int>) -> Seq<int> {
    let nc = lfsr.len() as int;
    let tmp = (datum + 113 - lfsr[0]) % 113;
    Seq::new(
        nc as nat,
        |j: int|
            if j < nc - 1 {
                (lfsr[j + 1] + g[j + 1] * tmp) % 113
            } else {
                (g[nc] * tmp) % 113
            },
    )
}

/// The register after feeding `stream`, starting from `nc` zeros.
pub open spec fn lfsr_run(stream: Seq<int>, g: Seq<int>, nc: nat) -> Seq<int>
    decreases stream.len(),
{
    if stream.len() == 0 {
        Seq::new(nc, |j: int| 0)
    } else {
        lfsr_step(lfsr_run(stream.drop_last(), g, nc), stream.last(), g)
    }
}

/// Number of check codewords for `nd` data codewords.
pub open spec fn check_count(nd: int) -> int {
    nd / 2 + 3
}

/// The check codewords of `data` with the leading value `leading` fed
/// first.
pub open spec fn rs_checks(leading: int, data: Seq<u16>) -> Seq<int> {
    let nc = check_count(data.len() as int) as nat;
    lfsr_run(seq![leading] + data.map_values(|c: u16| c as int), gen_poly(nc), nc)
}

/// `data` followed by its check codewords.
pub open spec fn rs_spec(leading: int, data: Seq<u16>) -> Seq<u16> {
    data + rs_checks(leading, data).map_values(|v: int| v as u16)
}

proof fn lemma_lfsr_run_len(stream: Seq<int>, g: Seq<int>, nc: nat)
    ensures
        lfsr_run(stream, g, nc).len() == nc,
    decreases stream.len(),
{
    if stream.len() > 0 {
        lemma_lfsr_run_len(stream.drop_last(), g, nc);
    }
}

/// `data` gains `data.len() / 2 + 3` check codewords.
pub proof fn lemma_rs_spec_len(leading: int, data: Seq<u16>)
    ensures
        rs_spec(leading, data).len() == data.len() + data.len() / 2 + 3,
{
    let nc = check_count(data.len() as int) as nat;
    lemma_lfsr_run_len(seq![leading] + data.map_values(|c: u16| c as int), gen_poly(nc), nc);
}

/// Appends the Reed-Solomon check codewords of `data`, feeding the mask
/// number `leading` into the register first.
pub fn apply_rs_ecc_with_leading(leading: u16, data: &[u16]) -> (out: Vec<u16>)
    requires
        leading < 113,
        data@.len() < usize::MAX / 2,
        forall|k: int| 0 <= k < data@.len() ==> #[trigger] data@[k] < 113,
    ensures
        out@ == rs_spec(leading as int, data@),
        out@.len() == data@.len() + data@.len() / 2 + 3,
        forall|k: int| 0 <= k < out@.len() ==> #[trigger] out@[k] < 113,
{
    let nd_data = data.len();
    let nc = nd_data / 2 + 3;
    let nd_loop = nd_data + 1;
    let full_gen = generator_poly(nc);
    let ghost gs = gen_poly(nc as nat);
    let ghost stream = seq![leading as int] + data@.map_values(|c: u16| c as int);
    let mut lfsr: Vec<u32> = Vec::new();
    let mut z: usize = 0;
    while z < nc
        invariant
            z <= nc,
            lfsr@.len() == z,
            forall|j: int| 0 <= j < z ==> #[trigger] lfsr@[j] == 0,
        decreases nc - z,
    {
        lfsr.push(0);
        z = z + 1;
    }
    proof {
        assert(lfsr@.map_values(|v: u32| v as int) =~= lfsr_run(stream.subrange(0, 0), gs, nc as nat));
    }
    let mut i: usize = 0;
    while i < nd_loop
        invariant
            nd_loop == nd_data + 1,
            nd_data == data@.len(),
            nd_data < usize::MAX / 2,
            nc == nd_data / 2 + 3,
            gs == gen_poly(nc as nat),
            stream == seq![leading as int] + data@.map_values(|c: u16| c as int),
            leading < 113,
            forall|k: int| 0 <= k < data@.len() ==> #[trigger] data@[k] < 113,
            full_gen@.len() == nc + 1,
            forall|t: int| 0 <= t <= nc ==> #[trigger] full_gen@[t] as int == gs[t],
            forall|t: int| 0 <= t <= nc ==> #[trigger] full_gen@[t] < 113,
            i <= nd_loop,
            lfsr@.len() == nc,
            forall|j: int| 0 <= j < nc ==> #[trigger] lfsr@[j] < 113,
            lfsr@.map_values(|v: u32| v as int) == lfsr_run(stream.subrange(0, i as int), gs, nc as nat),
        decreases nd_loop - i,
    {
        let datum: u32 = if i == 0 {
            leading as u32
        } else {
            data[i - 1] as u32
        };
        let ghost before = lfsr@.map_values(|v: u32| v as int);
        let tmp = (datum + P - lfsr[0]) % P;
        let mut j: usize = 0;
        while j < nc - 1
            invariant
                nc >= 3,
                j <= nc - 1,
                lfsr@.len() == nc,
                tmp < 113,
                full_gen@.len() == nc + 1,
                forall|t: int| 0 <= t <= nc ==> #[trigger] full_gen@[t] < 113,
                forall|t: int| 0 <= t < nc ==> #[trigger] lfsr@[t] < 113,
                forall|t: int| j <= t < nc ==> #[trigger] lfsr@[t] as int == before[t],
                forall|t: int|
                    0 <= t < j ==> #[trigger] lfsr@[t] as int == (before[t + 1] + full_gen@[t + 1]
                        * tmp) % 113,
            decreases nc - 1 - j,
        {
            let coef = full_gen[j + 1];
            proof {
                lemma_small_product(coef, tmp);
            }
            let nv = (lfsr[j + 1] + coef * tmp) % P;
            lfsr.set(j, nv);
            j = j + 1;
        }
        proof {
            lemma_small_product(full_gen@[nc as int], tmp);
        }
        let last = (full_gen[nc] * tmp) % P;
        lfsr.set(nc - 1, last);
        proof {
            let s1 = stream.subrange(0, i as int + 1);
            assert(s1.drop_last() =~= stream.subrange(0, i as int));
            assert(s1.last() == datum as int);
            assert(lfsr@.map_values(|v: u32| v as int) =~= lfsr_step(before, datum as int, gs));
        }
        i = i + 1;
    }
    let mut out: Vec<u16> = Vec::new();
    let mut k: usize = 0;
    while k < nd_data
        invariant
            k <= nd_data,
            nd_data == data@.len(),
            forall|j: int| 0 <= j < data@.len() ==> #[trigger] data@[j] < 113,
            out@ == data@.subrange(0, k as int),
        decreases nd_data - k,
    {
        out.push(data[k]);
        k = k + 1;
        assert(out@ =~= data@.subrange(0, k as int));
    }
    let mut k: usize = 0;
    while k < nc
        invariant
            k <= nc,
            lfsr@.len() == nc,
            nd_data == data@.len(),
            forall|j: int| 0 <= j < nc ==> #[trigger] lfsr@[j] < 113,
            forall|j: int| 0 <= j < data@.len() ==> #[trigger] data@[j] < 113,
            out@ == data@ + lfsr@.subrange(0, k as int).map_values(|v: u32| v as u16),
            forall|j: int| 0 <= j < out@.len() ==> #[trigger] out@[j] < 113,
        decreases nc - k,
    {
        out.push(lfsr[k] as u16);
        k = k + 1;
        assert(out@[out@.len() - 1] < 113);
        assert(out@ =~= data@ + lfsr@.subrange(0, k as int).map_values(|v: u32| v as u16));
    }
    proof {
        assert(stream.subrange(0, nd_loop as int) =~= stream);
        assert(lfsr@.subrange(0, nc as int).map_values(|v: u32| v as u16) =~= rs_checks(
            leading as int,
            data@,
        ).map_values(|v: int| v as u16));
    }
    out
}

/// [`apply_rs_ecc_with_leading`] with the leading value `0`.
pub fn apply_rs_ecc(data: &[u16]) -> (out: Vec<u16>)
    requires
        data@.len() < usize::MAX / 2,
        forall|k: int| 0 <= k < data@.len() ==> #[trigger] data@[k] < 113,
    ensures
        out@ == rs_spec(0, data@),
{
    apply_rs_ecc_with_leading(0, data)
}

/// Codeword `p` of the masked stream.
pub open spec fn masked(mask: int, cws: Seq<u16>, p: int) -> u16 {
    ((cws[p] + p * MASK_VALS@[mask]) % 113) as u16
}

/// The masked stream.
pub open spec fn masked_seq(mask: int, cws: Seq<u16>) -> Seq<u16> {
    Seq::new(cws.len(), |p: int| masked(mask, cws, p))
}

/// Masking loses nothing: subtracting the mask's step again, modulo 113,
/// gives back every codeword below 113.
pub proof fn law_mask_reversible(mask: int, cws: Seq<u16>, p: int)
    requires
        0 <= mask < 4,
        0 <= p < cws.len(),
        cws[p] < 113,
    ensures
        (masked(mask, cws, p) + 113 - (p * MASK_VALS@[mask]) % 113) % 113 == cws[p],
{
    let x = cws[p] as int;
    let k = p * MASK_VALS@[mask];
    let mv = MASK_VALS@[mask] as int;
    assert(k >= 0) by (nonlinear_arith)
        requires
            k == p * mv,
            p >= 0,
            mv >= 0,
    ;
    vstd::arithmetic::div_mod::lemma_fundamental_div_mod(x + k, 113);
    vstd::arithmetic::div_mod::lemma_fundamental_div_mod(k, 113);
    let q1 = (x + k) / 113;
    let q2 = k / 113;
    let r1 = (x + k) % 113;
    let r2 = k % 113;
    assert(masked(mask, cws, p) == r1);
    assert(r1 + 113 - r2 == (1 - q1 + q2) * 113 + x);
    vstd::arithmetic::div_mod::lemma_fundamental_div_mod_converse(r1 + 113 - r2, 113, 1 - q1 + q2, x);
}

/// Every masked sum `cws[p] + p * MASK_VALS[mask]` fits the 32-bit
/// accumulator.
pub open spec fn mask_fits(mask: int, cws: Seq<u16>) -> bool {
    forall|p: int| 0 <= p < cws.len() ==> #[trigger] cws[p] + p * MASK_VALS@[mask] <= u32::MAX
}

/// Mask 0 changes nothing: every codeword below 113 stays as it is.
pub proof fn law_mask_zero_identity(cws: Seq<u16>)
    requires
        forall|k: int| 0 <= k < cws.len() ==> #[trigger] cws[k] < 113,
    ensures
        masked_seq(0, cws) == cws,
{
    assert(MASK_VALS@[0] == 0);
    assert forall|p: int| 0 <= p < cws.len() implies #[trigger] masked_seq(0, cws)[p] == cws[p] by {
        assert(p * 0 == 0);
        assert(cws[p] < 113);
    }
    assert(masked_seq(0, cws) =~= cws);
}

/// Adds `p * MASK_VALS[mask]` to codeword `p`, modulo 113.
pub fn mask_transform_cws(mask: u8, cws: &[u16]) -> (out: Vec<u16>)
    requires
        mask < 4,
        mask_fits(mask as int, cws@),
    ensures
        out@ == masked_seq(mask as int, cws@),
        forall|p: int| 0 <= p < cws@.len() ==> #[trigger] out@[p] < 113,
{
    let mv: u32 = MASK_VALS[mask as usize];
    let mut out: Vec<u16> = Vec::new();
    let mut p: usize = 0;
    while p < cws.len()
        invariant
            p <= cws@.len(),
            mask_fits(mask as int, cws@),
            mv == MASK_VALS@[mask as int],
            mv <= 17,
            out@.len() == p,
            forall|q: int| 0 <= q < p ==> #[trigger] out@[q] == masked(mask as int, cws@, q),
            forall|q: int| 0 <= q < p ==> #[trigger] out@[q] < 113,
        decreases cws@.len() - p,
    {
        assert(cws@[p as int] + p * mv <= u32::MAX);
        assert(p * mv <= u32::MAX) by (nonlinear_arith)
            requires
                cws@[p as int] + p * mv <= u32::MAX,
                cws@[p as int] >= 0,
        ;
        let v = ((cws[p] as u64 + (p as u64) * (mv as u64)) % 113) as u16;
        out.push(v);
        p = p + 1;
    }
    assert(out@ =~= masked_seq(mask as int, cws@));
    out
}

/// The masked stream of `padded` followed by its check codewords, with
/// the mask number fed first.
pub fn encode_for_mask(mask: u8, padded_cws: &[u16]) -> (out: Vec<u16>)
    requires
        mask < 4,
        mask_fits(mask as int, padded_cws@),
        padded_cws@.len() < usize::MAX / 2,
    ensures
        out@ == rs_spec(mask as int, masked_seq(mask as int, padded_cws@)),
        out@.len() == padded_cws@.len() + padded_cws@.len() / 2 + 3,
        forall|k: int| 0 <= k < out@.len() ==> #[trigger] out@[k] < 113,
{
    let transformed = mask_transform_cws(mask, padded_cws);
    apply_rs_ecc_with_leading(mask as u16, transformed.as_slice())
}

/// `x^n`.
pub open spec fn xpow(x: int, n: nat) -> int
    decreases n,
{
    if n == 0 {
        1
    } else {
        x * xpow(x, (n - 1) as nat)
    }
}

/// The value at `x` of a polynomial given by its coefficients, highest
/// degree first.
pub open spec fn poly_at(c: Seq<int>, x: int) -> int
    decreases c.len(),
{
    if c.len() == 0 {
        0
    } else {
        poly_at(c.drop_last(), x) * x + c.last()
    }
}

proof fn lemma_poly_concat(a: Seq<int>, b: Seq<int>, x: int)
    ensures
        poly_at(a + b, x) == poly_at(a, x) * xpow(x, b.len()) + poly_at(b, x),
    decreases b.len(),
{
    if b.len() == 0 {
        assert(a + b =~= a);
    } else {
        lemma_poly_concat(a, b.drop_last(), x);
        assert((a + b).drop_last() =~= a + b.drop_last());
        assert((a + b).last() == b.last());
        let pa = poly_at(a, x);
        let w = xpow(x, (b.len() - 1) as nat);
        let pb = poly_at(b.drop_last(), x);
        assert((pa * w + pb) * x + b.last() == pa * (x * w) + (pb * x + b.last())) by (nonlinear_arith);
    }
}

proof fn lemma_poly_linear(a: Seq<int>, b: Seq<int>, c: Seq<int>, k: int, x: int)
    requires
        a.len() == b.len() == c.len(),
        forall|t: int| 0 <= t < a.len() ==> #[trigger] c[t] == a[t] + k * b[t],
    ensures
        poly_at(c, x) == poly_at(a, x) + k * poly_at(b, x),
    decreases a.len(),
{
    if a.len() > 0 {
        lemma_poly_linear(a.drop_last(), b.drop_last(), c.drop_last(), k, x);
        let n = a.len() - 1;
        assert(c[n] == a[n] + k * b[n]);
        let pa = poly_at(a.drop_last(), x);
        let pb = poly_at(b.drop_last(), x);
        assert((pa + k * pb) * x + (a[n] + k * b[n]) == (pa * x + a[n]) + k * (pb * x + b[n])) by (nonlinear_arith);
    }
}

proof fn lemma_mod_zero_mul(e: int, x: int)
    requires
        e % 113 == 0,
    ensures
        (e * x) % 113 == 0,
{
    lemma_mul_mod_noop_left(e, x, 113);
}

proof fn lemma_mod_zero_add(a: int, b: int)
    requires
        a % 113 == 0,
        b % 113 == 0,
    ensures
        (a + b) % 113 == 0,
{
    lemma_add_mod_noop(a, b, 113);
}

/// Coefficients equal modulo 113 give values equal modulo 113.
proof fn lemma_poly_cong(c: Seq<int>, d: Seq<int>, x: int)
    requires
        c.len() == d.len(),
        forall|t: int| 0 <= t < c.len() ==> (#[trigger] c[t] - d[t]) % 113 == 0,
    ensures
        (poly_at(c, x) - poly_at(d, x)) % 113 == 0,
    decreases c.len(),
{
    if c.len() > 0 {
        lemma_poly_cong(c.drop_last(), d.drop_last(), x);
        let n = c.len() - 1;
        assert((c[n] - d[n]) % 113 == 0);
        let e = poly_at(c.drop_last(), x) - poly_at(d.drop_last(), x);
        lemma_mod_zero_mul(e, x);
        lemma_mod_zero_add(e * x, c[n] - d[n]);
        assert(poly_at(c, x) - poly_at(d, x) == e * x + (c[n] - d[n])) by (nonlinear_arith)
            requires
                poly_at(c, x) == poly_at(c.drop_last(), x) * x + c[n],
                poly_at(d, x) == poly_at(d.drop_last(), x) * x + d[n],
                e == poly_at(c.drop_last(), x) - poly_at(d.drop_last(), x),
        ;
    }
}

/// `v % 113` differs from `v` by a multiple of 113.
proof fn lemma_mod_cong(v: int)
    ensures
        (v % 113 - v) % 113 == 0,
{
    lemma_fundamental_div_mod(v, 113);
    let q = v / 113;
    assert(v % 113 - v == 113 * (0 - q));
    vstd::arithmetic::div_mod::lemma_mod_multiples_basic(0 - q, 113);
    assert((113 * (0 - q)) % 113 == ((0 - q) * 113) % 113) by (nonlinear_arith);
}

proof fn lemma_poly_single(v: int, x: int)
    ensures
        poly_at(seq![v], x) == v,
{
    let one = seq![v];
    assert(one.drop_last() =~= Seq::<int>::empty());
    assert(poly_at(Seq::<int>::empty(), x) == 0);
    assert(poly_at(one, x) == poly_at(one.drop_last(), x) * x + one.last());
    assert(0 * x == 0) by (nonlinear_arith);
}

proof fn lemma_poly_zeros(n: nat, x: int)
    ensures
        poly_at(Seq::new(n, |j: int| 0int), x) == 0,
    decreases n,
{
    if n > 0 {
        let z = Seq::new(n, |j: int| 0int);
        lemma_poly_zeros((n - 1) as nat, x);
        assert(z.drop_last() =~= Seq::new((n - 1) as nat, |j: int| 0int));
        assert(0 * x == 0) by (nonlinear_arith);
    }
}

proof fn lemma_gen_poly_lead(k: nat)
    ensures
        gen_poly(k)[0] == 1,
    decreases k,
{
    if k > 0 {
        lemma_gen_poly_lead((k - 1) as nat);
        lemma_gen_poly_len((k - 1) as nat);
    }
}

/// Multiplying by `(x - r)` multiplies the value by `(x - r)`, modulo 113.
proof fn lemma_mul_root_at(g: Seq<int>, r: int, x: int)
    requires
        g.len() >= 1,
    ensures
        (poly_at(mul_root(g, r), x) - poly_at(g, x) * (x - r)) % 113 == 0,
{
    let n = g.len() as int;
    let m = mul_root(g, r);
    let a = g.push(0);
    let b = seq![0int] + g;
    let c = Seq::new((n + 1) as nat, |t: int| a[t] + (0 - r) * b[t]);
    assert forall|t: int| 0 <= t < m.len() implies (#[trigger] m[t] - c[t]) % 113 == 0 by {
        if t == 0 {
            assert(b[0] == 0);
            assert(m[t] - c[t] == 0);
        } else if t < n {
            assert(a[t] == g[t]);
            assert(b[t] == g[t - 1]);
            lemma_mod_cong(g[t] - r * g[t - 1]);
            assert(c[t] == g[t] - r * g[t - 1]) by (nonlinear_arith)
                requires
                    c[t] == a[t] + (0 - r) * b[t],
                    a[t] == g[t],
                    b[t] == g[t - 1],
            ;
        } else {
            assert(a[t] == 0);
            assert(b[t] == g[t - 1]);
            lemma_mod_cong(0 - r * g[t - 1]);
            assert(c[t] == 0 - r * g[t - 1]) by (nonlinear_arith)
                requires
                    c[t] == a[t] + (0 - r) * b[t],
                    a[t] == 0,
                    b[t] == g[t - 1],
            ;
        }
    }
    lemma_poly_cong(m, c, x);
    lemma_poly_linear(a, b, c, 0 - r, x);
    lemma_poly_concat(g, seq![0int], x);
    lemma_poly_concat(seq![0int], g, x);
    lemma_poly_single(0, x);
    assert(xpow(x, 1) == x) by {
        assert(xpow(x, 0) == 1);
    }
    assert(poly_at(a, x) == poly_at(g, x) * x) by {
        assert(g + seq![0int] =~= a);
    }
    assert(poly_at(c, x) == poly_at(g, x) * (x - r)) by (nonlinear_arith)
        requires
            poly_at(c, x) == poly_at(a, x) + (0 - r) * poly_at(b, x),
            poly_at(a, x) == poly_at(g, x) * x,
            poly_at(b, x) == 0 * xpow(x, g.len()) + poly_at(g, x),
    ;
}

/// The generator polynomial of degree `k` vanishes, modulo 113, at
/// `3^j` for `1 <= j <= k`.
pub proof fn lemma_gen_poly_roots(k: nat, j: nat)
    requires
        1 <= j <= k,
    ensures
        poly_at(gen_poly(k), pow3(j)) % 113 == 0,
    decreases k,
{
    let g = gen_poly((k - 1) as nat);
    lemma_gen_poly_len((k - 1) as nat);
    let x = pow3(j);
    lemma_mul_root_at(g, pow3(k), x);
    let e = poly_at(gen_poly(k), x) - poly_at(g, x) * (x - pow3(k));
    if j == k {
        assert(poly_at(g, x) * (x - pow3(k)) == 0) by (nonlinear_arith)
            requires
                x == pow3(k),
        ;
    } else {
        lemma_gen_poly_roots((k - 1) as nat, j);
        lemma_mod_zero_mul(poly_at(g, x), x - pow3(k));
        lemma_mod_zero_add(e, poly_at(g, x) * (x - pow3(k)));
    }
}

/// One register step keeps `s(x) * x^nc + R(x)` a multiple of 113 at any
/// root of the generator.
proof fn lemma_lfsr_step_at(s: Seq<int>, lfsr: Seq<int>, d: int, g: Seq<int>, x: int)
    requires
        lfsr.len() >= 1,
        g.len() == lfsr.len() + 1,
        g[0] == 1,
        poly_at(g, x) % 113 == 0,
        (poly_at(s, x) * xpow(x, lfsr.len()) + poly_at(lfsr, x)) % 113 == 0,
    ensures
        (poly_at(s.push(d), x) * xpow(x, lfsr.len()) + poly_at(lfsr_step(lfsr, d, g), x)) % 113
            == 0,
{
    let nc = lfsr.len() as int;
    let tmp = (d + 113 - lfsr[0]) % 113;
    let nl = lfsr_step(lfsr, d, g);
    let u = lfsr.subrange(1, nc) + seq![0int];
    let v = g.subrange(1, nc + 1);
    let w = Seq::new(nc as nat, |t: int| u[t] + tmp * v[t]);
    assert forall|t: int| 0 <= t < nl.len() implies (#[trigger] nl[t] - w[t]) % 113 == 0 by {
        if t < nc - 1 {
            assert(u[t] == lfsr[t + 1]);
            assert(v[t] == g[t + 1]);
            lemma_mod_cong(lfsr[t + 1] + g[t + 1] * tmp);
            assert(w[t] == lfsr[t + 1] + g[t + 1] * tmp) by (nonlinear_arith)
                requires
                    w[t] == u[t] + tmp * v[t],
                    u[t] == lfsr[t + 1],
                    v[t] == g[t + 1],
            ;
        } else {
            assert(u[t] == 0);
            assert(v[t] == g[nc]);
            lemma_mod_cong(g[nc] * tmp);
            assert(w[t] == g[nc] * tmp) by (nonlinear_arith)
                requires
                    w[t] == u[t] + tmp * v[t],
                    u[t] == 0,
                    v[t] == g[nc],
            ;
        }
    }
    lemma_poly_cong(nl, w, x);
    lemma_poly_linear(u, v, w, tmp, x);
    let rest = lfsr.subrange(1, nc);
    assert(lfsr =~= seq![lfsr[0]] + rest);
    lemma_poly_concat(seq![lfsr[0]], rest, x);
    lemma_poly_single(lfsr[0], x);
    lemma_poly_concat(rest, seq![0int], x);
    lemma_poly_single(0, x);
    assert(xpow(x, 1) == x) by {
        assert(xpow(x, 0) == 1);
    }
    assert(g =~= seq![1int] + v);
    lemma_poly_concat(seq![1int], v, x);
    lemma_poly_single(1, x);
    assert(s.push(d).drop_last() =~= s);
    let p = poly_at(s, x);
    let q = poly_at(lfsr, x);
    let gx = poly_at(g, x);
    let xn = xpow(x, nc as nat);
    let xm = xpow(x, (nc - 1) as nat);
    assert(xn == x * xm);
    let pr = poly_at(rest, x);
    let pu = poly_at(u, x);
    let pv = poly_at(v, x);
    assert(q == lfsr[0] * xm + pr);
    assert(pu == pr * x);
    assert(gx == xn + pv);
    lemma_mod_cong(d + 113 - lfsr[0]);
    let big = p * xn + q;
    lemma_fundamental_div_mod(big, 113);
    lemma_fundamental_div_mod(gx, 113);
    lemma_fundamental_div_mod(tmp - (d + 113 - lfsr[0]), 113);
    let k1 = big / 113;
    let k2 = gx / 113;
    let k3 = (tmp - (d + 113 - lfsr[0])) / 113;
    let total = (p * x + d) * xn + (pu + tmp * pv);
    let l0 = lfsr[0];
    assert(pu == q * x - l0 * xn) by (nonlinear_arith)
        requires
            q == l0 * xm + pr,
            pu == pr * x,
            xn == x * xm,
    ;
    let c0 = d - l0 - tmp;
    assert(total == x * big + c0 * xn + tmp * gx) by (nonlinear_arith)
        requires
            total == (p * x + d) * xn + (pu + tmp * pv),
            big == p * xn + q,
            pu == q * x - l0 * xn,
            pv == gx - xn,
            c0 == d - l0 - tmp,
    ;
    assert(c0 == 113 * (0 - 1 - k3));
    assert(x * big == 113 * (x * k1)) by (nonlinear_arith)
        requires
            big == 113 * k1,
    ;
    assert(c0 * xn == 113 * ((0 - 1 - k3) * xn)) by (nonlinear_arith)
        requires
            c0 == 113 * (0 - 1 - k3),
    ;
    assert(tmp * gx == 113 * (tmp * k2)) by (nonlinear_arith)
        requires
            gx == 113 * k2,
    ;
    assert(total == 113 * (x * k1 + tmp * k2 + (0 - 1 - k3) * xn));
    vstd::arithmetic::div_mod::lemma_mod_multiples_basic(x * k1 + tmp * k2 + (0 - 1 - k3) * xn, 113);
    assert((113 * (x * k1 + tmp * k2 + (0 - 1 - k3) * xn)) % 113 == ((x * k1 + tmp * k2 + (0 - 1 - k3) * xn) * 113) % 113) by (nonlinear_arith);
    let lhs = poly_at(s.push(d), x) * xn + poly_at(nl, x);
    assert(poly_at(s.push(d), x) == p * x + d);
    assert(lhs - total == poly_at(nl, x) - poly_at(w, x));
    lemma_mod_zero_add(lhs - total, total);
}

proof fn lemma_lfsr_run_at(stream: Seq<int>, g: Seq<int>, nc: nat, x: int)
    requires
        nc >= 1,
        g.len() == nc + 1,
        g[0] == 1,
        poly_at(g, x) % 113 == 0,
    ensures
        lfsr_run(stream, g, nc).len() == nc,
        (poly_at(stream, x) * xpow(x, nc) + poly_at(lfsr_run(stream, g, nc), x)) % 113 == 0,
    decreases stream.len(),
{
    if stream.len() == 0 {
        lemma_poly_zeros(nc, x);
        assert(lfsr_run(stream, g, nc) =~= Seq::new(nc, |j: int| 0int));
    } else {
        lemma_lfsr_run_at(stream.drop_last(), g, nc, x);
        assert(stream.drop_last().push(stream.last()) =~= stream);
        lemma_lfsr_step_at(stream.drop_last(), lfsr_run(stream.drop_last(), g, nc), stream.last(), g, x);
    }
}

/// The Reed-Solomon check codewords protect the symbol: the leading value,
/// the data and the check codewords, read as a polynomial over GF(113),
/// vanish at every root `3^j` (`1 <= j <= nc`) of the generator.
pub proof fn law_rs_syndromes_vanish(leading: int, data: Seq<u16>, j: nat)
    requires
        1 <= j <= check_count(data.len() as int),
    ensures
        poly_at(
            seq![leading] + data.map_values(|c: u16| c as int) + rs_checks(leading, data),
            pow3(j),
        ) % 113 == 0,
{
    let nc = check_count(data.len() as int) as nat;
    let g = gen_poly(nc);
    let stream = seq![leading] + data.map_values(|c: u16| c as int);
    let x = pow3(j);
    lemma_gen_poly_len(nc);
    lemma_gen_poly_lead(nc);
    lemma_gen_poly_roots(nc, j);
    lemma_lfsr_run_at(stream, g, nc, x);
    lemma_poly_concat(stream, rs_checks(leading, data), x);
}

proof fn lemma_mul3_mod(y: int)
    requires
        (3 * y) % 113 == 0,
    ensures
        y % 113 == 0,
{
    lemma_fundamental_div_mod(3 * y, 113);
    let k = (3 * y) / 113;
    assert(3 * y == 113 * k);
    let t = 38 * k - y;
    assert(y == t * 113);
    vstd::arithmetic::div_mod::lemma_mod_multiples_basic(t, 113);
}

proof fn lemma_nonzero_times_pow(d: int, m: nat)
    requires
        d % 113 != 0,
    ensures
        (d * xpow(3, m)) % 113 != 0,
    decreases m,
{
    if m > 0 {
        lemma_nonzero_times_pow(d, (m - 1) as nat);
        let y = d * xpow(3, (m - 1) as nat);
        assert(d * xpow(3, m) == 3 * y) by (nonlinear_arith)
            requires
                xpow(3, m) == 3 * xpow(3, (m - 1) as nat),
                y == d * xpow(3, (m - 1) as nat),
        ;
        if (3 * y) % 113 == 0 {
            lemma_mul3_mod(y);
        }
    } else {
        assert(d * 1 == d);
    }
}

/// The leading value fed into the register shows in the check codewords:
/// two different leading values below 113 give different check codewords
/// for the same data.
pub proof fn law_leading_changes_checks(a: int, b: int, data: Seq<u16>)
    requires
        0 <= a < 113,
        0 <= b < 113,
        a != b,
    ensures
        rs_checks(a, data) != rs_checks(b, data),
{
    if rs_checks(a, data) == rs_checks(b, data) {
        let r = data.map_values(|c: u16| c as int) + rs_checks(a, data);
        law_rs_syndromes_vanish(a, data, 1);
        law_rs_syndromes_vanish(b, data, 1);
        assert(pow3(0) == 1);
        assert(pow3(1) == (pow3(0) * 3) % 113);
        assert(pow3(1) == 3);
        assert(seq![a] + data.map_values(|c: u16| c as int) + rs_checks(a, data) =~= seq![a] + r);
        assert(seq![b] + data.map_values(|c: u16| c as int) + rs_checks(b, data) =~= seq![b] + r);
        lemma_poly_concat(seq![a], r, 3);
        lemma_poly_concat(seq![b], r, 3);
        lemma_poly_single(a, 3);
        lemma_poly_single(b, 3);
        let w = xpow(3, r.len());
        let pr = poly_at(r, 3);
        assert((a - b) * w == (a * w + pr) - (b * w + pr)) by (nonlinear_arith);
        assert((-(b * w + pr)) % 113 == 0) by {
            let v = b * w + pr;
            lemma_fundamental_div_mod(v, 113);
            vstd::arithmetic::div_mod::lemma_mod_multiples_basic(-(v / 113), 113);
            assert(-v == (-(v / 113)) * 113);
        }
        lemma_mod_zero_add(a * w + pr, -(b * w + pr));
        assert((a - b) % 113 != 0);
        lemma_nonzero_times_pow(a - b, r.len());
    }
}

} // verus!
