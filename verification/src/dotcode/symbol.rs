//! The DotCode pipeline end to end: bit string, mask choice, symbol.

use vstd::prelude::*;

use super::ecc::{encode_for_mask, masked_seq, rs_spec, MASK_VALS};
use super::eval::{eval_spec, eval_symbol_score};
use super::layout::{apply_lit_mask, grid_ok, lit_spec, render_pixs, render_spec};
use super::size::SymbolSize;
use super::tables::{ENCS, MASK_BITS};
use crate::text::push_char;

verus! {

/// Bit weights of a nine-bit codeword pattern, most significant first.
pub const BIT_WEIGHTS: [u32; 9] = [256, 128, 64, 32, 16, 8, 4, 2, 1];

/// The nine bits of `v`, most significant first, as `'0'`/`'1'`.
pub open spec fn nine_bits(v: int) -> Seq<char> {
    Seq::new(9, |k: int| if (v / BIT_WEIGHTS@[k] as int) % 2 == 1 {
        '1'
    } else {
        '0'
    })
}

/// The dot patterns of a codeword stream, in order.
pub open spec fn cws_bits(cws: Seq<u16>) -> Seq<char>
    decreases cws.len(),
{
    if cws.len() == 0 {
        Seq::empty()
    } else {
        cws_bits(cws.drop_last()) + nine_bits(ENCS@[cws.last() as int] as int)
    }
}

/// The bit string of a symbol: the two mask bits, nine bits per codeword,
/// then `1`s up to `ndots`.
pub open spec fn bits_spec(cws: Seq<u16>, mask: int, ndots: int) -> Seq<char> {
    MASK_BITS@[mask]@ + cws_bits(cws) + Seq::new((ndots - cws.len() * 9 - 2) as nat, |k: int| '1')
}

proof fn lemma_cws_bits(cws: Seq<u16>)
    ensures
        cws_bits(cws).len() == cws.len() * 9,
        forall|k: int| 0 <= k < cws_bits(cws).len() ==> #[trigger] cws_bits(cws)[k] == '0' || cws_bits(cws)[k] == '1',
    decreases cws.len(),
{
    if cws.len() > 0 {
        lemma_cws_bits(cws.drop_last());
    }
}

proof fn lemma_mask_bits(mask: int)
    requires
        0 <= mask < 4,
    ensures
        MASK_BITS@[mask]@.len() == 2,
        forall|k: int| 0 <= k < 2 ==> #[trigger] MASK_BITS@[mask]@[k] == '0' || MASK_BITS@[mask]@[k] == '1',
{
    reveal_strlit("00");
    reveal_strlit("01");
    reveal_strlit("10");
    reveal_strlit("11");
}

/// `bits_spec` has `ndots` characters, each `'0'` or `'1'`.
pub proof fn lemma_bits_shape(cws: Seq<u16>, mask: int, ndots: int)
    requires
        0 <= mask < 4,
        ndots >= cws.len() * 9 + 2,
    ensures
        bits_spec(cws, mask, ndots).len() == ndots,
        forall|k: int|
            0 <= k < ndots ==> #[trigger] bits_spec(cws, mask, ndots)[k] == '0' || bits_spec(
                cws,
                mask,
                ndots,
            )[k] == '1',
{
    lemma_cws_bits(cws);
    lemma_mask_bits(mask);
    let b = bits_spec(cws, mask, ndots);
    assert forall|k: int| 0 <= k < ndots implies #[trigger] b[k] == '0' || b[k] == '1' by {
        if k < 2 {
        } else if k < 2 + cws.len() * 9 {
            assert(b[k] == cws_bits(cws)[k - 2]);
        } else {
        }
    }
}

proof fn lemma_cws_bits_at(cws: Seq<u16>)
    ensures
        cws_bits(cws).len() == cws.len() * 9,
        forall|i: int|
            0 <= i < cws.len() ==> #[trigger] cws_bits(cws).subrange(9 * i, 9 * i + 9) == nine_bits(
                ENCS@[cws[i] as int] as int,
            ),
    decreases cws.len(),
{
    if cws.len() > 0 {
        let t = cws.drop_last();
        lemma_cws_bits_at(t);
        let b = cws_bits(cws);
        assert forall|i: int| 0 <= i < cws.len() implies #[trigger] b.subrange(9 * i, 9 * i + 9)
            == nine_bits(ENCS@[cws[i] as int] as int) by {
            if i < t.len() {
                assert(b.subrange(9 * i, 9 * i + 9) =~= cws_bits(t).subrange(9 * i, 9 * i + 9));
                assert(t[i] == cws[i]);
            } else {
                assert(b.subrange(9 * i, 9 * i + 9) =~= nine_bits(ENCS@[cws.last() as int] as int));
            }
        }
    }
}

/// The layout of the bit string: `ndots` characters; the mask's two bits
/// first; then, for each codeword `i`, characters `2 + 9i .. 11 + 9i` are
/// the nine-bit binary pattern of `ENCS[cws[i]]`, most significant bit
/// first; every character after the last codeword is `'1'`.
pub proof fn law_bits_layout(cws: Seq<u16>, mask: int, ndots: int)
    requires
        0 <= mask < 4,
        ndots >= cws.len() * 9 + 2,
    ensures
        bits_spec(cws, mask, ndots).len() == ndots,
        bits_spec(cws, mask, ndots).subrange(0, 2) == MASK_BITS@[mask]@,
        forall|i: int|
            0 <= i < cws.len() ==> #[trigger] bits_spec(cws, mask, ndots).subrange(
                2 + 9 * i,
                11 + 9 * i,
            ) == nine_bits(ENCS@[cws[i] as int] as int),
        forall|k: int| cws.len() * 9 + 2 <= k < ndots ==> #[trigger] bits_spec(cws, mask, ndots)[k] == '1',
{
    lemma_bits_shape(cws, mask, ndots);
    lemma_mask_bits(mask);
    lemma_cws_bits_at(cws);
    let b = bits_spec(cws, mask, ndots);
    assert(b.subrange(0, 2) =~= MASK_BITS@[mask]@);
    assert forall|i: int| 0 <= i < cws.len() implies #[trigger] b.subrange(2 + 9 * i, 11 + 9 * i)
        == nine_bits(ENCS@[cws[i] as int] as int) by {
        assert(b.subrange(2 + 9 * i, 11 + 9 * i) =~= cws_bits(cws).subrange(9 * i, 9 * i + 9));
    }
}

/// The bit string: mask bits, the nine-dot pattern of each codeword, and
/// `1` fill up to `ndots`.
pub fn build_bits(rscws: &[u16], mask: u8, ndots: usize) -> (bits: String)
    requires
        mask < 4,
        forall|k: int| 0 <= k < rscws@.len() ==> #[trigger] rscws@[k] < 113,
        rscws@.len() * 9 + 2 <= ndots,
    ensures
        bits@ == bits_spec(rscws@, mask as int, ndots as int),
{
    let nw = rscws.len();
    let rembits = ndots - (nw * 9 + 2);
    let mut bits = String::new();
    bits.append(MASK_BITS[mask as usize]);
    let mut i: usize = 0;
    while i < nw
        invariant
            nw == rscws@.len(),
            i <= nw,
            forall|k: int| 0 <= k < rscws@.len() ==> #[trigger] rscws@[k] < 113,
            bits@ == MASK_BITS@[mask as int]@ + cws_bits(rscws@.subrange(0, i as int)),
        decreases nw - i,
    {
        let pat = ENCS[rscws[i] as usize] as u32;
        let ghost before = bits@;
        let mut k: usize = 0;
        while k < 9
            invariant
                k <= 9,
                bits@ == before + nine_bits(pat as int).subrange(0, k as int),
            decreases 9 - k,
        {
            let c = if (pat / BIT_WEIGHTS[k]) % 2 == 1 {
                '1'
            } else {
                '0'
            };
            push_char(&mut bits, c);
            k = k + 1;
            assert(bits@ =~= before + nine_bits(pat as int).subrange(0, k as int));
        }
        proof {
            let pre = rscws@.subrange(0, i as int + 1);
            assert(pre.drop_last() =~= rscws@.subrange(0, i as int));
            assert(nine_bits(pat as int).subrange(0, 9) =~= nine_bits(pat as int));
            assert(bits@ =~= MASK_BITS@[mask as int]@ + cws_bits(pre));
        }
        i = i + 1;
    }
    let ghost mid = bits@;
    let mut r: usize = 0;
    while r < rembits
        invariant
            r <= rembits,
            bits@ == mid + Seq::new(r as nat, |k: int| '1'),
        decreases rembits - r,
    {
        push_char(&mut bits, '1');
        r = r + 1;
        assert(bits@ =~= mid + Seq::new(r as nat, |k: int| '1'));
    }
    proof {
        assert(rscws@.subrange(0, nw as int) =~= rscws@);
    }
    bits
}

/// The grid rendered for mask `mask`.
pub open spec fn mask_grid(padded: Seq<u16>, mask: int, rows: int, columns: int, ndots: int) -> Seq<i8> {
    render_spec(rows, columns, bits_spec(rs_spec(mask, masked_seq(mask, padded)), mask, ndots))
}

/// The first of four masks with the highest score.
pub open spec fn first_best(s: Seq<int>) -> int {
    let b1: int = if s[1] > s[0] {
        1
    } else {
        0
    };
    let b2: int = if s[2] > s[b1] {
        2
    } else {
        b1
    };
    if s[3] > s[b2] {
        3
    } else {
        b2
    }
}

/// [`first_best`] is the least index of a highest score: no score beats
/// it, and every earlier score is lower.
pub proof fn law_first_best_least_argmax(s: Seq<int>)
    requires
        s.len() == 4,
    ensures
        0 <= first_best(s) < 4,
        forall|m: int| 0 <= m < 4 ==> #[trigger] s[m] <= s[first_best(s)],
        forall|m: int| 0 <= m < first_best(s) ==> #[trigger] s[m] < s[first_best(s)],
{
}

/// The mask chosen and the grid kept: the best-scoring mask's grid, unless
/// its score is at most half the cell count, in which case the grids with
/// the six corners lit are scored again and the best of those is kept.
pub open spec fn best_mask_spec(padded: Seq<u16>, rows: int, columns: int, ndots: int) -> (int, Seq<i8>) {
    let sc = mask_scores(padded, rows, columns, ndots);
    let b = first_best(sc);
    if sc[b] > rows * columns / 2 {
        (b, mask_grid(padded, b, rows, columns, ndots))
    } else {
        let lb = first_best(lit_scores(padded, rows, columns, ndots));
        (lb, lit_spec(rows, columns, mask_grid(padded, lb, rows, columns, ndots)))
    }
}

/// The scores of the four masked grids.
pub open spec fn mask_scores(padded: Seq<u16>, rows: int, columns: int, ndots: int) -> Seq<int> {
    Seq::new(4, |m: int| eval_spec(mask_grid(padded, m, rows, columns, ndots), rows, columns))
}

/// The scores of the four masked grids with all corners lit.
pub open spec fn lit_scores(padded: Seq<u16>, rows: int, columns: int, ndots: int) -> Seq<int> {
    Seq::new(
        4,
        |m: int| eval_spec(lit_spec(rows, columns, mask_grid(padded, m, rows, columns, ndots)), rows, columns),
    )
}

/// The mask chosen is the first with the highest score; when that score
/// is at most half the cells, the grids are scored again with every corner
/// lit and the first best of those is taken, lit.
pub proof fn law_best_mask_choice(padded: Seq<u16>, rows: int, columns: int, ndots: int)
    ensures
        ({
            let sc = mask_scores(padded, rows, columns, ndots);
            let ls = lit_scores(padded, rows, columns, ndots);
            let r = best_mask_spec(padded, rows, columns, ndots);
            &&& 0 <= r.0 < 4
            &&& sc[first_best(sc)] > rows * columns / 2 ==> {
                &&& forall|m: int| 0 <= m < 4 ==> #[trigger] sc[m] <= sc[r.0]
                &&& forall|m: int| 0 <= m < r.0 ==> #[trigger] sc[m] < sc[r.0]
                &&& r.1 == mask_grid(padded, r.0, rows, columns, ndots)
            }
            &&& sc[first_best(sc)] <= rows * columns / 2 ==> {
                &&& forall|m: int| 0 <= m < 4 ==> #[trigger] ls[m] <= ls[r.0]
                &&& forall|m: int| 0 <= m < r.0 ==> #[trigger] ls[m] < ls[r.0]
                &&& r.1 == lit_spec(rows, columns, mask_grid(padded, r.0, rows, columns, ndots))
            }
        }),
{
    law_first_best_least_argmax(mask_scores(padded, rows, columns, ndots));
    law_first_best_least_argmax(lit_scores(padded, rows, columns, ndots));
}

/// A size `sz` fits the padded codewords.
pub open spec fn size_fits(padded: Seq<u16>, sz: SymbolSize) -> bool {
    &&& grid_ok(sz.rows as int, sz.columns as int)
    &&& padded.len() == sz.nd
    &&& (padded.len() + padded.len() / 2 + 3) * 9 + 2 <= sz.ndots
    &&& sz.ndots < 0x100_0000
}

/// Picks the mask whose grid scores best (see [`best_mask_spec`]).
pub fn pick_best_mask(padded_cws: &[u16], sz: SymbolSize) -> (r: (u8, Vec<i8>))
    requires
        size_fits(padded_cws@, sz),
    ensures
        (r.0 as int, r.1@) == best_mask_spec(padded_cws@, sz.rows as int, sz.columns as int, sz.ndots as int),
        r.1@.len() == sz.rows * sz.columns,
{
    let ghost p = padded_cws@;
    let rows = sz.rows;
    let columns = sz.columns;
    let mut grids: Vec<Vec<i8>> = Vec::new();
    let mut scores: Vec<i64> = Vec::new();
    let mut best_mask: u8 = 0;
    let mut best_score: i64 = i64::MIN;
    let mut mask: u8 = 0;
    while mask < 4
        invariant
            size_fits(p, sz),
            p == padded_cws@,
            rows == sz.rows,
            columns == sz.columns,
            mask <= 4,
            grids@.len() == mask,
            scores@.len() == mask,
            forall|m: int| 0 <= m < mask ==> #[trigger] grids@[m]@ == mask_grid(p, m, rows as int, columns as int, sz.ndots as int),
            forall|m: int| 0 <= m < mask ==> #[trigger] grids@[m]@.len() == rows * columns,
            forall|m: int| 0 <= m < mask ==> #[trigger] scores@[m] as int == eval_spec(grids@[m]@, rows as int, columns as int),
            mask == 0 ==> best_mask == 0 && best_score == i64::MIN,
            mask > 0 ==> best_mask < mask && best_score == scores@[best_mask as int],
            mask >= 2 ==> best_mask as int == first_best_prefix(scores@, mask as int),
            mask == 1 ==> best_mask == 0,
        decreases 4 - mask,
    {
        proof {
            let mv = MASK_VALS@[mask as int] as int;
            assert(mv <= 17);
            assert forall|q: int| 0 <= q < p.len() implies #[trigger] p[q] + q * MASK_VALS@[mask as int]
                <= u32::MAX by {
                assert(q * mv <= 0x100_0000 * 17) by (nonlinear_arith)
                    requires
                        0 <= q < 0x100_0000,
                        0 <= mv <= 17,
                ;
            }
        }
        let rscws = encode_for_mask(mask, padded_cws);
        let bits = build_bits(rscws.as_slice(), mask, sz.ndots);
        proof {
            lemma_bits_shape(rscws@, mask as int, sz.ndots as int);
        }
        let pixs = render_pixs(rows, columns, bits.as_str());
        proof {
            super::layout::lemma_render_len(rows as int, columns as int, bits@);
        }
        let score = eval_symbol_score(&pixs, rows, columns);
        if score > best_score {
            best_score = score;
            best_mask = mask;
        }
        grids.push(pixs);
        scores.push(score);
        mask = mask + 1;
    }
    let threshold = (rows * columns) as i64 / 2;
    let ghost sc = seq![scores@[0] as int, scores@[1] as int, scores@[2] as int, scores@[3] as int];
    proof {
        assert(best_mask as int == first_best(sc));
    }
    if best_score > threshold {
        let g = grids[best_mask as usize].clone();
        return (best_mask, g);
    }
    let mut lits: Vec<Vec<i8>> = Vec::new();
    let mut lscores: Vec<i64> = Vec::new();
    let mut best_lit_mask: u8 = 0;
    let mut best_lit_score: i64 = i64::MIN;
    let mut m: u8 = 0;
    while m < 4
        invariant
            size_fits(p, sz),
            rows == sz.rows,
            columns == sz.columns,
            grids@.len() == 4,
            forall|j: int| 0 <= j < 4 ==> #[trigger] grids@[j]@ == mask_grid(p, j, rows as int, columns as int, sz.ndots as int),
            forall|j: int| 0 <= j < 4 ==> #[trigger] grids@[j]@.len() == rows * columns,
            forall|j: int| 0 <= j < m ==> #[trigger] lits@[j]@.len() == rows * columns,
            m <= 4,
            lits@.len() == m,
            lscores@.len() == m,
            forall|j: int| 0 <= j < m ==> #[trigger] lits@[j]@ == lit_spec(rows as int, columns as int, grids@[j]@),
            forall|j: int| 0 <= j < m ==> #[trigger] lscores@[j] as int == eval_spec(lits@[j]@, rows as int, columns as int),
            m == 0 ==> best_lit_mask == 0 && best_lit_score == i64::MIN,
            m > 0 ==> best_lit_mask < m && best_lit_score == lscores@[best_lit_mask as int],
            m >= 2 ==> best_lit_mask as int == first_best_prefix(lscores@, m as int),
            m == 1 ==> best_lit_mask == 0,
        decreases 4 - m,
    {
        let mut lit = grids[m as usize].clone();
        proof {
            super::layout::lemma_render_len(rows as int, columns as int, bits_spec(rs_spec(m as int, masked_seq(m as int, p)), m as int, sz.ndots as int));
        }
        let ghost before = lit@;
        apply_lit_mask(rows, columns, &mut lit);
        proof {
            super::layout::lemma_edge_prefix_len(rows as int, columns as int, before, seq![1i8, 1, 1, 1, 1, 1], 6);
        }
        let score = eval_symbol_score(&lit, rows, columns);
        if score > best_lit_score {
            best_lit_score = score;
            best_lit_mask = m;
        }
        lits.push(lit);
        lscores.push(score);
        m = m + 1;
    }
    let g = lits[best_lit_mask as usize].clone();
    (best_lit_mask, g)
}

/// The first best among the first `n` (2..=4) scores.
pub open spec fn first_best_prefix(s: Seq<i64>, n: int) -> int {
    let b1: int = if s[1] > s[0] {
        1
    } else {
        0
    };
    let b2: int = if n >= 3 && s[2] > s[b1] {
        2
    } else {
        b1
    };
    if n >= 4 && s[3] > s[b2] {
        3
    } else {
        b2
    }
}

} // verus!
