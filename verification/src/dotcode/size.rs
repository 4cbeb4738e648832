//! Symbol-size selection for DotCode: the smallest grid of aspect about
//! 3:2 (rows + columns odd) that holds the data and check codewords, and
//! the data capacity it then offers.

use vstd::prelude::*;

verus! {

/// Dots needed for `n` data codewords: a 2-bit mask selector plus nine
/// dots per data and check codeword (`n / 2 + 3` check codewords).
pub open spec fn fill_need(n: int) -> int {
    ((n + 3) + n / 2) * 9 + 2
}

/// Minimum grid area (twice the dots needed).
pub open spec fn min_area(n: int) -> int {
    fill_need(n) * 2
}

/// The largest `h >= start` reached by stepping up while
/// `den * (h + 1)^2 <= num`.
pub open spec fn fsqrt_from(num: int, den: int, h: int) -> int
    decreases num - h,
{
    if h >= num || den * (h + 1) * (h + 1) > num {
        h
    } else {
        fsqrt_from(num, den, h + 1)
    }
}

/// `floor(sqrt(num / den))`.
pub open spec fn floor_sqrt(num: int, den: int) -> int {
    fsqrt_from(num, den, 0)
}

/// Data sizes below 1024 for which the aspect test
/// `sqrt(m / 1.5) * w < sqrt(m * 1.5) * h`, evaluated in double precision,
/// comes out true although the two sides are equal (`2w == 3h`): there the
/// width is grown first.  Every other exact tie below 1024 grows the height
/// first; from 1024 on, this integer rule grows the height first at every
/// exact tie, which the double-precision test does not always do.
pub const TIE_WIDENS: [u64; 34] = [
    7, 30, 31, 57, 71, 106, 108, 126, 127, 175, 201, 228, 229, 392, 472, 475, 510, 556, 600, 603,
    606, 648, 649, 700, 746, 747, 798, 799, 801, 856, 857, 860, 861, 912,
];

/// `n` is listed in [`TIE_WIDENS`].
pub open spec fn tie_widens(n: int) -> bool {
    exists|k: int| 0 <= k < 34 && TIE_WIDENS@[k] == n
}

/// The aspect test: the ideal width `w` falls short of 3/2 of the ideal
/// height `h` (ties as listed in [`TIE_WIDENS`]).
pub open spec fn widen_first(n: int, h: int, w: int) -> bool {
    2 * w < 3 * h || (2 * w == 3 * h && tie_widens(n))
}

/// Grid dimensions from the area `m` and the floored ideal height `h`
/// and width `w`: grown so that `rows * columns >= m` and `rows +
/// columns` is odd.
pub open spec fn dims_from(n: int, m: int, h: int, w: int) -> (int, int) {
    if (h + w) % 2 == 1 {
        if h * w < m {
            (h + 1, w + 1)
        } else {
            (h, w)
        }
    } else if widen_first(n, h, w) {
        if h * (w + 1) < m {
            if (h + 1) * w < m {
                (h + 1, w + 2)
            } else {
                (h + 1, w)
            }
        } else {
            (h, w + 1)
        }
    } else {
        if (h + 1) * w < m {
            if h * (w + 1) < m {
                (h + 2, w + 1)
            } else {
                (h, w + 1)
            }
        } else {
            (h + 1, w)
        }
    }
}

/// The capacity grown from `k` while one more data codeword still fits
/// in `ndots` dots.
pub open spec fn grow_nd(k: int, ndots: int) -> int
    decreases ndots - k,
{
    if k < 0 || fill_need(k + 1) > ndots {
        k
    } else {
        grow_nd(k + 1, ndots)
    }
}

/// `(rows, columns, nd, ndots)` for `n` data codewords.
pub open spec fn size_spec(n: int) -> (int, int, int, int) {
    let m = min_area(n);
    let d = dims_from(n, m, floor_sqrt(2 * m, 3), floor_sqrt(3 * m, 2));
    let ndots = d.0 * d.1 / 2;
    (d.0, d.1, grow_nd(n, ndots), ndots)
}

/// The chosen grid has room for the data: rows times columns reach the
/// minimum area, and rows plus columns is odd.
pub proof fn law_grid_holds_data(n: int)
    requires
        n >= 0,
    ensures
        size_spec(n).0 * size_spec(n).1 >= min_area(n),
        (size_spec(n).0 + size_spec(n).1) % 2 == 1,
        size_spec(n).0 >= 0 && size_spec(n).1 >= 0,
{
    let m = min_area(n);
    assert(m >= 0);
    lemma_fsqrt(2 * m, 3, 0);
    lemma_fsqrt(3 * m, 2, 0);
    let h = floor_sqrt(2 * m, 3);
    let w = floor_sqrt(3 * m, 2);
    assert((h + 1) * (w + 1) > m) by (nonlinear_arith)
        requires
            3 * (h + 1) * (h + 1) > 2 * m,
            2 * (w + 1) * (w + 1) > 3 * m,
            h >= 0,
            w >= 0,
            m >= 0,
    ;
    assert((h + 1) * (w + 2) >= (h + 1) * (w + 1)) by (nonlinear_arith)
        requires
            h >= 0,
    ;
    assert((h + 2) * (w + 1) >= (h + 1) * (w + 1)) by (nonlinear_arith)
        requires
            w >= 0,
    ;
}

/// The chosen grid and its capacity.
#[derive(Debug, Clone, Copy, PartialEq, Eq)]
pub struct SymbolSize {
    pub rows: usize,
    pub columns: usize,
    pub nd: usize,
    pub ndots: usize,
}

proof fn lemma_fsqrt(num: int, den: int, h: int)
    requires
        den >= 1,
        0 <= h,
        den * h * h <= num,
    ensures
        fsqrt_from(num, den, h) >= h,
        den * fsqrt_from(num, den, h) * fsqrt_from(num, den, h) <= num,
        den * (fsqrt_from(num, den, h) + 1) * (fsqrt_from(num, den, h) + 1) > num,
    decreases num - h,
{
    if h >= num {
        assert(den * (h + 1) * (h + 1) > num) by (nonlinear_arith)
            requires
                h >= num,
                den >= 1,
                h >= 0,
        ;
    } else if den * (h + 1) * (h + 1) > num {
    } else {
        lemma_fsqrt(num, den, h + 1);
    }
}

/// The grid chosen for `n` data codewords has at least five rows and five
/// columns, and is at most two larger each way than the ideal `sqrt` sizes.
pub proof fn lemma_size_dims(n: int)
    requires
        n >= 0,
    ensures
        size_spec(n).0 >= 5,
        size_spec(n).1 >= 5,
        3 * (size_spec(n).0 - 2) * (size_spec(n).0 - 2) <= 2 * min_area(n),
        2 * (size_spec(n).1 - 2) * (size_spec(n).1 - 2) <= 3 * min_area(n),
{
    let m = min_area(n);
    assert(m >= 58);
    lemma_fsqrt(2 * m, 3, 0);
    lemma_fsqrt(3 * m, 2, 0);
    let h = floor_sqrt(2 * m, 3);
    let w = floor_sqrt(3 * m, 2);
    assert(h >= 6) by (nonlinear_arith)
        requires
            3 * (h + 1) * (h + 1) > 2 * m,
            m >= 58,
            h >= 0,
    ;
    assert(w >= 9) by (nonlinear_arith)
        requires
            2 * (w + 1) * (w + 1) > 3 * m,
            m >= 58,
            w >= 0,
    ;
    let d = size_spec(n);
    assert(h <= d.0 <= h + 2 && w <= d.1 <= w + 2);
    let r2 = d.0 - 2;
    let c2 = d.1 - 2;
    assert(3 * r2 * r2 <= 2 * m) by (nonlinear_arith)
        requires
            0 <= r2 <= h,
            3 * h * h <= 2 * m,
    ;
    assert(2 * c2 * c2 <= 3 * m) by (nonlinear_arith)
        requires
            0 <= c2 <= w,
            2 * w * w <= 3 * m,
    ;
}

proof fn lemma_grow_nd(k: int, ndots: int)
    requires
        k >= 0,
        fill_need(k) <= ndots,
    ensures
        grow_nd(k, ndots) >= k,
        fill_need(grow_nd(k, ndots)) <= ndots,
        fill_need(grow_nd(k, ndots) + 1) > ndots,
    decreases ndots - k,
{
    if fill_need(k + 1) <= ndots {
        lemma_grow_nd(k + 1, ndots);
    }
}

/// The grid chosen for `n` data codewords: `ndots` is half of rows times
/// columns, rows plus columns is odd, the grid reaches the minimum area,
/// and the data capacity `nd` is the largest count whose data and check
/// codewords fit the dots, never below `n`.
pub proof fn law_symbol_size(n: int)
    requires
        n >= 0,
    ensures
        size_spec(n).3 == size_spec(n).0 * size_spec(n).1 / 2,
        (size_spec(n).0 + size_spec(n).1) % 2 == 1,
        size_spec(n).0 * size_spec(n).1 >= min_area(n),
        size_spec(n).2 >= n,
        fill_need(size_spec(n).2) <= size_spec(n).3,
        fill_need(size_spec(n).2 + 1) > size_spec(n).3,
{
    law_grid_holds_data(n);
    let sz = size_spec(n);
    assert(sz.3 >= fill_need(n));
    lemma_grow_nd(n, sz.3);
}

/// `floor(sqrt(num / den))`, by stepping up from zero.
fn floor_sqrt_exec(num: u64, den: u64) -> (h: u64)
    requires
        1 <= den <= 3,
        num < 0x1000_0000_0000,
    ensures
        h as int == floor_sqrt(num as int, den as int),
        den * h * h <= num,
        den * (h + 1) * (h + 1) > num,
{
    let mut h: u64 = 0;
    proof {
        lemma_fsqrt(num as int, den as int, 0);
    }
    while h < num
        invariant
            1 <= den <= 3,
            num < 0x1000_0000_0000,
            h <= num,
            h <= 0x40_0000,
            den * h * h <= num,
            fsqrt_from(num as int, den as int, h as int) == floor_sqrt(num as int, den as int),
        ensures
            h <= num,
            den * h * h <= num,
            fsqrt_from(num as int, den as int, h as int) == floor_sqrt(num as int, den as int),
            h >= num || den * (h + 1) * (h + 1) > num,
        decreases num - h,
    {
        let nx = h + 1;
        proof {
            assert(den * nx <= 3 * 0x40_0001 && den * nx * nx <= 3 * 0x40_0001 * 0x40_0001)
                by (nonlinear_arith)
                requires
                    1 <= den <= 3,
                    nx <= 0x40_0001,
            ;
        }
        let dn = den * nx;
        let sq = dn * nx;
        if sq > num {
            break;
        }
        proof {
            assert(nx <= 0x40_0000) by (nonlinear_arith)
                requires
                    den * nx * nx <= num,
                    num < 0x1000_0000_0000,
                    den >= 1,
                    nx >= 0,
            ;
        }
        h = nx;
    }
    proof {
        lemma_fsqrt(num as int, den as int, h as int);
    }
    h
}

/// `true` when `n` is listed in [`TIE_WIDENS`].
fn is_tie_widening(n: u64) -> (r: bool)
    ensures
        r == tie_widens(n as int),
{
    let mut k: usize = 0;
    while k < 34
        invariant
            k <= 34,
            forall|j: int| 0 <= j < k ==> TIE_WIDENS@[j] != n,
        decreases 34 - k,
    {
        if TIE_WIDENS[k] == n {
            return true;
        }
        k = k + 1;
    }
    false
}

fn mul_small(a: u64, b: u64) -> (r: u64)
    requires
        a <= 0x200_0000,
        b <= 0x200_0000,
    ensures
        r == a * b,
{
    proof {
        assert(a * b <= 0x200_0000 * 0x200_0000) by (nonlinear_arith)
            requires
                a <= 0x200_0000,
                b <= 0x200_0000,
        ;
    }
    a * b
}

proof fn lemma_grid_covers(m: int, h: int, w: int)
    requires
        m > 0,
        h >= 0,
        w >= 0,
        3 * (h + 1) * (h + 1) > 2 * m,
        2 * (w + 1) * (w + 1) > 3 * m,
    ensures
        (h + 1) * (w + 1) > m,
{
    assert((h + 1) * (w + 1) > m) by (nonlinear_arith)
        requires
            m > 0,
            h >= 0,
            w >= 0,
            3 * (h + 1) * (h + 1) > 2 * m,
            2 * (w + 1) * (w + 1) > 3 * m,
    ;
}

/// `(rows, columns, nd, ndots)` for `n` data codewords, in wide
/// integers.
pub fn size_for(n: u64) -> (r: (u64, u64, u64, u64))
    requires
        n < 0x8_0000_0000,
    ensures
        (r.0 as int, r.1 as int, r.2 as int, r.3 as int) == size_spec(n as int),
        r.0 * r.1 >= min_area(n as int),
        r.2 >= n,
        fill_need(r.2 as int) <= r.3,
        r.0 >= 2,
        r.1 >= 2,
        3 * (r.0 - 2) * (r.0 - 2) <= 2 * min_area(n as int),
        2 * (r.1 - 2) * (r.1 - 2) <= 3 * min_area(n as int),
{
    let nd0 = n;
    let minarea: u64 = (((nd0 + 3) + nd0 / 2) * 9 + 2) * 2;
    let h0 = floor_sqrt_exec(2 * minarea, 3);
    let w0 = floor_sqrt_exec(3 * minarea, 2);
    proof {
        lemma_grid_covers(minarea as int, h0 as int, w0 as int);
        assert(h0 <= 0x20_0000 && w0 <= 0x20_0000) by (nonlinear_arith)
            requires
                3 * h0 * h0 <= 2 * minarea,
                2 * w0 * w0 <= 3 * minarea,
                minarea < 0x100_0000_0000,
        ;
        assert(h0 >= 2 && w0 >= 2) by (nonlinear_arith)
            requires
                3 * (h0 + 1) * (h0 + 1) > 2 * minarea,
                2 * (w0 + 1) * (w0 + 1) > 3 * minarea,
                minarea >= 58,
                h0 >= 0,
                w0 >= 0,
        ;
    }
    let mut h = h0;
    let mut w = w0;
    if (h + w) % 2 == 1 {
        if mul_small(h, w) < minarea {
            h = h + 1;
            w = w + 1;
        }
    } else if 2 * w < 3 * h || (2 * w == 3 * h && is_tie_widening(n)) {
        w = w + 1;
        if mul_small(h, w) < minarea {
            w = w - 1;
            h = h + 1;
            if mul_small(h, w) < minarea {
                w = w + 2;
            }
        }
    } else {
        h = h + 1;
        if mul_small(h, w) < minarea {
            h = h - 1;
            w = w + 1;
            if mul_small(h, w) < minarea {
                h = h + 2;
            }
        }
    }
    proof {
        assert((h0 + 1) * (w0 + 2) >= (h0 + 1) * (w0 + 1)) by (nonlinear_arith)
            requires
                h0 >= 0,
        ;
        assert((h0 + 2) * (w0 + 1) >= (h0 + 1) * (w0 + 1)) by (nonlinear_arith)
            requires
                w0 >= 0,
        ;
        assert(h * w <= (h0 + 2) * (w0 + 2)) by (nonlinear_arith)
            requires
                h <= h0 + 2,
                w <= w0 + 2,
                h >= 0,
                w >= 0,
        ;
        assert((h0 + 2) * (w0 + 2) < 0x1_0000_0000_0000) by (nonlinear_arith)
            requires
                h0 <= 0x20_0000,
                w0 <= 0x20_0000,
        ;
        assert(3 * (h - 2) * (h - 2) <= 2 * minarea) by (nonlinear_arith)
            requires
                h <= h0 + 2,
                h >= h0,
                h0 >= 2,
                3 * h0 * h0 <= 2 * minarea,
        ;
        assert(2 * (w - 2) * (w - 2) <= 3 * minarea) by (nonlinear_arith)
            requires
                w <= w0 + 2,
                w >= w0,
                w0 >= 2,
                2 * w0 * w0 <= 3 * minarea,
        ;
    }
    let area = mul_small(h, w);
    let ndots = area / 2;
    let mut nd: u64 = nd0;
    while ((nd + 1 + 3) + (nd + 1) / 2) * 9 + 2 <= ndots
        invariant
            nd0 <= nd,
            ndots < 0x1_0000_0000_0000,
            nd0 == n,
            n < 0x8_0000_0000,
            fill_need(nd as int) <= ndots || nd == nd0,
            grow_nd(nd as int, ndots as int) == grow_nd(nd0 as int, ndots as int),
        decreases ndots - nd,
    {
        nd = nd + 1;
    }
    proof {
        assert(fill_need(nd0 as int) * 2 == minarea);
    }
    (h, w, nd, ndots)
}

/// The grid for `n_data` data codewords at the default 3:2 aspect, and
/// the data capacity it offers.  Counts from 1024 on are not taken: there
/// exact ties of the aspect test are settled by double-precision rounding,
/// which [`TIE_WIDENS`] lists only below 1024.  A symbol holds at most 112
/// codewords, so every count that can give a symbol is below 1024; larger
/// ones are refused by the encoder through [`size_for`] before a grid is
/// picked.
pub fn pick_symbol_size_default(n_data: usize) -> (sz: SymbolSize)
    requires
        n_data < 1024,
    ensures
        (sz.rows as int, sz.columns as int, sz.nd as int, sz.ndots as int) == size_spec(
            n_data as int,
        ),
        sz.rows * sz.columns >= min_area(n_data as int),
        sz.nd >= n_data,
        fill_need(sz.nd as int) <= sz.ndots,
        sz.rows >= 2,
        sz.columns >= 2,
        3 * (sz.rows - 2) * (sz.rows - 2) <= 2 * min_area(n_data as int),
        2 * (sz.columns - 2) * (sz.columns - 2) <= 3 * min_area(n_data as int),
{
    let r = size_for(n_data as u64);
    proof {
        let m = min_area(n_data as int);
        assert(r.0 < 0x1_0000 && r.1 < 0x1_0000) by (nonlinear_arith)
            requires
                3 * (r.0 - 2) * (r.0 - 2) <= 2 * m,
                2 * (r.1 - 2) * (r.1 - 2) <= 3 * m,
                m < 0x800_0000,
                r.0 >= 2,
                r.1 >= 2,
        ;
        assert(r.0 * r.1 < 0x1_0000_0000) by (nonlinear_arith)
            requires
                r.0 < 0x1_0000,
                r.1 < 0x1_0000,
        ;
    }
    SymbolSize { rows: r.0 as usize, columns: r.1 as usize, nd: r.2 as usize, ndots: r.3 as usize }
}

} // verus!
