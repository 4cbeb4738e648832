//! The score a rendered DotCode grid gets when the mask is chosen: the
//! worst-covered edge, minus the square of the number of isolated cells,
//! minus a penalty for runs of empty rows and columns.

use vstd::prelude::*;

use super::layout::grid_ok;

verus! {

/// Row-major index of the `i`-th cell along an edge: `dir_x` walks a row
/// (the top one for `fl == 0`, the bottom one for `fl == 1`), otherwise a
/// column (left or right).
pub open spec fn edge_cell(rows: int, columns: int, dir_x: bool, fl: int, i: int) -> int {
    if dir_x {
        (rows - 1) * fl * columns + i
    } else {
        i * columns + (columns - 1) * fl
    }
}

/// `(count, first, last)` of the dots among the first `n` cells of an
/// edge (`-1` for a missing first or last).
pub open spec fn edge_scan(pixs: Seq<i8>, rows: int, columns: int, dir_x: bool, fl: int, n: int) -> (
    int,
    int,
    int,
)
    decreases n,
{
    if n <= 0 {
        (0, -1, -1)
    } else {
        let r = edge_scan(pixs, rows, columns, dir_x, fl, n - 1);
        if pixs[edge_cell(rows, columns, dir_x, fl, n - 1)] == 1 {
            (r.0 + 1, if r.1 == -1 {
                n - 1
            } else {
                r.1
            }, n - 1)
        } else {
            r
        }
    }
}

/// Coverage of one edge: `(count + last - first) * perpendicular size`.
pub open spec fn edge_metric(pixs: Seq<i8>, rows: int, columns: int, dir_x: bool, fl: int) -> int {
    let along = if dir_x {
        columns
    } else {
        rows
    };
    let perp = if dir_x {
        rows
    } else {
        columns
    };
    let r = edge_scan(pixs, rows, columns, dir_x, fl, along);
    (r.0 + r.2 - r.1) * perp
}

/// The smaller of two values.
pub open spec fn min_int(a: int, b: int) -> int {
    if b < a {
        b
    } else {
        a
    }
}

/// The worst of the four edge metrics (capped at `i32::MAX`).
pub open spec fn worst_edge(pixs: Seq<i8>, rows: int, columns: int) -> int {
    min_int(
        min_int(
            min_int(
                min_int(i32::MAX as int, edge_metric(pixs, rows, columns, true, 0)),
                edge_metric(pixs, rows, columns, true, 1),
            ),
            edge_metric(pixs, rows, columns, false, 0),
        ),
        edge_metric(pixs, rows, columns, false, 1),
    )
}

/// Column `x` has no dot on its dot positions (`y` of the parity of `x`).
pub open spec fn clear_col(pixs: Seq<i8>, rows: int, columns: int, x: int) -> bool {
    forall|y: int| 0 <= y < rows && y % 2 == x % 2 ==> pixs[#[trigger] (y * columns + x)] != 1
}

/// Row `y` has no dot on its dot positions.
pub open spec fn clear_row(pixs: Seq<i8>, rows: int, columns: int, y: int) -> bool {
    forall|x: int| 0 <= x < columns && x % 2 == y % 2 ==> pixs[#[trigger] (y * columns + x)] != 1
}

/// `a * b` saturated at `u64::MAX`.
pub open spec fn sat_mul(a: int, b: int) -> int {
    if a * b > u64::MAX {
        u64::MAX as int
    } else {
        a * b
    }
}

/// `pen + min(p, i32::MAX)` saturated at `i32::MAX` (both non-negative).
pub open spec fn sat_pen(pen: int, p: int) -> int {
    let q = if p > i32::MAX {
        i32::MAX as int
    } else {
        p
    };
    if pen + q > i32::MAX {
        i32::MAX as int
    } else {
        pen + q
    }
}

/// `(run, p, pen)` after scanning lines `1..=k`: a clear line extends the
/// run and multiplies `p` by `base` (the first one sets it to `base`);
/// a line with a dot ends the run and adds `p` to the penalty.
pub open spec fn pen_scan(clear: spec_fn(int) -> bool, base: int, k: int, pen0: int) -> (int, int, int)
    decreases k,
{
    if k <= 0 {
        (0, 0, pen0)
    } else {
        let r = pen_scan(clear, base, k - 1, pen0);
        if clear(k) {
            (r.0 + 1, if r.0 + 1 == 1 {
                base
            } else {
                sat_mul(r.1, base)
            }, r.2)
        } else {
            (0, 0, sat_pen(r.2, r.1))
        }
    }
}

/// The penalty for runs of clear inner columns then clear inner rows.
pub open spec fn pen_spec(pixs: Seq<i8>, rows: int, columns: int) -> int {
    let pen1 = if rows % 2 == 1 || rows <= 12 {
        let r = pen_scan(|x: int| clear_col(pixs, rows, columns, x), rows, columns - 2, 0);
        sat_pen(r.2, r.1)
    } else {
        0
    };
    if rows % 2 == 0 || columns <= 12 {
        let r = pen_scan(|y: int| clear_row(pixs, rows, columns, y), columns, rows - 2, pen1);
        sat_pen(r.2, r.1)
    } else {
        pen1
    }
}

/// The grid surrounded by two blank cells on every side.
pub open spec fn padded_at(pixs: Seq<i8>, rows: int, columns: int, x: int, y: int) -> i8 {
    if 2 <= x < columns + 2 && 2 <= y < rows + 2 {
        pixs[(y - 2) * columns + (x - 2)]
    } else {
        0
    }
}

/// Cell `(x, y)` of the padded grid is isolated: no diagonal neighbour,
/// and either blank or without a dot two cells away in a straight line.
pub open spec fn isolated(pixs: Seq<i8>, rows: int, columns: int, x: int, y: int) -> bool {
    let p = |a: int, b: int| padded_at(pixs, rows, columns, a, b) == 1;
    if p(x - 1, y - 1) || p(x + 1, y - 1) || p(x - 1, y + 1) || p(x + 1, y + 1) {
        false
    } else if padded_at(pixs, rows, columns, x, y) == 0 {
        true
    } else {
        !(p(x - 2, y) || p(x, y - 2) || p(x + 2, y) || p(x, y + 2))
    }
}

/// Isolated cells on row `y` of the padded grid from `x` on, stepping by
/// two up to `columns + 1`.
pub open spec fn isolated_in_row(pixs: Seq<i8>, rows: int, columns: int, y: int, x: int) -> int
    decreases columns + 3 - x,
{
    if x > columns + 1 {
        0
    } else {
        (if isolated(pixs, rows, columns, x, y) {
            1int
        } else {
            0int
        }) + isolated_in_row(pixs, rows, columns, y, x + 2)
    }
}

/// Isolated cells on rows `2..y` of the padded grid.
pub open spec fn isolated_count(pixs: Seq<i8>, rows: int, columns: int, y: int) -> int
    decreases y,
{
    if y <= 2 {
        0
    } else {
        isolated_count(pixs, rows, columns, y - 1) + isolated_in_row(
            pixs,
            rows,
            columns,
            y - 1,
            (y - 1) % 2 + 2,
        )
    }
}

/// The score of a grid (`-99999` when an edge is empty).
pub open spec fn eval_spec(pixs: Seq<i8>, rows: int, columns: int) -> int {
    let worst = worst_edge(pixs, rows, columns);
    if worst == 0 {
        -99999
    } else {
        let outlier = isolated_count(pixs, rows, columns, rows + 2);
        worst - outlier * outlier - pen_spec(pixs, rows, columns)
    }
}

proof fn lemma_scan_empty(pixs: Seq<i8>, rows: int, columns: int, dir_x: bool, fl: int, n: int)
    requires
        n >= 0,
        forall|i: int| 0 <= i < n ==> pixs[#[trigger] edge_cell(rows, columns, dir_x, fl, i)] != 1,
    ensures
        edge_scan(pixs, rows, columns, dir_x, fl, n) == (0int, -1int, -1int),
    decreases n,
{
    if n > 0 {
        lemma_scan_empty(pixs, rows, columns, dir_x, fl, n - 1);
        assert(pixs[edge_cell(rows, columns, dir_x, fl, n - 1)] != 1);
    }
}

proof fn lemma_metric_nonneg(pixs: Seq<i8>, rows: int, columns: int, dir_x: bool, fl: int)
    requires
        rows >= 0,
        columns >= 0,
    ensures
        edge_metric(pixs, rows, columns, dir_x, fl) >= 0,
{
    let along = if dir_x { columns } else { rows };
    let perp = if dir_x { rows } else { columns };
    lemma_edge_scan_bounds(pixs, rows, columns, dir_x, fl, along);
    let r = edge_scan(pixs, rows, columns, dir_x, fl, along);
    let c = r.0 + r.2 - r.1;
    assert(c >= 0);
    assert(c * perp >= 0) by (nonlinear_arith)
        requires
            c >= 0,
            perp >= 0,
    ;
}

proof fn lemma_metric_zero(pixs: Seq<i8>, rows: int, columns: int, dir_x: bool, fl: int)
    requires
        edge_scan(pixs, rows, columns, dir_x, fl, if dir_x { columns } else { rows }) == (
            0int,
            -1int,
            -1int,
        ),
    ensures
        edge_metric(pixs, rows, columns, dir_x, fl) == 0,
{
    let perp = if dir_x { rows } else { columns };
    assert((0 + -1 - -1) * perp == 0) by (nonlinear_arith);
}

/// A grid with an empty border line (no dot on the top row, the bottom
/// row, the left column or the right column) scores `-99999`: that edge's
/// coverage is zero, so the worst edge is zero.
pub proof fn law_empty_edge_scores_floor(pixs: Seq<i8>, rows: int, columns: int)
    requires
        rows >= 2,
        columns >= 2,
        pixs.len() == rows * columns,
        (forall|x: int| 0 <= x < columns ==> #[trigger] pixs[x] != 1) || (forall|x: int|
            0 <= x < columns ==> #[trigger] pixs[(rows - 1) * columns + x] != 1) || (forall|y: int|
            0 <= y < rows ==> #[trigger] pixs[y * columns] != 1) || (forall|y: int|
            0 <= y < rows ==> #[trigger] pixs[y * columns + (columns - 1)] != 1),
    ensures
        eval_spec(pixs, rows, columns) == -99999,
{
    lemma_metric_nonneg(pixs, rows, columns, true, 0);
    lemma_metric_nonneg(pixs, rows, columns, true, 1);
    lemma_metric_nonneg(pixs, rows, columns, false, 0);
    lemma_metric_nonneg(pixs, rows, columns, false, 1);
    assert(forall|i: int| #[trigger] edge_cell(rows, columns, true, 0, i) == i) by {
        assert forall|i: int| #[trigger] edge_cell(rows, columns, true, 0, i) == i by {
            assert((rows - 1) * 0 * columns == 0) by (nonlinear_arith);
        }
    }
    assert(forall|i: int| #[trigger] edge_cell(rows, columns, true, 1, i) == (rows - 1) * columns + i) by {
        assert forall|i: int| #[trigger] edge_cell(rows, columns, true, 1, i) == (rows - 1) * columns + i by {
            assert((rows - 1) * 1 * columns == (rows - 1) * columns) by (nonlinear_arith);
        }
    }
    assert(forall|i: int| #[trigger] edge_cell(rows, columns, false, 0, i) == i * columns) by {
        assert forall|i: int| #[trigger] edge_cell(rows, columns, false, 0, i) == i * columns by {
            assert((columns - 1) * 0 == 0);
        }
    }
    if forall|x: int| 0 <= x < columns ==> #[trigger] pixs[x] != 1 {
        assert forall|i: int| 0 <= i < columns implies pixs[#[trigger] edge_cell(rows, columns, true, 0, i)]
            != 1 by {
            assert(pixs[i] != 1);
        }
        lemma_scan_empty(pixs, rows, columns, true, 0, columns);
        lemma_metric_zero(pixs, rows, columns, true, 0);
    } else if forall|x: int| 0 <= x < columns ==> #[trigger] pixs[(rows - 1) * columns + x] != 1 {
        assert forall|i: int| 0 <= i < columns implies pixs[#[trigger] edge_cell(rows, columns, true, 1, i)]
            != 1 by {
            assert(pixs[(rows - 1) * columns + i] != 1);
        }
        lemma_scan_empty(pixs, rows, columns, true, 1, columns);
        lemma_metric_zero(pixs, rows, columns, true, 1);
    } else if forall|y: int| 0 <= y < rows ==> #[trigger] pixs[y * columns] != 1 {
        assert forall|i: int| 0 <= i < rows implies pixs[#[trigger] edge_cell(rows, columns, false, 0, i)]
            != 1 by {
            assert(pixs[i * columns] != 1);
        }
        lemma_scan_empty(pixs, rows, columns, false, 0, rows);
        lemma_metric_zero(pixs, rows, columns, false, 0);
    } else {
        assert forall|i: int| 0 <= i < rows implies pixs[#[trigger] edge_cell(rows, columns, false, 1, i)]
            != 1 by {
            assert(pixs[i * columns + (columns - 1)] != 1);
        }
        lemma_scan_empty(pixs, rows, columns, false, 1, rows);
        lemma_metric_zero(pixs, rows, columns, false, 1);
    }
}

proof fn lemma_grid_dims(rows: int, columns: int)
    requires
        grid_ok(rows, columns),
    ensures
        rows < 0x100_0000,
        columns < 0x100_0000,
        (rows + 2) * (columns + 3) <= 0x400_0000,
{
    assert(rows < 0x100_0000 && columns < 0x100_0000) by (nonlinear_arith)
        requires
            rows >= 2,
            columns >= 2,
            rows * columns < 0x100_0000,
    ;
    assert((rows + 2) * (columns + 3) <= 0x400_0000) by (nonlinear_arith)
        requires
            rows >= 2,
            columns >= 2,
            rows * columns < 0x100_0000,
    ;
}

proof fn lemma_edge_cell_inside(rows: int, columns: int, dir_x: bool, fl: int, i: int)
    requires
        grid_ok(rows, columns),
        fl == 0 || fl == 1,
        0 <= i < (if dir_x {
            columns
        } else {
            rows
        }),
    ensures
        0 <= edge_cell(rows, columns, dir_x, fl, i) < rows * columns,
{
    if dir_x {
        assert(0 <= (rows - 1) * fl * columns + i < rows * columns) by (nonlinear_arith)
            requires
                fl == 0 || fl == 1,
                0 <= i < columns,
                rows >= 2,
        ;
    } else {
        assert(0 <= i * columns + (columns - 1) * fl < rows * columns) by (nonlinear_arith)
            requires
                fl == 0 || fl == 1,
                0 <= i < rows,
                columns >= 2,
        ;
    }
}

proof fn lemma_edge_scan_bounds(pixs: Seq<i8>, rows: int, columns: int, dir_x: bool, fl: int, n: int)
    requires
        n >= 0,
    ensures
        0 <= edge_scan(pixs, rows, columns, dir_x, fl, n).0 <= n,
        -1 <= edge_scan(pixs, rows, columns, dir_x, fl, n).1 <= edge_scan(pixs, rows, columns, dir_x, fl, n).2 < n,
        edge_scan(pixs, rows, columns, dir_x, fl, n).0 == 0 <==> edge_scan(pixs, rows, columns, dir_x, fl, n).1 == -1,
        edge_scan(pixs, rows, columns, dir_x, fl, n).0 == 0 ==> edge_scan(pixs, rows, columns, dir_x, fl, n).2 == -1,
        edge_scan(pixs, rows, columns, dir_x, fl, n).0 > 0 ==> edge_scan(pixs, rows, columns, dir_x, fl, n).1 >= 0,
    decreases n,
{
    if n > 0 {
        lemma_edge_scan_bounds(pixs, rows, columns, dir_x, fl, n - 1);
    }
}

/// The coverage metric of one edge.
fn edge_metric_exec(pixs: &Vec<i8>, rows: usize, columns: usize, dir_x: bool, fl: usize) -> (m: i32)
    requires
        grid_ok(rows as int, columns as int),
        pixs@.len() == rows * columns,
        fl <= 1,
    ensures
        m as int == edge_metric(pixs@, rows as int, columns as int, dir_x, fl as int),
        m >= 0,
        m <= 2 * rows * columns,
{
    let along = if dir_x {
        columns
    } else {
        rows
    };
    let perp = if dir_x {
        rows
    } else {
        columns
    };
    proof {
        lemma_grid_dims(rows as int, columns as int);
        assert(along <= rows * columns && perp <= rows * columns && along * perp == rows * columns)
            by (nonlinear_arith)
            requires
                rows >= 2,
                columns >= 2,
                (along == columns && perp == rows) || (along == rows && perp == columns),
        ;
    }
    let mut sum: i32 = 0;
    let mut first: i32 = -1;
    let mut last: i32 = -1;
    let mut i: usize = 0;
    while i < along
        invariant
            grid_ok(rows as int, columns as int),
            pixs@.len() == rows * columns,
            fl <= 1,
            along == (if dir_x {
                columns
            } else {
                rows
            }),
            along <= rows * columns,
            i <= along,
            (sum as int, first as int, last as int) == edge_scan(
                pixs@,
                rows as int,
                columns as int,
                dir_x,
                fl as int,
                i as int,
            ),
        decreases along - i,
    {
        proof {
            lemma_edge_cell_inside(rows as int, columns as int, dir_x, fl as int, i as int);
            lemma_edge_scan_bounds(pixs@, rows as int, columns as int, dir_x, fl as int, i as int);
            if dir_x {
                assert((rows - 1) * fl <= rows) by (nonlinear_arith)
                    requires
                        fl <= 1,
                        rows >= 2,
                ;
                assert((rows - 1) * fl * columns <= rows * columns) by (nonlinear_arith)
                    requires
                        (rows - 1) * fl <= rows,
                        (rows - 1) * fl >= 0,
                        columns >= 2,
                ;
            }
        }
        let idx = if dir_x {
            (rows - 1) * fl * columns + i
        } else {
            i * columns + (columns - 1) * fl
        };
        if pixs[idx] == 1 {
            if first == -1 {
                first = i as i32;
            }
            last = i as i32;
            sum = sum + 1;
        }
        i = i + 1;
    }
    proof {
        lemma_edge_scan_bounds(pixs@, rows as int, columns as int, dir_x, fl as int, along as int);
        assert((sum + last - first) * perp <= 2 * rows * columns) by (nonlinear_arith)
            requires
                0 <= sum + last - first <= 2 * along,
                along * perp == rows * columns,
                perp >= 0,
        ;
        assert((sum + last - first) * perp >= 0) by (nonlinear_arith)
            requires
                0 <= sum + last - first,
                perp >= 0,
        ;
    }
    let perp32: i32 = perp as i32;
    let span: i32 = sum + last - first;
    assert(span * perp32 <= 2 * rows * columns);
    assert(span * perp32 >= 0);
    assert(2 * rows * columns < 0x7fff_ffff) by (nonlinear_arith)
        requires
            rows * columns < 0x100_0000,
    ;
    span * perp32
}

/// `true` when column `x` has no dot on its dot positions.
fn clear_col_exec(pixs: &Vec<i8>, rows: usize, columns: usize, x: usize) -> (r: bool)
    requires
        grid_ok(rows as int, columns as int),
        pixs@.len() == rows * columns,
        x < columns,
    ensures
        r == clear_col(pixs@, rows as int, columns as int, x as int),
{
    proof {
        lemma_grid_dims(rows as int, columns as int);
    }
    let mut y: usize = x % 2;
    while y < rows
        invariant
            grid_ok(rows as int, columns as int),
            pixs@.len() == rows * columns,
            x < columns,
            rows < 0x100_0000,
            y % 2 == x % 2,
            y <= rows + 1,
            forall|z: int| 0 <= z < y && z % 2 == x % 2 ==> pixs@[#[trigger] (z * columns + x)] != 1,
        decreases rows + 1 - y,
    {
        proof {
            assert(0 <= y * columns + x < rows * columns) by (nonlinear_arith)
                requires
                    0 <= x < columns,
                    0 <= y < rows,
            ;
        }
        if pixs[y * columns + x] == 1 {
            return false;
        }
        y = y + 2;
    }
    true
}

/// `true` when row `y` has no dot on its dot positions.
fn clear_row_exec(pixs: &Vec<i8>, rows: usize, columns: usize, y: usize) -> (r: bool)
    requires
        grid_ok(rows as int, columns as int),
        pixs@.len() == rows * columns,
        y < rows,
    ensures
        r == clear_row(pixs@, rows as int, columns as int, y as int),
{
    proof {
        lemma_grid_dims(rows as int, columns as int);
    }
    let mut x: usize = y % 2;
    while x < columns
        invariant
            grid_ok(rows as int, columns as int),
            pixs@.len() == rows * columns,
            y < rows,
            columns < 0x100_0000,
            x % 2 == y % 2,
            x <= columns + 1,
            forall|z: int| 0 <= z < x && z % 2 == y % 2 ==> pixs@[#[trigger] (y * columns + z)] != 1,
        decreases columns + 1 - x,
    {
        proof {
            assert(0 <= y * columns + x < rows * columns) by (nonlinear_arith)
                requires
                    0 <= x < columns,
                    0 <= y < rows,
            ;
        }
        if pixs[y * columns + x] == 1 {
            return false;
        }
        x = x + 2;
    }
    true
}

fn sat_mul_exec(a: u64, b: u64) -> (r: u64)
    ensures
        r as int == sat_mul(a as int, b as int),
{
    match a.checked_mul(b) {
        Some(v) => v,
        None => u64::MAX,
    }
}

fn sat_pen_exec(pen: i32, p: u64) -> (r: i32)
    requires
        pen >= 0,
    ensures
        r as int == sat_pen(pen as int, p as int),
        r >= 0,
{
    let q: i32 = if p > 0x7fff_ffff {
        0x7fff_ffff
    } else {
        p as i32
    };
    if pen as i64 + q as i64 > 0x7fff_ffff {
        0x7fff_ffff
    } else {
        pen + q
    }
}

/// The run penalty over the inner columns (`cols == true`) or rows,
/// starting from `pen0`.
fn pen_lines(pixs: &Vec<i8>, rows: usize, columns: usize, cols: bool, pen0: i32) -> (r: i32)
    requires
        grid_ok(rows as int, columns as int),
        pixs@.len() == rows * columns,
        pen0 >= 0,
    ensures
        r >= 0,
        cols ==> ({
            let s = pen_scan(|x: int| clear_col(pixs@, rows as int, columns as int, x), rows as int, columns - 2, pen0 as int);
            r as int == sat_pen(s.2, s.1)
        }),
        !cols ==> ({
            let s = pen_scan(|y: int| clear_row(pixs@, rows as int, columns as int, y), columns as int, rows - 2, pen0 as int);
            r as int == sat_pen(s.2, s.1)
        }),
{
    let ghost clear = if cols {
        |x: int| clear_col(pixs@, rows as int, columns as int, x)
    } else {
        |y: int| clear_row(pixs@, rows as int, columns as int, y)
    };
    let base: u64 = if cols {
        rows as u64
    } else {
        columns as u64
    };
    let limit: usize = if cols {
        columns - 2
    } else {
        rows - 2
    };
    proof {
        lemma_grid_dims(rows as int, columns as int);
    }
    let mut run: u32 = 0;
    let mut p: u64 = 0;
    let mut pen: i32 = pen0;
    let mut k: usize = 1;
    while k <= limit
        invariant
            grid_ok(rows as int, columns as int),
            pixs@.len() == rows * columns,
            limit == (if cols {
                columns - 2
            } else {
                rows - 2
            }),
            base == (if cols {
                rows
            } else {
                columns
            }),
            clear == (if cols {
                |x: int| clear_col(pixs@, rows as int, columns as int, x)
            } else {
                |y: int| clear_row(pixs@, rows as int, columns as int, y)
            }),
            1 <= k <= limit + 1,
            limit < 0x100_0000,
            pen >= 0,
            run as int <= k,
            (run as int, p as int, pen as int) == pen_scan(clear, base as int, k - 1, pen0 as int),
        decreases limit + 1 - k,
    {
        let is_clear = if cols {
            clear_col_exec(pixs, rows, columns, k)
        } else {
            clear_row_exec(pixs, rows, columns, k)
        };
        if is_clear {
            run = run + 1;
            p = if run == 1 {
                base
            } else {
                sat_mul_exec(p, base)
            };
        } else {
            run = 0;
            pen = sat_pen_exec(pen, p);
            p = 0;
        }
        k = k + 1;
    }
    sat_pen_exec(pen, p)
}

/// `1` when cell `(x, y)` of the padded grid holds a dot.
fn padded_exec(pixs: &Vec<i8>, rows: usize, columns: usize, x: usize, y: usize) -> (v: i8)
    requires
        grid_ok(rows as int, columns as int),
        pixs@.len() == rows * columns,
    ensures
        v == padded_at(pixs@, rows as int, columns as int, x as int, y as int),
{
    proof {
        lemma_grid_dims(rows as int, columns as int);
    }
    if 2 <= x && x < columns + 2 && 2 <= y && y < rows + 2 {
        proof {
            assert(0 <= (y - 2) * columns + (x - 2) < rows * columns) by (nonlinear_arith)
                requires
                    0 <= x - 2 < columns,
                    0 <= y - 2 < rows,
            ;
        }
        pixs[(y - 2) * columns + (x - 2)]
    } else {
        0
    }
}

/// Number of isolated cells of the padded grid.
fn isolated_exec(pixs: &Vec<i8>, rows: usize, columns: usize) -> (n: u64)
    requires
        grid_ok(rows as int, columns as int),
        pixs@.len() == rows * columns,
    ensures
        n as int == isolated_count(pixs@, rows as int, columns as int, rows + 2),
        n <= (rows + 2) * (columns + 3),
{
    proof {
        lemma_grid_dims(rows as int, columns as int);
    }
    let mut total: u64 = 0;
    let mut y: usize = 2;
    while y <= rows + 1
        invariant
            grid_ok(rows as int, columns as int),
            pixs@.len() == rows * columns,
            2 <= y <= rows + 2,
            rows < 0x100_0000,
            columns < 0x100_0000,
            total as int == isolated_count(pixs@, rows as int, columns as int, y as int),
            total <= (y - 2) * (columns + 3),
        decreases rows + 2 - y,
    {
        let mut x: usize = y % 2 + 2;
        let mut row: u64 = 0;
        let ghost x0 = x as int;
        while x <= columns + 1
            invariant
                grid_ok(rows as int, columns as int),
                pixs@.len() == rows * columns,
                2 <= y <= rows + 1,
                rows < 0x100_0000,
                columns < 0x100_0000,
                x0 == y % 2 + 2,
                x0 <= x <= columns + 3,
                row <= x,
                row as int + isolated_in_row(pixs@, rows as int, columns as int, y as int, x as int)
                    == isolated_in_row(pixs@, rows as int, columns as int, y as int, x0),
            decreases columns + 3 - x,
        {
            let a = padded_exec(pixs, rows, columns, x - 1, y - 1) == 1 || padded_exec(pixs, rows, columns, x + 1, y - 1) == 1
                || padded_exec(pixs, rows, columns, x - 1, y + 1) == 1 || padded_exec(pixs, rows, columns, x + 1, y + 1) == 1;
            let hit = if a {
                false
            } else if padded_exec(pixs, rows, columns, x, y) == 0 {
                true
            } else {
                !(padded_exec(pixs, rows, columns, x - 2, y) == 1 || padded_exec(pixs, rows, columns, x, y - 2) == 1
                    || padded_exec(pixs, rows, columns, x + 2, y) == 1 || padded_exec(pixs, rows, columns, x, y + 2) == 1)
            };
            if hit {
                row = row + 1;
            }
            x = x + 2;
        }
        proof {
            assert(total + row <= (y - 1) * (columns + 3)) by (nonlinear_arith)
                requires
                    total <= (y - 2) * (columns + 3),
                    row <= columns + 3,
            ;
            assert((y - 1) * (columns + 3) <= (rows + 2) * (columns + 3)) by (nonlinear_arith)
                requires
                    y <= rows + 1,
                    columns >= 0,
            ;
            lemma_grid_dims(rows as int, columns as int);
        }
        total = total + row;
        y = y + 1;
    }
    proof {
        assert(total <= (rows + 2) * (columns + 3)) by (nonlinear_arith)
            requires
                total <= (y - 2) * (columns + 3),
                y == rows + 2,
                columns >= 0,
        ;
    }
    total
}

/// The score of a grid, as a wide integer.
pub fn eval_symbol_score(pixs: &Vec<i8>, rows: usize, columns: usize) -> (score: i64)
    requires
        grid_ok(rows as int, columns as int),
        pixs@.len() == rows * columns,
    ensures
        score as int == eval_spec(pixs@, rows as int, columns as int),
{
    let mut worst: i32 = 0x7fff_ffff;
    let m0 = edge_metric_exec(pixs, rows, columns, true, 0);
    if m0 < worst {
        worst = m0;
    }
    let m1 = edge_metric_exec(pixs, rows, columns, true, 1);
    if m1 < worst {
        worst = m1;
    }
    let m2 = edge_metric_exec(pixs, rows, columns, false, 0);
    if m2 < worst {
        worst = m2;
    }
    let m3 = edge_metric_exec(pixs, rows, columns, false, 1);
    if m3 < worst {
        worst = m3;
    }
    if worst == 0 {
        return -99999;
    }
    let mut pen: i32 = 0;
    if rows % 2 == 1 || rows <= 12 {
        pen = pen_lines(pixs, rows, columns, true, 0);
    }
    if rows % 2 == 0 || columns <= 12 {
        pen = pen_lines(pixs, rows, columns, false, pen);
    }
    let outlier = isolated_exec(pixs, rows, columns);
    proof {
        lemma_grid_dims(rows as int, columns as int);
        assert(outlier * outlier <= 0x400_0000 * 0x400_0000) by (nonlinear_arith)
            requires
                outlier <= 0x400_0000,
        ;
    }
    (worst as i64) - (outlier as i64) * (outlier as i64) - (pen as i64)
}

/// The score of a grid.
pub fn eval_symbol(pixs: &Vec<i8>, rows: usize, columns: usize) -> (score: i32)
    requires
        grid_ok(rows as int, columns as int),
        pixs@.len() == rows * columns,
        i32::MIN <= eval_spec(pixs@, rows as int, columns as int) <= i32::MAX,
    ensures
        score as int == eval_spec(pixs@, rows as int, columns as int),
{
    eval_symbol_score(pixs, rows, columns) as i32
}

} // verus!
