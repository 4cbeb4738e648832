//! Placement of the DotCode bit stream on the dot grid: the outline with
//! its six fixed corner dots, and the snake path that fills the free cells.
//!
//! Cells are numbered row-major, `idx = y * columns + x`.

use vstd::prelude::*;

verus! {

/// Row-major index of the cell at `(x, y)`.
pub open spec fn cell_index(columns: int, x: int, y: int) -> int {
    y * columns + x
}

/// The six fixed corner cells, as `(x, y)`; which six depends on the
/// parity of `rows`.
pub open spec fn edge_cells(rows: int, columns: int) -> Seq<(int, int)> {
    if rows % 2 == 0 {
        seq![
            (columns - 1, rows - 2),
            (0, rows - 2),
            (columns - 2, rows - 1),
            (1, rows - 1),
            (columns - 1, 0),
            (0, 0),
        ]
    } else {
        seq![
            (columns - 2, 0),
            (columns - 2, rows - 1),
            (columns - 1, 1),
            (columns - 1, rows - 2),
            (0, 0),
            (0, rows - 1),
        ]
    }
}

/// Row-major index of corner cell `e`.
pub open spec fn edge_index(rows: int, columns: int, e: int) -> int {
    cell_index(columns, edge_cells(rows, columns)[e].0, edge_cells(rows, columns)[e].1)
}

/// `idx` is one of the six corner cells.
pub open spec fn is_edge(rows: int, columns: int, idx: int) -> bool {
    exists|e: int| 0 <= e < 6 && #[trigger] edge_index(rows, columns, e) == idx
}

/// The outline value of cell `idx`: `1` for a corner, `-1` for a free
/// cell (even `x + y`), `0` for a gap (odd `x + y`).
pub open spec fn outline_value(rows: int, columns: int, idx: int) -> i8 {
    if is_edge(rows, columns, idx) {
        1
    } else if (idx % columns + idx / columns) % 2 == 0 {
        -1i8
    } else {
        0
    }
}

/// A usable grid size: at least two rows and two columns, and fewer than
/// 2^24 cells.  The cell bound is this library's: it keeps the row-major
/// index arithmetic, the two-cell-padded grid of the scorer and its score
/// terms (the squared count of isolated dots among them) within machine
/// integers on 32- and 64-bit targets.  Every DotCode symbol is far
/// smaller: at most 112 codewords fit in fewer than 2,100 dots.
pub open spec fn grid_ok(rows: int, columns: int) -> bool {
    2 <= rows && 2 <= columns && rows * columns < 0x100_0000
}

/// The state of one cell of the outline.
#[derive(Debug, Clone, Copy, PartialEq, Eq, Structural)]
pub enum DotCell {
    Inactive,
    Empty,
    Lit,
}

/// The number a cell stands for: `-1`, `0` or `1`.
pub open spec fn cell_value(c: DotCell) -> i8 {
    match c {
        DotCell::Inactive => -1i8,
        DotCell::Empty => 0,
        DotCell::Lit => 1,
    }
}

/// The number a cell stands for.
pub fn dot_cell_value(c: DotCell) -> (v: i8)
    ensures
        v == cell_value(c),
{
    match c {
        DotCell::Inactive => -1,
        DotCell::Empty => 0,
        DotCell::Lit => 1,
    }
}

proof fn lemma_cell_index(columns: int, x: int, y: int)
    requires
        0 <= x < columns,
        0 <= y,
    ensures
        cell_index(columns, x, y) % columns == x,
        cell_index(columns, x, y) / columns == y,
{
    vstd::arithmetic::div_mod::lemma_fundamental_div_mod_converse(
        cell_index(columns, x, y),
        columns,
        y,
        x,
    );
}

proof fn lemma_index_bound(rows: int, columns: int, x: int, y: int)
    requires
        0 <= x < columns,
        0 <= y < rows,
    ensures
        0 <= cell_index(columns, x, y) < rows * columns,
{
    assert(0 <= y * columns + x < rows * columns) by (nonlinear_arith)
        requires
            0 <= x < columns,
            0 <= y < rows,
    ;
}

/// The six corner cells lie inside the grid.
pub proof fn lemma_edges_inside(rows: int, columns: int)
    requires
        grid_ok(rows, columns),
    ensures
        forall|e: int|
            0 <= e < 6 ==> 0 <= #[trigger] edge_index(rows, columns, e) < rows * columns,
{
    assert forall|e: int| 0 <= e < 6 implies 0 <= #[trigger] edge_index(rows, columns, e) < rows
        * columns by {
        let c = edge_cells(rows, columns)[e];
        lemma_index_bound(rows, columns, c.0, c.1);
    }
}

/// The row-major index of corner `e`.
fn edge_at(rows: usize, columns: usize, e: usize) -> (idx: usize)
    requires
        grid_ok(rows as int, columns as int),
        e < 6,
    ensures
        idx as int == edge_index(rows as int, columns as int, e as int),
        idx < rows * columns,
{
    proof {
        lemma_edges_inside(rows as int, columns as int);
    }
    let (x, y): (usize, usize) = if rows % 2 == 0 {
        if e == 0 {
            (columns - 1, rows - 2)
        } else if e == 1 {
            (0, rows - 2)
        } else if e == 2 {
            (columns - 2, rows - 1)
        } else if e == 3 {
            (1, rows - 1)
        } else if e == 4 {
            (columns - 1, 0)
        } else {
            (0, 0)
        }
    } else {
        if e == 0 {
            (columns - 2, 0)
        } else if e == 1 {
            (columns - 2, rows - 1)
        } else if e == 2 {
            (columns - 1, 1)
        } else if e == 3 {
            (columns - 1, rows - 2)
        } else if e == 4 {
            (0, 0)
        } else {
            (0, rows - 1)
        }
    };
    proof {
        lemma_index_bound(rows as int, columns as int, x as int, y as int);
    }
    y * columns + x
}

/// `true` when `idx` is one of the six corner cells.
fn is_edge_cell(rows: usize, columns: usize, idx: usize) -> (r: bool)
    requires
        grid_ok(rows as int, columns as int),
    ensures
        r == is_edge(rows as int, columns as int, idx as int),
{
    let mut e: usize = 0;
    while e < 6
        invariant
            grid_ok(rows as int, columns as int),
            e <= 6,
            forall|f: int| 0 <= f < e ==> #[trigger] edge_index(rows as int, columns as int, f) != idx,
        decreases 6 - e,
    {
        if edge_at(rows, columns, e) == idx {
            return true;
        }
        e = e + 1;
    }
    false
}

/// The outline grid: free cells `Inactive`, gaps `Empty`, the six
/// corners `Set`.
pub fn init_outline(rows: usize, columns: usize) -> (grid: Vec<DotCell>)
    requires
        grid_ok(rows as int, columns as int),
    ensures
        grid@.len() == rows * columns,
        forall|idx: int|
            0 <= idx < rows * columns ==> cell_value(#[trigger] grid@[idx]) == outline_value(
                rows as int,
                columns as int,
                idx,
            ),
{
    let n = rows * columns;
    let mut grid: Vec<DotCell> = Vec::new();
    let mut idx: usize = 0;
    while idx < n
        invariant
            grid_ok(rows as int, columns as int),
            n == rows * columns,
            idx <= n,
            grid@.len() == idx,
            forall|j: int|
                0 <= j < idx ==> cell_value(#[trigger] grid@[j]) == outline_value(
                    rows as int,
                    columns as int,
                    j,
                ),
        decreases n - idx,
    {
        let x = idx % columns;
        let y = idx / columns;
        assert(y <= idx) by (nonlinear_arith)
            requires
                y == idx / columns,
                columns >= 1,
                idx >= 0,
        ;
        assert(columns <= rows * columns) by (nonlinear_arith)
            requires
                rows >= 2,
                columns >= 2,
        ;
        let cell = if is_edge_cell(rows, columns, idx) {
            DotCell::Lit
        } else if (x + y) % 2 == 0 {
            DotCell::Inactive
        } else {
            DotCell::Empty
        };
        grid.push(cell);
        idx = idx + 1;
    }
    grid
}

/// The outline read by coordinates: the cell at `(x, y)` is `Lit` when
/// `(x, y)` is one of the six corner cells of [`edge_cells`] (for an even
/// number of rows `(c-1, r-2), (0, r-2), (c-2, r-1), (1, r-1), (c-1, 0),
/// (0, 0)`; for an odd one `(c-2, 0), (c-2, r-1), (c-1, 1), (c-1, r-2),
/// (0, 0), (0, r-1)`), else `Inactive` when `x + y` is even, else `Empty`.
pub proof fn law_outline_cells(grid: Seq<DotCell>, rows: int, columns: int, x: int, y: int)
    requires
        grid_ok(rows, columns),
        grid.len() == rows * columns,
        forall|idx: int|
            0 <= idx < rows * columns ==> cell_value(#[trigger] grid[idx]) == outline_value(
                rows,
                columns,
                idx,
            ),
        0 <= x < columns,
        0 <= y < rows,
    ensures
        grid[cell_index(columns, x, y)] == (if edge_cells(rows, columns).contains((x, y)) {
            DotCell::Lit
        } else if (x + y) % 2 == 0 {
            DotCell::Inactive
        } else {
            DotCell::Empty
        }),
{
    let idx = cell_index(columns, x, y);
    lemma_index_bound(rows, columns, x, y);
    lemma_cell_index(columns, x, y);
    let cs = edge_cells(rows, columns);
    if cs.contains((x, y)) {
        let e = choose|e: int| 0 <= e < cs.len() && cs[e] == (x, y);
        assert(edge_index(rows, columns, e) == idx);
        assert(is_edge(rows, columns, idx));
    } else {
        assert forall|e: int| 0 <= e < 6 implies #[trigger] edge_index(rows, columns, e) != idx by {
            let c = cs[e];
            assert(0 <= c.0 < columns && 0 <= c.1 < rows);
            lemma_cell_index(columns, c.0, c.1);
            if edge_index(rows, columns, e) == idx {
                assert(c.0 == x && c.1 == y);
                assert(cs[e] == (x, y));
                assert(cs.contains((x, y)));
            }
        }
        assert(!is_edge(rows, columns, idx));
    }
    assert(cell_value(grid[idx]) == outline_value(rows, columns, idx));
}

/// `pixs` with corner cell `e` set to `vals[e]` for the first `n`
/// corners, in corner order.
pub open spec fn edge_prefix(rows: int, columns: int, pixs: Seq<i8>, vals: Seq<i8>, n: int) -> Seq<i8>
    decreases n,
{
    if n <= 0 {
        pixs
    } else {
        edge_prefix(rows, columns, pixs, vals, n - 1).update(edge_index(rows, columns, n - 1), vals[n - 1])
    }
}

/// `pixs` with the six corner cells set to `1`.
pub open spec fn lit_spec(rows: int, columns: int, pixs: Seq<i8>) -> Seq<i8> {
    edge_prefix(rows, columns, pixs, seq![1i8, 1, 1, 1, 1, 1], 6)
}

/// Lighting the corners keeps a grid of `0`s and `1`s one.
pub proof fn lemma_lit_keeps_bits(rows: int, columns: int, pixs: Seq<i8>)
    requires
        grid_ok(rows, columns),
        pixs.len() == rows * columns,
        forall|idx: int| 0 <= idx < pixs.len() ==> #[trigger] pixs[idx] == 0 || pixs[idx] == 1,
    ensures
        lit_spec(rows, columns, pixs).len() == rows * columns,
        forall|idx: int|
            0 <= idx < rows * columns ==> #[trigger] lit_spec(rows, columns, pixs)[idx] == 0
                || lit_spec(rows, columns, pixs)[idx] == 1,
{
    lemma_lit_prefix(rows, columns, pixs, seq![1i8, 1, 1, 1, 1, 1], 6);
}

proof fn lemma_lit_prefix(rows: int, columns: int, pixs: Seq<i8>, vals: Seq<i8>, m: int)
    requires
        grid_ok(rows, columns),
        pixs.len() == rows * columns,
        0 <= m <= 6,
        vals.len() == 6,
        forall|k: int| 0 <= k < 6 ==> #[trigger] vals[k] == 0 || vals[k] == 1,
        forall|idx: int| 0 <= idx < pixs.len() ==> #[trigger] pixs[idx] == 0 || pixs[idx] == 1,
    ensures
        edge_prefix(rows, columns, pixs, vals, m).len() == rows * columns,
        forall|idx: int|
            0 <= idx < rows * columns ==> #[trigger] edge_prefix(rows, columns, pixs, vals, m)[idx] == 0
                || edge_prefix(rows, columns, pixs, vals, m)[idx] == 1,
    decreases m,
{
    lemma_edge_prefix_len(rows, columns, pixs, vals, m);
    if m > 0 {
        lemma_lit_prefix(rows, columns, pixs, vals, m - 1);
        lemma_edges_inside(rows, columns);
        assert(vals[m - 1] == 0 || vals[m - 1] == 1);
    }
}

/// Forces the six corner cells to `1`.
pub fn apply_lit_mask(rows: usize, columns: usize, pixs: &mut Vec<i8>)
    requires
        grid_ok(rows as int, columns as int),
        old(pixs)@.len() == rows * columns,
    ensures
        final(pixs)@ == lit_spec(rows as int, columns as int, old(pixs)@),
{
    let mut e: usize = 0;
    while e < 6
        invariant
            grid_ok(rows as int, columns as int),
            pixs@.len() == rows * columns,
            e <= 6,
            pixs@ == edge_prefix(rows as int, columns as int, old(pixs)@, seq![1i8, 1, 1, 1, 1, 1], e as int),
        decreases 6 - e,
    {
        let idx = edge_at(rows, columns, e);
        pixs.set(idx, 1);
        e = e + 1;
    }
}

/// Cell of the grid at step `s` of the snake path: down the columns left
/// to right for an even number of rows, along the rows bottom to top for
/// an odd one.
pub open spec fn snake_cell(rows: int, columns: int, s: int) -> int {
    if rows % 2 == 0 {
        cell_index(columns, s / rows, s % rows)
    } else {
        cell_index(columns, s % columns, rows - 1 - s / columns)
    }
}

/// Number of free cells among the first `s` steps of the snake path.
pub open spec fn free_count(rows: int, columns: int, s: int) -> int
    decreases s,
{
    if s <= 0 {
        0
    } else {
        free_count(rows, columns, s - 1) + if outline_value(
            rows,
            columns,
            snake_cell(rows, columns, s - 1),
        ) == -1 {
            1int
        } else {
            0int
        }
    }
}

/// The dot value of a bit character.
pub open spec fn bit_value(c: char) -> i8 {
    if c == '1' {
        1
    } else {
        0
    }
}

/// The outline as numbers.
pub open spec fn outline_seq(rows: int, columns: int) -> Seq<i8> {
    Seq::new((rows * columns) as nat, |idx: int| outline_value(rows, columns, idx))
}

/// The outline after the first `s` steps of the snake path, where the
/// `k`-th free cell met receives bit `k` while `k < n`.
pub open spec fn snake_fill(rows: int, columns: int, bits: Seq<char>, n: int, s: int) -> Seq<i8>
    decreases s,
{
    if s <= 0 {
        outline_seq(rows, columns)
    } else {
        let prev = snake_fill(rows, columns, bits, n, s - 1);
        let c = snake_cell(rows, columns, s - 1);
        let k = free_count(rows, columns, s - 1);
        if outline_value(rows, columns, c) == -1 && k < n {
            prev.update(c, bit_value(bits[k]))
        } else {
            prev
        }
    }
}

/// The rendered grid: all but the last six bits go, in order, to the free
/// cells along the snake path; the last six go to the six corners.
pub open spec fn render_spec(rows: int, columns: int, bits: Seq<char>) -> Seq<i8> {
    let n = bits.len() - 6;
    edge_prefix(
        rows,
        columns,
        snake_fill(rows, columns, bits, n, rows * columns),
        Seq::new(6, |e: int| bit_value(bits[n + e])),
        6,
    )
}

proof fn lemma_snake_cell_inside(rows: int, columns: int, s: int)
    requires
        grid_ok(rows, columns),
        0 <= s < rows * columns,
    ensures
        0 <= snake_cell(rows, columns, s) < rows * columns,
{
    if rows % 2 == 0 {
        assert(s / rows < columns) by (nonlinear_arith)
            requires
                0 <= s < rows * columns,
                rows > 0,
        ;
        assert(0 <= s / rows);
        lemma_index_bound(rows, columns, s / rows, s % rows);
    } else {
        assert(s / columns < rows) by (nonlinear_arith)
            requires
                0 <= s < rows * columns,
                columns > 0,
        ;
        assert(0 <= s / columns);
        lemma_index_bound(rows, columns, s % columns, rows - 1 - s / columns);
    }
}

proof fn lemma_snake_injective(rows: int, columns: int, s: int, t: int)
    requires
        grid_ok(rows, columns),
        0 <= s < rows * columns,
        0 <= t < rows * columns,
        snake_cell(rows, columns, s) == snake_cell(rows, columns, t),
    ensures
        s == t,
{
    if rows % 2 == 0 {
        lemma_snake_cell_inside(rows, columns, s);
        lemma_snake_cell_inside(rows, columns, t);
        assert(s / rows < columns) by (nonlinear_arith)
            requires
                0 <= s < rows * columns,
                rows > 0,
        ;
        assert(t / rows < columns) by (nonlinear_arith)
            requires
                0 <= t < rows * columns,
                rows > 0,
        ;
        lemma_cell_index(columns, s / rows, s % rows);
        lemma_cell_index(columns, t / rows, t % rows);
        vstd::arithmetic::div_mod::lemma_fundamental_div_mod(s, rows);
        vstd::arithmetic::div_mod::lemma_fundamental_div_mod(t, rows);
    } else {
        lemma_snake_cell_inside(rows, columns, s);
        lemma_snake_cell_inside(rows, columns, t);
        assert(s / columns < rows) by (nonlinear_arith)
            requires
                0 <= s < rows * columns,
                columns > 0,
        ;
        assert(t / columns < rows) by (nonlinear_arith)
            requires
                0 <= t < rows * columns,
                columns > 0,
        ;
        lemma_cell_index(columns, s % columns, rows - 1 - s / columns);
        lemma_cell_index(columns, t % columns, rows - 1 - t / columns);
        vstd::arithmetic::div_mod::lemma_fundamental_div_mod(s, columns);
        vstd::arithmetic::div_mod::lemma_fundamental_div_mod(t, columns);
    }
}

/// Cells not yet reached along the snake path still hold their outline
/// value.
proof fn lemma_snake_fill_untouched(rows: int, columns: int, bits: Seq<char>, n: int, s: int, t: int)
    requires
        grid_ok(rows, columns),
        0 <= s <= t < rows * columns,
    ensures
        snake_fill(rows, columns, bits, n, s).len() == rows * columns,
        snake_fill(rows, columns, bits, n, s)[snake_cell(rows, columns, t)] == outline_value(
            rows,
            columns,
            snake_cell(rows, columns, t),
        ),
    decreases s,
{
    lemma_snake_cell_inside(rows, columns, t);
    if s > 0 {
        lemma_snake_fill_untouched(rows, columns, bits, n, s - 1, t);
        lemma_snake_cell_inside(rows, columns, s - 1);
        if snake_cell(rows, columns, s - 1) == snake_cell(rows, columns, t) {
            lemma_snake_injective(rows, columns, s - 1, t);
        }
    }
}

proof fn lemma_snake_fill_len(rows: int, columns: int, bits: Seq<char>, n: int, s: int)
    requires
        grid_ok(rows, columns),
        0 <= s <= rows * columns,
    ensures
        snake_fill(rows, columns, bits, n, s).len() == rows * columns,
    decreases s,
{
    assert(rows * columns >= 0) by (nonlinear_arith)
        requires
            rows >= 2,
            columns >= 2,
    ;
    if s > 0 {
        lemma_snake_fill_len(rows, columns, bits, n, s - 1);
        lemma_snake_cell_inside(rows, columns, s - 1);
    }
}

/// A rendered grid has one value per cell.
pub proof fn lemma_render_len(rows: int, columns: int, bits: Seq<char>)
    requires
        grid_ok(rows, columns),
    ensures
        render_spec(rows, columns, bits).len() == rows * columns,
{
    let n = bits.len() - 6;
    lemma_snake_fill_len(rows, columns, bits, n, rows * columns);
    lemma_edges_inside(rows, columns);
    lemma_edge_prefix_len(
        rows,
        columns,
        snake_fill(rows, columns, bits, n, rows * columns),
        Seq::new(6, |e: int| bit_value(bits[n + e])),
        6,
    );
}

/// Setting corners keeps the length.
pub proof fn lemma_edge_prefix_len(rows: int, columns: int, pixs: Seq<i8>, vals: Seq<i8>, n: int)
    requires
        grid_ok(rows, columns),
        pixs.len() == rows * columns,
        n <= 6,
    ensures
        edge_prefix(rows, columns, pixs, vals, n).len() == rows * columns,
    decreases n,
{
    lemma_edges_inside(rows, columns);
    if n > 0 {
        lemma_edge_prefix_len(rows, columns, pixs, vals, n - 1);
    }
}

proof fn lemma_snake_fill_fixed(rows: int, columns: int, bits: Seq<char>, n: int, s: int, idx: int)
    requires
        grid_ok(rows, columns),
        0 <= s <= rows * columns,
        0 <= idx < rows * columns,
        outline_value(rows, columns, idx) != -1,
    ensures
        snake_fill(rows, columns, bits, n, s)[idx] == outline_value(rows, columns, idx),
    decreases s,
{
    lemma_snake_fill_len(rows, columns, bits, n, s);
    if s > 0 {
        lemma_snake_fill_fixed(rows, columns, bits, n, s - 1, idx);
        lemma_snake_fill_len(rows, columns, bits, n, s - 1);
        lemma_snake_cell_inside(rows, columns, s - 1);
    }
}

proof fn lemma_snake_fill_at(rows: int, columns: int, bits: Seq<char>, n: int, s: int, t: int)
    requires
        grid_ok(rows, columns),
        0 <= s < t <= rows * columns,
    ensures
        snake_fill(rows, columns, bits, n, t)[snake_cell(rows, columns, s)] == (if outline_value(
            rows,
            columns,
            snake_cell(rows, columns, s),
        ) == -1 && free_count(rows, columns, s) < n {
            bit_value(bits[free_count(rows, columns, s)])
        } else {
            outline_value(rows, columns, snake_cell(rows, columns, s))
        }),
    decreases t,
{
    lemma_snake_cell_inside(rows, columns, s);
    lemma_snake_fill_len(rows, columns, bits, n, t);
    lemma_snake_fill_len(rows, columns, bits, n, t - 1);
    if t - 1 == s {
        lemma_snake_fill_untouched(rows, columns, bits, n, s, s);
    } else {
        lemma_snake_fill_at(rows, columns, bits, n, s, t - 1);
        lemma_snake_cell_inside(rows, columns, t - 1);
        if snake_cell(rows, columns, t - 1) == snake_cell(rows, columns, s) {
            lemma_snake_injective(rows, columns, s, t - 1);
        }
    }
}

proof fn lemma_edge_prefix_other(rows: int, columns: int, pixs: Seq<i8>, vals: Seq<i8>, m: int, idx: int)
    requires
        grid_ok(rows, columns),
        pixs.len() == rows * columns,
        0 <= m <= 6,
        0 <= idx < rows * columns,
        forall|e: int| 0 <= e < m ==> #[trigger] edge_index(rows, columns, e) != idx,
    ensures
        edge_prefix(rows, columns, pixs, vals, m)[idx] == pixs[idx],
    decreases m,
{
    if m > 0 {
        lemma_edge_prefix_other(rows, columns, pixs, vals, m - 1, idx);
        lemma_edge_prefix_len(rows, columns, pixs, vals, m - 1);
        assert(edge_index(rows, columns, m - 1) != idx);
        lemma_edges_inside(rows, columns);
    }
}

proof fn lemma_edge_prefix_corner(rows: int, columns: int, pixs: Seq<i8>, vals: Seq<i8>, m: int, e: int)
    requires
        grid_ok(rows, columns),
        pixs.len() == rows * columns,
        0 <= e < m <= 6,
        forall|a: int, b: int|
            0 <= a < b < 6 ==> #[trigger] edge_index(rows, columns, a) != #[trigger] edge_index(
                rows,
                columns,
                b,
            ),
    ensures
        edge_prefix(rows, columns, pixs, vals, m)[edge_index(rows, columns, e)] == vals[e],
    decreases m,
{
    lemma_edges_inside(rows, columns);
    lemma_edge_prefix_len(rows, columns, pixs, vals, m - 1);
    if e < m - 1 {
        lemma_edge_prefix_corner(rows, columns, pixs, vals, m - 1, e);
        assert(edge_index(rows, columns, e) != edge_index(rows, columns, m - 1));
    }
}

/// With at least five rows and five columns the six corner cells are
/// distinct, and with `rows + columns` odd each has an even `x + y`.
pub proof fn lemma_corners_distinct(rows: int, columns: int)
    requires
        grid_ok(rows, columns),
        rows >= 5,
        columns >= 5,
    ensures
        forall|a: int, b: int|
            0 <= a < b < 6 ==> #[trigger] edge_index(rows, columns, a) != #[trigger] edge_index(
                rows,
                columns,
                b,
            ),
        (rows + columns) % 2 == 1 ==> forall|e: int|
            0 <= e < 6 ==> (edge_cells(rows, columns)[e].0 + edge_cells(rows, columns)[e].1) % 2 == 0
                && #[trigger] outline_value(rows, columns, edge_index(rows, columns, e)) == 1,
{
    let cs = edge_cells(rows, columns);
    assert forall|e: int| 0 <= e < 6 implies 0 <= #[trigger] cs[e].0 < columns && 0 <= cs[e].1 < rows by {}
    assert forall|a: int, b: int| 0 <= a < b < 6 implies #[trigger] edge_index(rows, columns, a)
        != #[trigger] edge_index(rows, columns, b) by {
        lemma_cell_index(columns, cs[a].0, cs[a].1);
        lemma_cell_index(columns, cs[b].0, cs[b].1);
    }
    assert forall|e: int| 0 <= e < 6 implies #[trigger] outline_value(rows, columns, edge_index(rows, columns, e))
        == 1 by {
        assert(is_edge(rows, columns, edge_index(rows, columns, e)));
    }
}

/// How a bit string is laid on the grid (five rows and five columns at
/// least, `rows + columns` odd): the grid has one value per cell; every
/// cell with `x + y` odd is `0`; corner `e` holds the value of bit
/// `len - 6 + e`; and the free cells (`x + y` even, not a corner) are
/// met one after another along the snake path, the `k`-th of them
/// receiving bit `k` while `k < len - 6`.
pub proof fn law_render_layout(rows: int, columns: int, bits: Seq<char>)
    requires
        grid_ok(rows, columns),
        rows >= 5,
        columns >= 5,
        (rows + columns) % 2 == 1,
        bits.len() >= 6,
    ensures
        render_spec(rows, columns, bits).len() == rows * columns,
        forall|x: int, y: int|
            0 <= x < columns && 0 <= y < rows && (x + y) % 2 == 1 ==> #[trigger] render_spec(
                rows,
                columns,
                bits,
            )[cell_index(columns, x, y)] == 0,
        forall|e: int|
            0 <= e < 6 ==> #[trigger] render_spec(rows, columns, bits)[edge_index(rows, columns, e)]
                == bit_value(bits[bits.len() - 6 + e]),
        forall|s: int|
            0 <= s < rows * columns && outline_value(rows, columns, snake_cell(rows, columns, s)) == -1
                && free_count(rows, columns, s) < bits.len() - 6 ==> #[trigger] render_spec(
                rows,
                columns,
                bits,
            )[snake_cell(rows, columns, s)] == bit_value(bits[free_count(rows, columns, s)]),
        forall|s: int, t: int|
            0 <= s < rows * columns && 0 <= t < rows * columns && s != t ==> #[trigger] snake_cell(
                rows,
                columns,
                s,
            ) != #[trigger] snake_cell(rows, columns, t),
{
    let n = bits.len() - 6;
    let rc = rows * columns;
    let base = snake_fill(rows, columns, bits, n, rc);
    let vals = Seq::new(6, |e: int| bit_value(bits[n + e]));
    lemma_render_len(rows, columns, bits);
    lemma_snake_fill_len(rows, columns, bits, n, rc);
    lemma_corners_distinct(rows, columns);
    lemma_edges_inside(rows, columns);
    let g = render_spec(rows, columns, bits);
    assert(g == edge_prefix(rows, columns, base, vals, 6));
    assert forall|x: int, y: int| 0 <= x < columns && 0 <= y < rows && (x + y) % 2 == 1 implies
        #[trigger] g[cell_index(columns, x, y)] == 0 by {
        let idx = cell_index(columns, x, y);
        lemma_index_bound(rows, columns, x, y);
        lemma_cell_index(columns, x, y);
        assert forall|e: int| 0 <= e < 6 implies #[trigger] edge_index(rows, columns, e) != idx by {
            let c = edge_cells(rows, columns)[e];
            lemma_cell_index(columns, c.0, c.1);
            assert(0 <= c.0 < columns && 0 <= c.1 < rows);
        }
        assert(!is_edge(rows, columns, idx));
        lemma_edge_prefix_other(rows, columns, base, vals, 6, idx);
        lemma_snake_fill_fixed(rows, columns, bits, n, rc, idx);
    }
    assert forall|e: int| 0 <= e < 6 implies #[trigger] g[edge_index(rows, columns, e)] == bit_value(
        bits[bits.len() - 6 + e],
    ) by {
        lemma_edge_prefix_corner(rows, columns, base, vals, 6, e);
    }
    assert forall|s: int|
        0 <= s < rc && outline_value(rows, columns, snake_cell(rows, columns, s)) == -1 && free_count(
            rows,
            columns,
            s,
        ) < n implies #[trigger] g[snake_cell(rows, columns, s)] == bit_value(
        bits[free_count(rows, columns, s)],
    ) by {
        let c = snake_cell(rows, columns, s);
        lemma_snake_cell_inside(rows, columns, s);
        assert forall|e: int| 0 <= e < 6 implies #[trigger] edge_index(rows, columns, e) != c by {
            assert(outline_value(rows, columns, edge_index(rows, columns, e)) == 1);
        }
        lemma_edge_prefix_other(rows, columns, base, vals, 6, c);
        lemma_snake_fill_at(rows, columns, bits, n, s, rc);
    }
    assert forall|s: int, t: int|
        0 <= s < rc && 0 <= t < rc && s != t implies #[trigger] snake_cell(rows, columns, s)
        != #[trigger] snake_cell(rows, columns, t) by {
        if snake_cell(rows, columns, s) == snake_cell(rows, columns, t) {
            lemma_snake_injective(rows, columns, s, t);
        }
    }
}

/// `x + y` of cell `idx` is even.
pub open spec fn even_cell(columns: int, idx: int) -> bool {
    (idx % columns + idx / columns) % 2 == 0
}

/// Number of even cells among the first `s` steps of the snake path.
pub open spec fn even_count(rows: int, columns: int, s: int) -> int
    decreases s,
{
    if s <= 0 {
        0
    } else {
        even_count(rows, columns, s - 1) + if even_cell(columns, snake_cell(rows, columns, s - 1)) {
            1int
        } else {
            0int
        }
    }
}

/// Number of corner cells among the first `s` steps of the snake path.
pub open spec fn corner_hits(rows: int, columns: int, s: int) -> int
    decreases s,
{
    if s <= 0 {
        0
    } else {
        corner_hits(rows, columns, s - 1) + if is_edge(rows, columns, snake_cell(rows, columns, s - 1)) {
            1int
        } else {
            0int
        }
    }
}

proof fn lemma_free_split(rows: int, columns: int, s: int)
    requires
        grid_ok(rows, columns),
        rows >= 5,
        columns >= 5,
        (rows + columns) % 2 == 1,
        0 <= s <= rows * columns,
    ensures
        free_count(rows, columns, s) == even_count(rows, columns, s) - corner_hits(rows, columns, s),
    decreases s,
{
    if s > 0 {
        lemma_free_split(rows, columns, s - 1);
        let c = snake_cell(rows, columns, s - 1);
        lemma_snake_cell_inside(rows, columns, s - 1);
        if is_edge(rows, columns, c) {
            let e = choose|e: int| 0 <= e < 6 && #[trigger] edge_index(rows, columns, e) == c;
            let p = edge_cells(rows, columns)[e];
            assert(0 <= p.0 < columns && 0 <= p.1 < rows);
            lemma_cell_index(columns, p.0, p.1);
            lemma_corners_distinct(rows, columns);
        }
    }
}

proof fn lemma_pair_step(d: int, j: int)
    requires
        d >= 2,
        d % 2 == 0,
        j >= 0,
    ensures
        (2 * j) / d == (2 * j + 1) / d,
        (2 * j + 1) % d == (2 * j) % d + 1,
{
    let q = (2 * j) / d;
    let r = (2 * j) % d;
    vstd::arithmetic::div_mod::lemma_fundamental_div_mod(2 * j, d);
    let h = d / 2;
    let t = h * q;
    assert(d * q == 2 * t) by (nonlinear_arith)
        requires
            d == 2 * h,
            t == h * q,
    ;
    assert(r == 2 * (j - t));
    assert(r % 2 == 0);
    assert(r + 1 < d);
    assert(2 * j + 1 == d * q + (r + 1));
    vstd::arithmetic::div_mod::lemma_fundamental_div_mod_converse(2 * j + 1, d, q, r + 1);
}

proof fn lemma_even_count(rows: int, columns: int, j: int)
    requires
        grid_ok(rows, columns),
        (rows + columns) % 2 == 1,
        0 <= 2 * j <= rows * columns,
    ensures
        even_count(rows, columns, 2 * j) == j,
    decreases j,
{
    if j > 0 {
        lemma_even_count(rows, columns, j - 1);
        let s0 = 2 * (j - 1);
        let s1 = s0 + 1;
        assert(even_count(rows, columns, s1) == even_count(rows, columns, s0) + (if even_cell(
            columns,
            snake_cell(rows, columns, s0),
        ) {
            1int
        } else {
            0int
        }));
        assert(even_count(rows, columns, 2 * j) == even_count(rows, columns, s0) + (if even_cell(
            columns,
            snake_cell(rows, columns, s0),
        ) {
            1int
        } else {
            0int
        }) + (if even_cell(columns, snake_cell(rows, columns, s1)) {
            1int
        } else {
            0int
        }));
        if rows % 2 == 0 {
            lemma_pair_step(rows, j - 1);
            assert(s0 / rows < columns && s1 / rows < columns) by (nonlinear_arith)
                requires
                    0 <= s0 < s1 < rows * columns,
                    rows > 0,
            ;
            lemma_cell_index(columns, s0 / rows, s0 % rows);
            lemma_cell_index(columns, s1 / rows, s1 % rows);
        } else {
            assert(columns % 2 == 0);
            lemma_pair_step(columns, j - 1);
            assert(s0 / columns < rows && s1 / columns < rows) by (nonlinear_arith)
                requires
                    0 <= s0 < s1 < rows * columns,
                    columns > 0,
            ;
            lemma_cell_index(columns, s0 % columns, rows - 1 - s0 / columns);
            lemma_cell_index(columns, s1 % columns, rows - 1 - s1 / columns);
        }
    }
}

/// The snake step at which cell `(x, y)` is reached.
pub open spec fn snake_pos(rows: int, columns: int, x: int, y: int) -> int {
    if rows % 2 == 0 {
        x * rows + y
    } else {
        (rows - 1 - y) * columns + x
    }
}

/// The snake step at which corner `e` is reached.
pub open spec fn corner_pos(rows: int, columns: int, e: int) -> int {
    snake_pos(rows, columns, edge_cells(rows, columns)[e].0, edge_cells(rows, columns)[e].1)
}

/// Every cell is reached by the snake path, at [`snake_pos`].
proof fn lemma_snake_pos(rows: int, columns: int, x: int, y: int)
    requires
        grid_ok(rows, columns),
        0 <= x < columns,
        0 <= y < rows,
    ensures
        0 <= snake_pos(rows, columns, x, y) < rows * columns,
        snake_cell(rows, columns, snake_pos(rows, columns, x, y)) == cell_index(columns, x, y),
{
    let p = snake_pos(rows, columns, x, y);
    if rows % 2 == 0 {
        assert(0 <= x * rows + y < rows * columns) by (nonlinear_arith)
            requires
                0 <= x < columns,
                0 <= y < rows,
        ;
        vstd::arithmetic::div_mod::lemma_fundamental_div_mod_converse(p, rows, x, y);
    } else {
        let yy = rows - 1 - y;
        assert(0 <= yy * columns + x < rows * columns) by (nonlinear_arith)
            requires
                0 <= x < columns,
                0 <= yy < rows,
        ;
        vstd::arithmetic::div_mod::lemma_fundamental_div_mod_converse(p, columns, yy, x);
    }
}

/// Number of corners reached before step `s`.
pub open spec fn corners_before(rows: int, columns: int, s: int) -> int {
    (if corner_pos(rows, columns, 0) < s { 1int } else { 0int }) + (if corner_pos(rows, columns, 1) < s {
        1int
    } else {
        0int
    }) + (if corner_pos(rows, columns, 2) < s { 1int } else { 0int }) + (if corner_pos(rows, columns, 3)
        < s {
        1int
    } else {
        0int
    }) + (if corner_pos(rows, columns, 4) < s { 1int } else { 0int }) + (if corner_pos(rows, columns, 5)
        < s {
        1int
    } else {
        0int
    })
}

proof fn lemma_corner_pos(rows: int, columns: int, e: int)
    requires
        grid_ok(rows, columns),
        rows >= 5,
        columns >= 5,
        0 <= e < 6,
    ensures
        0 <= corner_pos(rows, columns, e) < rows * columns,
        snake_cell(rows, columns, corner_pos(rows, columns, e)) == edge_index(rows, columns, e),
{
    let c = edge_cells(rows, columns)[e];
    assert(0 <= c.0 < columns && 0 <= c.1 < rows);
    lemma_snake_pos(rows, columns, c.0, c.1);
}

proof fn lemma_corner_hits(rows: int, columns: int, s: int)
    requires
        grid_ok(rows, columns),
        rows >= 5,
        columns >= 5,
        0 <= s <= rows * columns,
    ensures
        corner_hits(rows, columns, s) == corners_before(rows, columns, s),
    decreases s,
{
    if s > 0 {
        lemma_corner_hits(rows, columns, s - 1);
        lemma_corners_distinct(rows, columns);
        lemma_corner_pos(rows, columns, 0);
        lemma_corner_pos(rows, columns, 1);
        lemma_corner_pos(rows, columns, 2);
        lemma_corner_pos(rows, columns, 3);
        lemma_corner_pos(rows, columns, 4);
        lemma_corner_pos(rows, columns, 5);
        let c = snake_cell(rows, columns, s - 1);
        assert forall|e: int| 0 <= e < 6 implies (corner_pos(rows, columns, e) == s - 1 <==> #[trigger] edge_index(
            rows,
            columns,
            e,
        ) == c) by {
            if edge_index(rows, columns, e) == c {
                lemma_snake_injective(rows, columns, corner_pos(rows, columns, e), s - 1);
            }
        }
        assert forall|a: int, b: int| 0 <= a < b < 6 implies #[trigger] corner_pos(rows, columns, a)
            != #[trigger] corner_pos(rows, columns, b) by {
            assert(edge_index(rows, columns, a) != edge_index(rows, columns, b));
        }
        if is_edge(rows, columns, c) {
            let e = choose|e: int| 0 <= e < 6 && #[trigger] edge_index(rows, columns, e) == c;
            assert(corner_pos(rows, columns, e) == s - 1);
        } else {
            assert forall|e: int| 0 <= e < 6 implies #[trigger] edge_index(rows, columns, e) != c by {}
        }
        assert(corner_pos(rows, columns, 0) == s - 1 <==> edge_index(rows, columns, 0) == c);
        assert(corner_pos(rows, columns, 1) == s - 1 <==> edge_index(rows, columns, 1) == c);
        assert(corner_pos(rows, columns, 2) == s - 1 <==> edge_index(rows, columns, 2) == c);
        assert(corner_pos(rows, columns, 3) == s - 1 <==> edge_index(rows, columns, 3) == c);
        assert(corner_pos(rows, columns, 4) == s - 1 <==> edge_index(rows, columns, 4) == c);
        assert(corner_pos(rows, columns, 5) == s - 1 <==> edge_index(rows, columns, 5) == c);
    }
}

proof fn lemma_free_count_mono(rows: int, columns: int, s: int, t: int)
    requires
        0 <= s <= t,
    ensures
        free_count(rows, columns, s) <= free_count(rows, columns, t),
    decreases t - s,
{
    if s < t {
        lemma_free_count_mono(rows, columns, s, t - 1);
    }
}

/// With as many bits as the grid has dots (`rows * columns / 2`), the
/// snake path meets exactly `len - 6` free cells, so every free cell
/// receives a bit: the `k`-th free cell met receives bit `k`, for every
/// free cell, and two free cells never receive the same bit; so every cell
/// of the rendered grid is `0` or `1`.
pub proof fn law_render_fills_every_free_cell(rows: int, columns: int, bits: Seq<char>)
    requires
        grid_ok(rows, columns),
        rows >= 5,
        columns >= 5,
        (rows + columns) % 2 == 1,
        bits.len() == rows * columns / 2,
    ensures
        free_count(rows, columns, rows * columns) == bits.len() - 6,
        forall|s: int|
            0 <= s < rows * columns && outline_value(rows, columns, snake_cell(rows, columns, s)) == -1
                ==> #[trigger] free_count(rows, columns, s) < bits.len() - 6,
        forall|s: int|
            0 <= s < rows * columns && outline_value(rows, columns, snake_cell(rows, columns, s)) == -1
                ==> #[trigger] render_spec(rows, columns, bits)[snake_cell(rows, columns, s)]
                == bit_value(bits[free_count(rows, columns, s)]),
        forall|s: int, t: int|
            0 <= s < t < rows * columns && outline_value(rows, columns, snake_cell(rows, columns, s))
                == -1 ==> #[trigger] free_count(rows, columns, s) < #[trigger] free_count(rows, columns, t),
        forall|idx: int|
            0 <= idx < rows * columns ==> #[trigger] render_spec(rows, columns, bits)[idx] == 0
                || render_spec(rows, columns, bits)[idx] == 1,
{
    let rc = rows * columns;
    assert(rc % 2 == 0) by (nonlinear_arith)
        requires
            (rows + columns) % 2 == 1,
            rc == rows * columns,
            rows >= 0,
            columns >= 0,
    {
        if rows % 2 == 0 {
            assert(rows * columns == 2 * ((rows / 2) * columns));
        } else {
            assert(rows * columns == 2 * (rows * (columns / 2)));
        }
    }
    let j = rc / 2;
    lemma_even_count(rows, columns, j);
    lemma_corner_hits(rows, columns, rc);
    lemma_free_split(rows, columns, rc);
    lemma_corner_pos(rows, columns, 0);
    lemma_corner_pos(rows, columns, 1);
    lemma_corner_pos(rows, columns, 2);
    lemma_corner_pos(rows, columns, 3);
    lemma_corner_pos(rows, columns, 4);
    lemma_corner_pos(rows, columns, 5);
    assert(free_count(rows, columns, rc) == bits.len() - 6);
    assert forall|s: int|
        0 <= s < rc && outline_value(rows, columns, snake_cell(rows, columns, s)) == -1 implies
        #[trigger] free_count(rows, columns, s) < bits.len() - 6 by {
        lemma_free_count_mono(rows, columns, s + 1, rc);
    }
    assert forall|s: int, t: int|
        0 <= s < t < rc && outline_value(rows, columns, snake_cell(rows, columns, s)) == -1 implies
        #[trigger] free_count(rows, columns, s) < #[trigger] free_count(rows, columns, t) by {
        lemma_free_count_mono(rows, columns, s + 1, t);
    }
    assert(rc >= 25) by (nonlinear_arith)
        requires
            rows >= 5,
            columns >= 5,
            rc == rows * columns,
    ;
    law_render_layout(rows, columns, bits);
    let g = render_spec(rows, columns, bits);
    assert forall|idx: int| 0 <= idx < rc implies #[trigger] g[idx] == 0 || g[idx] == 1 by {
        let x = idx % columns;
        let y = idx / columns;
        vstd::arithmetic::div_mod::lemma_fundamental_div_mod(idx, columns);
        assert(y < rows) by (nonlinear_arith)
            requires
                0 <= idx < rows * columns,
                columns > 0,
                y == idx / columns,
        ;
        assert(cell_index(columns, x, y) == idx);
        if (x + y) % 2 == 1 {
            assert(g[cell_index(columns, x, y)] == 0);
        } else if is_edge(rows, columns, idx) {
            let e = choose|e: int| 0 <= e < 6 && #[trigger] edge_index(rows, columns, e) == idx;
            assert(g[edge_index(rows, columns, e)] == bit_value(bits[bits.len() - 6 + e]));
        } else {
            lemma_snake_pos(rows, columns, x, y);
            let sp = snake_pos(rows, columns, x, y);
            assert(outline_value(rows, columns, snake_cell(rows, columns, sp)) == -1);
            assert(g[snake_cell(rows, columns, sp)] == bit_value(bits[free_count(rows, columns, sp)]));
        }
    }
}

/// Row-major index of snake step `s`.
fn snake_index(rows: usize, columns: usize, s: usize) -> (idx: usize)
    requires
        grid_ok(rows as int, columns as int),
        s < rows * columns,
    ensures
        idx as int == snake_cell(rows as int, columns as int, s as int),
        idx < rows * columns,
{
    proof {
        lemma_snake_cell_inside(rows as int, columns as int, s as int);
        if rows % 2 == 1 {
            assert(s / columns < rows) by (nonlinear_arith)
                requires
                    0 <= s < rows * columns,
                    columns > 0,
            ;
            assert((rows - 1 - s / columns) * columns <= rows * columns) by (nonlinear_arith)
                requires
                    s / columns < rows,
                    columns > 0,
                    s / columns >= 0,
            ;
        } else {
            assert((s % rows) * columns <= rows * columns) by (nonlinear_arith)
                requires
                    0 <= s % rows < rows,
                    columns > 0,
            ;
        }
    }
    if rows % 2 == 0 {
        (s % rows) * columns + s / rows
    } else {
        (rows - 1 - s / columns) * columns + s % columns
    }
}

/// Lays the bit string on the grid: the snake path fills the free cells
/// with all but the last six bits, the last six go to the corners.
pub fn render_pixs(rows: usize, columns: usize, bits: &str) -> (pixs: Vec<i8>)
    requires
        grid_ok(rows as int, columns as int),
        6 <= bits@.len() < 0x100_0000,
        forall|k: int| 0 <= k < bits@.len() ==> #[trigger] bits@[k] == '0' || bits@[k] == '1',
    ensures
        pixs@ == render_spec(rows as int, columns as int, bits@),
{
    let total = rows * columns;
    let outline = init_outline(rows, columns);
    let mut pixs: Vec<i8> = Vec::new();
    let mut j: usize = 0;
    while j < total
        invariant
            total == rows * columns,
            outline@.len() == total,
            forall|idx: int|
                0 <= idx < total ==> cell_value(#[trigger] outline@[idx]) == outline_value(
                    rows as int,
                    columns as int,
                    idx,
                ),
            j <= total,
            pixs@.len() == j,
            forall|idx: int| 0 <= idx < j ==> #[trigger] pixs@[idx] == outline_value(rows as int, columns as int, idx),
        decreases total - j,
    {
        pixs.push(dot_cell_value(outline[j]));
        j = j + 1;
    }
    proof {
        assert(pixs@ =~= snake_fill(rows as int, columns as int, bits@, bits@.len() - 6, 0));
    }
    let nbits = bits.unicode_len();
    let main_len = nbits - 6;
    let mut k: usize = 0;
    let mut s: usize = 0;
    while s < total
        invariant
            grid_ok(rows as int, columns as int),
            total == rows * columns,
            nbits == bits@.len(),
            main_len == nbits - 6,
            s <= total,
            k as int == if free_count(rows as int, columns as int, s as int) < main_len {
                free_count(rows as int, columns as int, s as int)
            } else {
                main_len as int
            },
            pixs@ == snake_fill(rows as int, columns as int, bits@, main_len as int, s as int),
        decreases total - s,
    {
        let idx = snake_index(rows, columns, s);
        proof {
            lemma_snake_fill_untouched(rows as int, columns as int, bits@, main_len as int, s as int, s as int);
        }
        if k < main_len && pixs[idx] == -1 {
            let c = bits.get_char(k);
            let v: i8 = if c == '1' {
                1
            } else {
                0
            };
            pixs.set(idx, v);
            k = k + 1;
        }
        s = s + 1;
    }
    proof {
        lemma_snake_fill_len(rows as int, columns as int, bits@, main_len as int, total as int);
    }
    let mut e: usize = 0;
    let ghost base = pixs@;
    let ghost vals = Seq::new(6, |f: int| bit_value(bits@[main_len + f]));
    while e < 6
        invariant
            grid_ok(rows as int, columns as int),
            nbits == bits@.len(),
            main_len == nbits - 6,
            base.len() == rows * columns,
            pixs@.len() == rows * columns,
            vals == Seq::new(6, |f: int| bit_value(bits@[main_len + f])),
            e <= 6,
            pixs@ == edge_prefix(rows as int, columns as int, base, vals, e as int),
        decreases 6 - e,
    {
        let idx = edge_at(rows, columns, e);
        let c = bits.get_char(main_len + e);
        let v: i8 = if c == '1' {
            1
        } else {
            0
        };
        pixs.set(idx, v);
        e = e + 1;
    }
    pixs
}

} // verus!
