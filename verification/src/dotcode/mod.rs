//! DotCode: a dot-matrix symbology for high-speed inkjet printing.
//!
//! The pipeline: the mode selector turns the payload into data codewords,
//! the symbol size is chosen for a 3:2 aspect, the codewords are padded,
//! masked and protected by Reed-Solomon over GF(113), laid out along a
//! snake path on a checkerboard of dot positions, and the mask whose
//! layout scores best is kept.

pub mod tables;


pub mod position;
pub mod binary;
pub mod modes;
pub mod runs;
pub mod ecc;
pub mod layout;
pub mod eval;
pub mod size;
pub mod symbol;
pub mod parse;

use vstd::prelude::*;

use crate::encoding::{BitMatrix, DotMatrix};
use crate::error::Error;
use crate::text::{decimal, push_decimal};
use self::modes::{encode_message_with_markers, encode_stream, lift_bytes, stuck_message, valid_stream};
use self::parse::parse_dotcode_input;
use self::runs::{pad_to_nd, padded_spec};
use self::size::{min_area, pick_symbol_size_default, size_for, size_spec};
use self::symbol::{best_mask_spec, pick_best_mask, size_fits};
use self::size::{fill_need, law_symbol_size, lemma_size_dims};

verus! {

/// A rendered DotCode symbol: the dot grid and the mask that produced it.
#[derive(Debug, Clone, PartialEq, Eq)]
pub struct DotCodeSymbol {
    pub rows: usize,
    pub columns: usize,
    pub mask: u8,
    /// Row-major `rows * columns` cells, each `0` or `1`.
    pub pixs: Vec<i8>,
}

impl DotCodeSymbol {
    /// The grid holds one cell per position.
    pub open spec fn wf(&self) -> bool {
        self.pixs@.len() == self.rows * self.columns
    }

    /// The dot grid as square modules.
    pub fn to_bitmatrix(&self) -> (m: BitMatrix)
        requires
            self.wf(),
        ensures
            m.wf(),
            m.spec_width() == self.columns,
            m.spec_height() == self.rows,
            forall|x: int, y: int|
                0 <= x < self.columns && 0 <= y < self.rows ==> m.spec_get(x, y) == (self.pixs@[y
                    * self.columns + x] == 1),
    {
        self.grid_matrix()
    }

    /// The dot grid for round-dot rendering.
    pub fn to_dotmatrix(&self) -> (m: DotMatrix)
        requires
            self.wf(),
        ensures
            m.wf(),
            m.spec_width() == self.columns,
            m.spec_height() == self.rows,
            forall|x: int, y: int|
                0 <= x < self.columns && 0 <= y < self.rows ==> m.spec_get(x, y) == (self.pixs@[y
                    * self.columns + x] == 1),
    {
        self.grid_matrix()
    }

    fn grid_matrix(&self) -> (m: BitMatrix)
        requires
            self.wf(),
        ensures
            m.wf(),
            m.spec_width() == self.columns,
            m.spec_height() == self.rows,
            forall|x: int, y: int|
                0 <= x < self.columns && 0 <= y < self.rows ==> m.spec_get(x, y) == (self.pixs@[y
                    * self.columns + x] == 1),
    {
        let total = self.pixs.len();
        assert(total == self.columns * self.rows) by (nonlinear_arith)
            requires
                total == self.rows * self.columns,
        ;
        let mut m = BitMatrix::new(self.columns, self.rows);
        let mut y: usize = 0;
        while y < self.rows
            invariant
                self.wf(),
                total == self.rows * self.columns,
                m.wf(),
                m.spec_width() == self.columns,
                m.spec_height() == self.rows,
                y <= self.rows,
                forall|a: int, b: int|
                    0 <= a < self.columns && 0 <= b < y ==> m.spec_get(a, b) == (self.pixs@[b
                        * self.columns + a] == 1),
                forall|a: int, b: int|
                    0 <= a < self.columns && y <= b < self.rows ==> !m.spec_get(a, b),
            decreases self.rows - y,
        {
            let mut x: usize = 0;
            while x < self.columns
                invariant
                    self.wf(),
                    total == self.rows * self.columns,
                    m.wf(),
                    m.spec_width() == self.columns,
                    m.spec_height() == self.rows,
                    y < self.rows,
                    x <= self.columns,
                    forall|a: int, b: int|
                        0 <= a < self.columns && 0 <= b < y ==> m.spec_get(a, b) == (self.pixs@[b
                            * self.columns + a] == 1),
                    forall|a: int| 0 <= a < x ==> m.spec_get(a, y as int) == (self.pixs@[y
                        * self.columns + a] == 1),
                    forall|a: int, b: int|
                        0 <= a < self.columns && y <= b < self.rows && !(b == y && a < x) ==> !m.spec_get(a, b),
                decreases self.columns - x,
            {
                proof {
                    assert(y * self.columns + x < self.rows * self.columns) by (nonlinear_arith)
                        requires
                            x < self.columns,
                            y < self.rows,
                    ;
                }
                if self.pixs[y * self.columns + x] == 1 {
                    m.set(x, y, true);
                }
                x = x + 1;
            }
            y = y + 1;
        }
        m
    }
}

/// Error message when the symbol would need more than 112 codewords.
pub open spec fn too_long_message(nw: int, nd: int, nc: int) -> Seq<char> {
    "DotCode: payload requires nw="@ + decimal(nw as nat) + " codewords (nd="@ + decimal(nd as nat)
        + ", nc="@ + decimal(nc as nat)
        + "); BWIPP's interleaved RS path activates for nw > 112 and is outside this encoder's coverage — emit a smaller symbol or use BWIPP directly."@
}

/// What [`encode_with_markers`] returns for a marker stream: the stuck
/// message, the too-long message, or the symbol's size, mask and grid.
#[verifier::opaque]
pub open spec fn dotcode_spec(msg: Seq<i16>) -> Result<(int, int, int, Seq<i8>), Seq<char>> {
    match encode_stream(msg) {
        Err(k) => Err(stuck_message(msg, k)),
        Ok(data) => {
            let sz = size_spec(data.len() as int);
            let nc = sz.2 / 2 + 3;
            let nw = sz.2 + nc;
            if nw > 112 {
                Err(too_long_message(nw, sz.2, nc))
            } else {
                let best = best_mask_spec(padded_spec(data, sz.2, false), sz.0, sz.1, sz.3);
                Ok((sz.0, sz.1, best.0, best.1))
            }
        },
    }
}

/// A marker stream that encodes to data codewords gives a symbol exactly
/// when the grid's data capacity `nd` and its `nd / 2 + 3` check codewords
/// together number at most 112; a stream that does not encode is refused.
pub proof fn law_dotcode_capacity(msg: Seq<i16>)
    ensures
        encode_stream(msg) matches Ok(data) ==> (dotcode_spec(msg) is Ok <==> size_spec(
            data.len() as int,
        ).2 + size_spec(data.len() as int).2 / 2 + 3 <= 112),
        encode_stream(msg) is Err ==> dotcode_spec(msg) is Err,
{
    reveal(dotcode_spec);
}

proof fn lemma_grid_small(n: int)
    requires
        n >= 0,
        size_spec(n).2 + size_spec(n).2 / 2 + 3 <= 112,
    ensures
        self::layout::grid_ok(size_spec(n).0, size_spec(n).1),
        size_spec(n).0 >= 5,
        size_spec(n).1 >= 5,
        (size_spec(n).0 + size_spec(n).1) % 2 == 1,
        size_spec(n).3 == size_spec(n).0 * size_spec(n).1 / 2,
        fill_need(size_spec(n).2) <= size_spec(n).3,
        size_spec(n).2 >= n,
{
    law_symbol_size(n);
    lemma_size_dims(n);
    let sz = size_spec(n);
    let (r, c) = (sz.0, sz.1);
    let m = min_area(n);
    assert(m <= 2100);
    assert(r < 40 && c < 60) by (nonlinear_arith)
        requires
            3 * (r - 2) * (r - 2) <= 2 * m,
            2 * (c - 2) * (c - 2) <= 3 * m,
            m <= 2100,
            r >= 2,
            c >= 2,
    ;
    assert(r * c < 2400) by (nonlinear_arith)
        requires
            0 <= r < 40,
            0 <= c < 60,
    ;
}

proof fn lemma_mask_grid_bits(padded: Seq<u16>, mk: int, n: int)
    requires
        n >= 0,
        size_spec(n).2 + size_spec(n).2 / 2 + 3 <= 112,
        padded.len() == size_spec(n).2,
        0 <= mk < 4,
    ensures
        ({
            let sz = size_spec(n);
            let g = self::symbol::mask_grid(padded, mk, sz.0, sz.1, sz.3);
            let l = self::layout::lit_spec(sz.0, sz.1, g);
            &&& g.len() == sz.0 * sz.1
            &&& l.len() == sz.0 * sz.1
            &&& forall|k: int| 0 <= k < g.len() ==> #[trigger] g[k] == 0 || g[k] == 1
            &&& forall|k: int| 0 <= k < l.len() ==> #[trigger] l[k] == 0 || l[k] == 1
        }),
{
    lemma_grid_small(n);
    let sz = size_spec(n);
    let (r, c, ndots) = (sz.0, sz.1, sz.3);
    let cws = self::ecc::rs_spec(mk, self::ecc::masked_seq(mk, padded));
    self::ecc::lemma_rs_spec_len(mk, self::ecc::masked_seq(mk, padded));
    self::symbol::lemma_bits_shape(cws, mk, ndots);
    let bits = self::symbol::bits_spec(cws, mk, ndots);
    self::layout::law_render_fills_every_free_cell(r, c, bits);
    self::layout::lemma_render_len(r, c, bits);
    let g = self::symbol::mask_grid(padded, mk, r, c, ndots);
    assert(g == self::layout::render_spec(r, c, bits));
    self::layout::lemma_lit_keeps_bits(r, c, g);
}

proof fn lemma_cells_are_bits(padded: Seq<u16>, n: int)
    requires
        n >= 0,
        size_spec(n).2 + size_spec(n).2 / 2 + 3 <= 112,
        padded.len() == size_spec(n).2,
    ensures
        ({
            let sz = size_spec(n);
            let best = best_mask_spec(padded, sz.0, sz.1, sz.3);
            &&& 0 <= best.0 < 4
            &&& best.1.len() == sz.0 * sz.1
            &&& forall|k: int| 0 <= k < best.1.len() ==> #[trigger] best.1[k] == 0 || best.1[k] == 1
        }),
{
    let sz = size_spec(n);
    self::symbol::law_best_mask_choice(padded, sz.0, sz.1, sz.3);
    let best = best_mask_spec(padded, sz.0, sz.1, sz.3);
    lemma_mask_grid_bits(padded, best.0, n);
}

/// A symbol is the grid chosen for its data codewords, with a mask from 0
/// to 3, one cell per position, and every cell `0` or `1`.
#[verifier::rlimit(60)]
pub proof fn law_dotcode_symbol_shape(msg: Seq<i16>)
    ensures
        dotcode_spec(msg) matches Ok((rows, columns, mask, pixs)) ==> {
            &&& encode_stream(msg) matches Ok(data) && rows == size_spec(data.len() as int).0
                && columns == size_spec(data.len() as int).1
            &&& 0 <= mask < 4
            &&& pixs.len() == rows * columns
            &&& forall|k: int| 0 <= k < pixs.len() ==> #[trigger] pixs[k] == 0 || pixs[k] == 1
        },
{
    reveal(dotcode_spec);
    if let Ok(data) = encode_stream(msg) {
        let n = data.len() as int;
        let nd = size_spec(n).2;
        if nd + nd / 2 + 3 <= 112 {
            law_symbol_size(n);
            lemma_cells_are_bits(padded_spec(data, nd, false), n);
        }
    }
}

/// `r` is what [`dotcode_spec`] says.
pub open spec fn dotcode_result(r: Result<DotCodeSymbol, Error>, s: Result<(int, int, int, Seq<i8>), Seq<char>>) -> bool {
    match (r, s) {
        (Ok(sym), Ok(t)) => sym.rows == t.0 && sym.columns == t.1 && sym.mask == t.2 && sym.pixs@
            == t.3 && sym.wf(),
        (Err(Error::InvalidData(m)), Err(w)) => m@ == w,
        _ => false,
    }
}

/// Encodes a marker stream (the output of `parse_dotcode_input`) as a
/// DotCode symbol.
#[verifier::rlimit(60)]
pub fn encode_with_markers(input: &[i16]) -> (r: Result<DotCodeSymbol, Error>)
    requires
        valid_stream(input@),
        input@.len() < 0x1000_0000,
    ensures
        dotcode_result(r, dotcode_spec(input@)),
{
    proof {
        reveal(dotcode_spec);
    }
    let mut data = match encode_message_with_markers(input) {
        Ok(d) => d,
        Err(e) => return Err(e),
    };
    let ghost d0 = data@;
    let dims = size_for(data.len() as u64);
    let nd = dims.2;
    let nc = nd / 2 + 3;
    let nw = nd + nc;
    if nw > 112 {
        let mut text = String::from_str("DotCode: payload requires nw=");
        push_decimal(&mut text, nw);
        text.append(" codewords (nd=");
        push_decimal(&mut text, nd);
        text.append(", nc=");
        push_decimal(&mut text, nc);
        text.append(
            "); BWIPP's interleaved RS path activates for nw > 112 and is outside this encoder's coverage — emit a smaller symbol or use BWIPP directly.",
        );
        return Err(Error::InvalidData(text));
    }
    let sz = pick_symbol_size_default(data.len());
    proof {
        let m = min_area(d0.len() as int);
        assert(sz.rows < 40 && sz.columns < 60) by (nonlinear_arith)
            requires
                3 * (sz.rows - 2) * (sz.rows - 2) <= 2 * m,
                2 * (sz.columns - 2) * (sz.columns - 2) <= 3 * m,
                m <= 2100,
                sz.rows >= 2,
                sz.columns >= 2,
        ;
        assert(sz.rows * sz.columns < 2400) by (nonlinear_arith)
            requires
                sz.rows < 40,
                sz.columns < 60,
        ;
    }
    pad_to_nd(&mut data, sz.nd, false);
    assert(size_fits(data@, sz));
    let (mask, pixs) = pick_best_mask(data.as_slice(), sz);
    Ok(DotCodeSymbol { rows: sz.rows, columns: sz.columns, mask, pixs })
}

/// Encodes raw bytes as a DotCode symbol (no escape processing).
pub fn encode(input: &[u8]) -> (r: Result<DotCodeSymbol, Error>)
    requires
        input@.len() < 0x1000_0000,
    ensures
        dotcode_result(r, dotcode_spec(lift_bytes(input@))),
{
    proof {
        reveal(dotcode_spec);
    }
    let lifted = match parse_dotcode_input(input, false) {
        Ok(l) => l,
        Err(e) => return Err(e),
    };
    encode_with_markers(lifted.as_slice())
}

} // verus!
