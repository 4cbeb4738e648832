//! Encoded-symbol carriers: run-length linear patterns and module grids.

use vstd::prelude::*;

verus! {

/// Run-length encoding of a module string (`'1'` = dark module, any other
/// character = light module). Even indices hold bar widths, odd indices
/// hold space widths. A string that opens with a light module gets a
/// leading zero-width bar; a run longer than 255 modules is split by a
/// zero-width run of the opposite colour.
pub open spec fn rle(m: Seq<char>) -> Seq<u8>
    decreases m.len(),
{
    if m.len() == 0 {
        Seq::empty()
    } else {
        let r = rle(m.drop_last());
        let dark = m.last() == '1';
        if r.len() == 0 {
            if dark {
                seq![1u8]
            } else {
                seq![0u8, 1u8]
            }
        } else if (((r.len() - 1) as int) % 2 == 0) == dark {
            if r.last() < 255 {
                r.update(r.len() - 1, (r.last() + 1) as u8)
            } else {
                r.push(0u8).push(1u8)
            }
        } else {
            r.push(1u8)
        }
    }
}

/// The module string described by a run-length sequence, starting with a bar.
pub open spec fn expand(bars: Seq<u8>) -> Seq<char>
    decreases bars.len(),
{
    if bars.len() == 0 {
        Seq::empty()
    } else {
        let c = if ((bars.len() - 1) as int) % 2 == 0 { '1' } else { '0' };
        expand(bars.drop_last()) + Seq::new(bars.last() as nat, |k: int| c)
    }
}

/// A module string ending in a dark module yields a pattern ending on a bar.
pub proof fn lemma_rle_ends_dark(m: Seq<char>)
    requires
        m.len() > 0,
        m.last() == '1',
    ensures
        rle(m).len() > 0,
        ((rle(m).len() - 1) as int) % 2 == 0,
{
    let r = rle(m.drop_last());
    if r.len() > 0 && (((r.len() - 1) as int) % 2 == 0) == true && r.last() >= 255 {
        assert(rle(m) == r.push(0u8).push(1u8));
    }
}

/// A module string normalised to `'1'` (dark) / `'0'` (light).
pub open spec fn normalise_modules(m: Seq<char>) -> Seq<char> {
    m.map_values(|c: char| if c == '1' { '1' } else { '0' })
}

pub proof fn lemma_expand_push(bars: Seq<u8>, w: u8)
    ensures
        expand(bars.push(w)) == expand(bars) + Seq::new(
            w as nat,
            |k: int| if (bars.len() as int) % 2 == 0 { '1' } else { '0' },
        ),
{
    assert(bars.push(w).drop_last() =~= bars);
}

/// Runs appended after an even number of runs keep their colours.
pub proof fn lemma_expand_concat(a: Seq<u8>, b: Seq<u8>)
    requires
        (a.len() as int) % 2 == 0,
    ensures
        expand(a + b) == expand(a) + expand(b),
    decreases b.len(),
{
    if b.len() == 0 {
        assert(a + b =~= a);
        assert(expand(b) =~= Seq::<char>::empty());
        assert(expand(a) + expand(b) =~= expand(a));
    } else {
        lemma_expand_concat(a, b.drop_last());
        assert((a + b).drop_last() =~= a + b.drop_last());
        assert((a + b).last() == b.last());
        assert(((a.len() + b.len() - 1) as int) % 2 == ((b.len() - 1) as int) % 2);
        let c = if ((b.len() - 1) as int) % 2 == 0 { '1' } else { '0' };
        let run = Seq::new(b.last() as nat, |k: int| c);
        assert(expand(a + b) == expand(a + b.drop_last()) + run);
        assert(expand(b) == expand(b.drop_last()) + run);
        assert(expand(a) + expand(b.drop_last()) + run =~= expand(a) + (expand(b.drop_last()) + run));
    }
}

/// Reading a pattern back gives the modules it was made from: expanding
/// the run-length encoding of a module string yields the string with
/// every module as `'1'` (dark) or `'0'` (light), and the runs add up to
/// its length.
pub proof fn law_rle_round_trip(m: Seq<char>)
    ensures
        expand(rle(m)) == normalise_modules(m),
        width_sum(rle(m)) == m.len(),
    decreases m.len(),
{
    if m.len() > 0 {
        let p = m.drop_last();
        law_rle_round_trip(p);
        let r = rle(p);
        let dark = m.last() == '1';
        let c = if dark { '1' } else { '0' };
        assert(normalise_modules(m) =~= normalise_modules(p).push(c));
        if r.len() == 0 {
            assert(expand(r) =~= Seq::<char>::empty());
            if dark {
                lemma_expand_push(r, 1u8);
                assert(expand(seq![1u8]) =~= seq!['1']);
                assert(width_sum(seq![1u8]) == 1) by {
                    assert(seq![1u8].drop_last() =~= Seq::<u8>::empty());
                }
            } else {
                let z = Seq::<u8>::empty().push(0u8);
                lemma_expand_push(Seq::<u8>::empty(), 0u8);
                lemma_expand_push(z, 1u8);
                assert(seq![0u8, 1u8] =~= z.push(1u8));
                assert(expand(seq![0u8, 1u8]) =~= seq!['0']);
                assert(width_sum(seq![0u8, 1u8]) == 1) by {
                    assert(seq![0u8, 1u8].drop_last() =~= z);
                    assert(z.drop_last() =~= Seq::<u8>::empty());
                    assert(width_sum(z) == width_sum(Seq::<u8>::empty()) + 0);
                    assert(width_sum(seq![0u8, 1u8]) == width_sum(z) + 1);
                }
            }
        } else if (((r.len() - 1) as int) % 2 == 0) == dark {
            let q = r.drop_last();
            assert(r =~= q.push(r.last()));
            if r.last() < 255 {
                let r2 = r.update(r.len() - 1, (r.last() + 1) as u8);
                assert(r2 =~= q.push((r.last() + 1) as u8));
                lemma_expand_push(q, r.last());
                lemma_expand_push(q, (r.last() + 1) as u8);
                assert(expand(r2) =~= expand(r).push(c));
                assert(r2.drop_last() =~= q);
                assert(r.drop_last() =~= q);
                assert(width_sum(r) == width_sum(q) + r.last());
                assert(width_sum(r2) == width_sum(q) + r2.last());
            } else {
                let r1 = r.push(0u8);
                let r2 = r1.push(1u8);
                lemma_expand_push(r, 0u8);
                lemma_expand_push(r1, 1u8);
                assert(expand(r2) =~= expand(r).push(c));
                assert(r2.drop_last() =~= r1);
                assert(r1.drop_last() =~= r);
                assert(width_sum(r1) == width_sum(r) + 0);
                assert(width_sum(r2) == width_sum(r1) + 1);
            }
        } else {
            lemma_expand_push(r, 1u8);
            assert(expand(r.push(1u8)) =~= expand(r).push(c));
            assert(r.push(1u8).drop_last() =~= r);
            assert(width_sum(r.push(1u8)) == width_sum(r) + 1);
        }
    }
}

/// Sum of all run widths.
pub open spec fn width_sum(bars: Seq<u8>) -> int
    decreases bars.len(),
{
    if bars.len() == 0 {
        0
    } else {
        width_sum(bars.drop_last()) + bars.last()
    }
}

/// Mathematical model of a [`LinearPattern`].
pub struct LinearModel {
    pub bars: Seq<u8>,
    pub text: Option<Seq<char>>,
}

/// Model of an optional string.
pub open spec fn opt_view(t: Option<String>) -> Option<Seq<char>> {
    match t {
        Some(s) => Some(s@),
        None => None,
    }
}

/// A 1D barcode: alternating bar/space widths starting with a bar, plus the
/// optional human-readable text.
#[derive(Debug, Clone, PartialEq, Eq)]
pub struct LinearPattern {
    pub bars: Vec<u8>,
    pub text: Option<String>,
}

impl View for LinearPattern {
    type V = LinearModel;

    open spec fn view(&self) -> LinearModel {
        LinearModel { bars: self.bars@, text: opt_view(self.text) }
    }
}

/// `r` is `Ok` with the pattern modelled by `m`, or `Err(InvalidData)`
/// with the message `e`, as `s` says.
pub open spec fn linear_result(r: Result<LinearPattern, crate::error::Error>, s: Result<LinearModel, Seq<char>>) -> bool {
    match (r, s) {
        (Ok(p), Ok(m)) => p@ == m,
        (Err(crate::error::Error::InvalidData(msg)), Err(e)) => msg@ == e,
        _ => false,
    }
}

impl LinearPattern {
    /// Run-length encodes a `'0'`/`'1'` module string.
    pub fn from_modules(modules: &str, text: Option<String>) -> (p: LinearPattern)
        ensures
            p.bars@ == rle(modules@),
            p.text == text,
    {
        let n = modules.unicode_len();
        let mut bars: Vec<u8> = Vec::new();
        let mut i: usize = 0;
        while i < n
            invariant
                n == modules@.len(),
                i <= n,
                bars@ == rle(modules@.subrange(0, i as int)),
            decreases n - i,
        {
            let c = modules.get_char(i);
            let dark = c == '1';
            proof {
                assert(modules@.subrange(0, i + 1).drop_last() =~= modules@.subrange(0, i as int));
            }
            let len = bars.len();
            if len == 0 {
                if dark {
                    bars.push(1);
                } else {
                    bars.push(0);
                    bars.push(1);
                }
            } else if ((len - 1) % 2 == 0) == dark {
                let last = bars[len - 1];
                if last < 255 {
                    bars.set(len - 1, last + 1);
                } else {
                    bars.push(0);
                    bars.push(1);
                }
            } else {
                bars.push(1);
            }
            proof {
                let sub = modules@.subrange(0, i + 1);
                assert(sub.last() == c);
                assert(bars@ =~= rle(sub));
            }
            i = i + 1;
        }
        proof {
            assert(modules@.subrange(0, n as int) =~= modules@);
        }
        LinearPattern { bars, text }
    }

    /// Total symbol width in modules.
    pub fn total_width(&self) -> (w: u32)
        requires
            self.bars@.len() < 0x100_0000,
        ensures
            w == width_sum(self.bars@),
    {
        let mut sum: u32 = 0;
        let mut i: usize = 0;
        while i < self.bars.len()
            invariant
                i <= self.bars@.len(),
                self.bars@.len() < 0x100_0000,
                sum == width_sum(self.bars@.subrange(0, i as int)),
                sum <= 255 * i,
            decreases self.bars@.len() - i,
        {
            proof {
                assert(self.bars@.subrange(0, i + 1).drop_last() =~= self.bars@.subrange(0, i as int));
            }
            sum = sum + self.bars[i] as u32;
            i = i + 1;
        }
        proof {
            assert(self.bars@.subrange(0, i as int) =~= self.bars@);
        }
        sum
    }
}

/// A rectangular grid of dark/light modules, row-major.
#[derive(Debug, PartialEq, Eq)]
pub struct BitMatrix {
    width: usize,
    height: usize,
    cells: Vec<bool>,
}

impl BitMatrix {
    /// The cell vector holds exactly `width * height` modules.
    pub closed spec fn wf(self) -> bool {
        &&& self.cells@.len() == self.width * self.height
        &&& self.width * self.height <= usize::MAX
    }

    /// Width in modules.
    pub closed spec fn spec_width(self) -> nat {
        self.width as nat
    }

    /// Height in modules.
    pub closed spec fn spec_height(self) -> nat {
        self.height as nat
    }

    /// The module at column `x`, row `y`.
    pub closed spec fn spec_get(self, x: int, y: int) -> bool {
        self.cells@[y * self.width + x]
    }

    /// An all-light grid.
    pub fn new(width: usize, height: usize) -> (m: BitMatrix)
        requires
            width * height <= usize::MAX,
        ensures
            m.wf(),
            m.spec_width() == width,
            m.spec_height() == height,
            forall|x: int, y: int| 0 <= x < width && 0 <= y < height ==> !m.spec_get(x, y),
    {
        let n = width * height;
        let mut cells: Vec<bool> = Vec::new();
        let mut i: usize = 0;
        while i < n
            invariant
                i <= n,
                cells@.len() == i,
                forall|j: int| 0 <= j < i ==> !cells@[j],
            decreases n - i,
        {
            cells.push(false);
            i = i + 1;
        }
        let m = BitMatrix { width, height, cells };
        proof {
            assert forall|x: int, y: int| 0 <= x < width && 0 <= y < height implies !m.spec_get(x, y) by {
                assert(0 <= y * width + x < width * height) by (nonlinear_arith)
                    requires 0 <= x < width, 0 <= y < height;
            }
        }
        m
    }

    /// Width in modules.
    pub fn width(&self) -> (w: usize)
        ensures
            w == self.spec_width(),
    {
        self.width
    }

    /// Height in modules.
    pub fn height(&self) -> (h: usize)
        ensures
            h == self.spec_height(),
    {
        self.height
    }

    /// The module at `(x, y)`.
    pub fn get(&self, x: usize, y: usize) -> (v: bool)
        requires
            self.wf(),
            x < self.spec_width(),
            y < self.spec_height(),
        ensures
            v == self.spec_get(x as int, y as int),
    {
        proof {
            assert(y * self.width + x < self.width * self.height) by (nonlinear_arith)
                requires x < self.width, y < self.height;
            assert(y * self.width <= y * self.width + x);
        }
        self.cells[y * self.width + x]
    }

    /// Sets the module at `(x, y)`.
    pub fn set(&mut self, x: usize, y: usize, v: bool)
        requires
            old(self).wf(),
            x < old(self).spec_width(),
            y < old(self).spec_height(),
        ensures
            final(self).wf(),
            final(self).spec_width() == old(self).spec_width(),
            final(self).spec_height() == old(self).spec_height(),
            final(self).spec_get(x as int, y as int) == v,
            forall|a: int, b: int|
                0 <= a < old(self).spec_width() && 0 <= b < old(self).spec_height() && !(a == x && b == y)
                    ==> final(self).spec_get(a, b) == old(self).spec_get(a, b),
    {
        proof {
            assert(y * self.width + x < self.width * self.height) by (nonlinear_arith)
                requires x < self.width, y < self.height;
            assert(y * self.width <= y * self.width + x);
        }
        let w = self.width;
        let idx = y * w + x;
        self.cells.set(idx, v);
        proof {
            assert forall|a: int, b: int|
                0 <= a < w && 0 <= b < self.height && !(a == x && b == y)
                    implies #[trigger] self.spec_get(a, b) == old(self).spec_get(a, b) by {
                if b == y {
                } else if b < y {
                    assert(b * w + a < y * w) by (nonlinear_arith)
                        requires 0 <= a < w, b < y, 0 <= b;
                } else {
                    assert(b * w >= y * w + w) by (nonlinear_arith)
                        requires b >= y + 1, w >= 0;
                }
                assert(0 <= b * w + a < w * self.height) by (nonlinear_arith)
                    requires 0 <= a < w, 0 <= b < self.height;
            }
        }
    }
}

/// A grid of round dots (DotCode's native rendering); same layout as
/// [`BitMatrix`].
pub type DotMatrix = BitMatrix;

} // verus!
