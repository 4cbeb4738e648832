//! Turning the bitmaps the 2D layout engines return into [`BitMatrix`]
//! grids.

use vstd::prelude::*;

use crate::encoding::BitMatrix;
use crate::substrate::{dm_bitmap_ok, dm_view, DmBitmap, QrModules};

verus! {

/// `(x, y)` is among the first `k` dark modules.
pub open spec fn dark_among(dark: Seq<(usize, usize)>, k: int, x: int, y: int) -> bool {
    exists|j: int| 0 <= j < k && dark[j].0 == x && dark[j].1 == y
}

/// `m` is the grid of a Data Matrix bitmap: same size, dark exactly at the
/// listed modules.
pub open spec fn is_dm_matrix(m: BitMatrix, b: (usize, usize, Seq<(usize, usize)>)) -> bool {
    &&& m.wf()
    &&& m.spec_width() == b.0
    &&& m.spec_height() == b.1
    &&& forall|x: int, y: int|
        0 <= x < b.0 && 0 <= y < b.1 ==> #[trigger] m.spec_get(x, y) == dark_among(
            b.2,
            b.2.len() as int,
            x,
            y,
        )
}

/// `m` is the grid of a QR symbol `w` modules wide: dark where the
/// row-major module list is.
pub open spec fn is_qr_matrix(m: BitMatrix, q: (usize, Seq<bool>)) -> bool {
    &&& m.wf()
    &&& m.spec_width() == q.0
    &&& m.spec_height() == q.0
    &&& forall|x: int, y: int|
        0 <= x < q.0 && 0 <= y < q.0 ==> #[trigger] m.spec_get(x, y) == q.1[y * q.0 + x]
}

/// The grid of a Data Matrix bitmap.
pub fn matrix_from_dm(b: &DmBitmap) -> (m: BitMatrix)
    requires
        dm_bitmap_ok(dm_view(*b)),
    ensures
        is_dm_matrix(m, dm_view(*b)),
{
    let w = b.width;
    let h = b.height;
    let mut m = BitMatrix::new(w, h);
    let n = b.dark.len();
    let mut k: usize = 0;
    while k < n
        invariant
            n == b.dark@.len(),
            k <= n,
            w == b.width,
            h == b.height,
            dm_bitmap_ok(dm_view(*b)),
            m.wf(),
            m.spec_width() == w,
            m.spec_height() == h,
            forall|x: int, y: int|
                0 <= x < w && 0 <= y < h ==> #[trigger] m.spec_get(x, y) == dark_among(
                    b.dark@,
                    k as int,
                    x,
                    y,
                ),
        decreases n - k,
    {
        let (x, y) = b.dark[k];
        proof {
            assert(dm_view(*b).2[k as int] == b.dark@[k as int]);
            assert(b.dark@[k as int].0 < w && b.dark@[k as int].1 < h);
        }
        let ghost before = m;
        m.set(x, y, true);
        proof {
            assert forall|a: int, c: int| 0 <= a < w && 0 <= c < h implies #[trigger] m.spec_get(
                a,
                c,
            ) == dark_among(b.dark@, k + 1, a, c) by {
                if a == x && c == y {
                    assert(b.dark@[k as int].0 == a && b.dark@[k as int].1 == c);
                } else {
                    assert(m.spec_get(a, c) == before.spec_get(a, c));
                    if dark_among(b.dark@, k + 1, a, c) {
                        let j = choose|j: int|
                            0 <= j < k + 1 && b.dark@[j].0 == a && b.dark@[j].1 == c;
                        assert(j != k);
                    }
                }
            }
        }
        k = k + 1;
    }
    m
}

/// The grid of a QR symbol `width` modules wide.
pub fn matrix_from_qr(q: &QrModules) -> (m: BitMatrix)
    requires
        q.width <= 177,
        q.dark@.len() == q.width * q.width,
    ensures
        is_qr_matrix(m, (q.width, q.dark@)),
{
    let w = q.width;
    assert(w * w <= 177 * 177) by (nonlinear_arith)
        requires
            w <= 177,
    ;
    let mut m = BitMatrix::new(w, w);
    let mut y: usize = 0;
    while y < w
        invariant
            w == q.width,
            w <= 177,
            q.dark@.len() == w * w,
            y <= w,
            m.wf(),
            m.spec_width() == w,
            m.spec_height() == w,
            forall|a: int, c: int|
                0 <= a < w && 0 <= c < y ==> #[trigger] m.spec_get(a, c) == q.dark@[c * w + a],
            forall|a: int, c: int| 0 <= a < w && y <= c < w ==> !#[trigger] m.spec_get(a, c),
        decreases w - y,
    {
        let mut x: usize = 0;
        while x < w
            invariant
                w == q.width,
                w <= 177,
                q.dark@.len() == w * w,
                y < w,
                x <= w,
                m.wf(),
                m.spec_width() == w,
                m.spec_height() == w,
                forall|a: int, c: int|
                    0 <= a < w && 0 <= c < y ==> #[trigger] m.spec_get(a, c) == q.dark@[c * w + a],
                forall|a: int| 0 <= a < x ==> #[trigger] m.spec_get(a, y as int) == q.dark@[y * w + a],
                forall|a: int, c: int|
                    0 <= a < w && y <= c < w && !(c == y && a < x) ==> !#[trigger] m.spec_get(a, c),
            decreases w - x,
        {
            proof {
                assert(y * w + x < w * w) by (nonlinear_arith)
                    requires
                        x < w,
                        y < w,
                ;
                assert(w * w <= 177 * 177) by (nonlinear_arith)
                    requires
                        w <= 177,
                ;
                assert(y * w <= y * w + x);
            }
            let idx = y * w + x;
            if q.dark[idx] {
                m.set(x, y, true);
            }
            x = x + 1;
        }
        y = y + 1;
    }
    m
}

} // verus!
