use vstd::prelude::*;
use crate::grid::{blank_column, blank_grid, has_dims, resized_column, Cell};
use crate::window::WindowView;

verus! {

/// The cell at absolute screen position `(ax, ay)` of a buffer covering the
/// area at `pos` of size `size`; `None` outside that area.
pub open spec fn cell_at_abs(
    buf: Seq<Seq<Cell>>,
    pos: (usize, usize),
    size: (usize, usize),
    ax: int,
    ay: int,
) -> Cell {
    if pos.0 <= ax < pos.0 + size.0 && pos.1 <= ay < pos.1 + size.1 {
        buf[ax - pos.0][ay - pos.1]
    } else {
        None
    }
}

/// A buffer for the area at `new_pos` of size `new_size` that keeps every
/// cell of `buf` (covering `pos`/`size`) at the same screen position; the
/// cells outside the old area are `None`.
pub open spec fn regrid(
    buf: Seq<Seq<Cell>>,
    pos: (usize, usize),
    size: (usize, usize),
    new_pos: (usize, usize),
    new_size: (usize, usize),
) -> Seq<Seq<Cell>> {
    Seq::new(
        new_size.0 as nat,
        |x: int|
            Seq::new(
                new_size.1 as nat,
                |y: int| cell_at_abs(buf, pos, size, new_pos.0 + x, new_pos.1 + y),
            ),
    )
}

/// The area at `p`/`s` contains the area at `q`/`t`.
pub open spec fn area_contains(
    p: (usize, usize),
    s: (usize, usize),
    q: (usize, usize),
    t: (usize, usize),
) -> bool {
    &&& p.0 <= q.0
    &&& q.0 + t.0 <= p.0 + s.0
    &&& p.1 <= q.1
    &&& q.1 + t.1 <= p.1 + s.1
}

/// The top-left corner of the smallest area holding both the area at
/// `pos`/`size` and the window `w`.
pub open spec fn grown_position(pos: (usize, usize), w: WindowView) -> (usize, usize) {
    (
        if w.position.0 < pos.0 { w.position.0 } else { pos.0 },
        if w.position.1 < pos.1 { w.position.1 } else { pos.1 },
    )
}

/// The size of the smallest area holding both the area at `pos`/`size` and the window `w`.
pub open spec fn grown_size(pos: (usize, usize), size: (usize, usize), w: WindowView) -> (usize, usize) {
    let np = grown_position(pos, w);
    let e0 = vstd::math::max(pos.0 + size.0, w.position.0 + w.size.0);
    let e1 = vstd::math::max(pos.1 + size.1, w.position.1 + w.size.1);
    ((e0 - np.0) as usize, (e1 - np.1) as usize)
}

/// Regridding twice is regridding once, when the middle area holds the first one.
pub proof fn lemma_regrid_compose(
    o: Seq<Seq<Cell>>,
    op: (usize, usize),
    os: (usize, usize),
    p: (usize, usize),
    s: (usize, usize),
    p2: (usize, usize),
    s2: (usize, usize),
)
    requires
        area_contains(p, s, op, os),
    ensures
        regrid(regrid(o, op, os, p, s), p, s, p2, s2) == regrid(o, op, os, p2, s2),
{
    let mid = regrid(o, op, os, p, s);
    let a = regrid(mid, p, s, p2, s2);
    let b = regrid(o, op, os, p2, s2);
    assert forall|x: int| 0 <= x < a.len() implies #[trigger] a[x] == b[x] by {
        assert forall|y: int| 0 <= y < a[x].len() implies #[trigger] a[x][y] == b[x][y] by {
            let ax = p2.0 + x;
            let ay = p2.1 + y;
            if p.0 <= ax < p.0 + s.0 && p.1 <= ay < p.1 + s.1 {
                assert(mid[ax - p.0][ay - p.1] == cell_at_abs(o, op, os, ax, ay));
            }
        }
        assert(a[x] =~= b[x]);
    }
    assert(a =~= b);
}

/// Regridding onto the same area changes nothing.
pub proof fn lemma_regrid_same(o: Seq<Seq<Cell>>, p: (usize, usize), s: (usize, usize))
    requires
        has_dims(o, s.0 as int, s.1 as int),
    ensures
        regrid(o, p, s, p, s) == o,
{
    let a = regrid(o, p, s, p, s);
    assert forall|x: int| 0 <= x < a.len() implies #[trigger] a[x] == o[x] by {
        assert(a[x] =~= o[x]);
    }
    assert(a =~= o);
}

/// A regridded buffer has the new area's size.
pub(crate) proof fn lemma_regrid_dims(
    o: Seq<Seq<Cell>>,
    p: (usize, usize),
    s: (usize, usize),
    p2: (usize, usize),
    s2: (usize, usize),
)
    ensures
        has_dims(regrid(o, p, s, p2, s2), s2.0 as int, s2.1 as int),
{
}

/// Columns added on the left of a buffer.
pub(crate) proof fn lemma_grow_left_shape(g: Seq<Seq<Cell>>, p: (usize, usize), s: (usize, usize), n: usize)
    requires
        has_dims(g, s.0 as int, s.1 as int),
        n <= p.0,
        s.0 + n <= usize::MAX,
    ensures
        blank_grid(n as nat, s.1 as nat) + g == regrid(
            g,
            p,
            s,
            ((p.0 - n) as usize, p.1),
            ((s.0 + n) as usize, s.1),
        ),
{
    let a = blank_grid(n as nat, s.1 as nat) + g;
    let b = regrid(g, p, s, ((p.0 - n) as usize, p.1), ((s.0 + n) as usize, s.1));
    assert(blank_grid(n as nat, s.1 as nat).len() == n);
    assert forall|x: int| 0 <= x < a.len() implies #[trigger] a[x] == b[x] by {
        if x >= n {
            assert(a[x] == g[x - n]);
            assert(g[x - n].len() == s.1);
        }
        assert(a[x] =~= b[x]);
    }
    assert(a =~= b);
}

/// Columns added on the right of a buffer.
pub(crate) proof fn lemma_grow_right_shape(
    g: Seq<Seq<Cell>>,
    g2: Seq<Seq<Cell>>,
    p: (usize, usize),
    s: (usize, usize),
    w: usize,
)
    requires
        has_dims(g, s.0 as int, s.1 as int),
        s.0 <= w,
        g2.len() == w,
        forall|x: int|
            0 <= x < w ==> #[trigger] g2[x] == if x < g.len() {
                g[x]
            } else {
                blank_column(s.1 as nat)
            },
    ensures
        g2 == regrid(g, p, s, p, (w, s.1)),
{
    let b = regrid(g, p, s, p, (w, s.1));
    assert forall|x: int| 0 <= x < g2.len() implies #[trigger] g2[x] == b[x] by {
        if x < g.len() {
            assert(g[x].len() == s.1);
        }
        assert(g2[x] =~= b[x]);
    }
    assert(g2 =~= b);
}

/// Cells added at the top of every column of a buffer.
pub(crate) proof fn lemma_grow_up_shape(
    g: Seq<Seq<Cell>>,
    g2: Seq<Seq<Cell>>,
    p: (usize, usize),
    s: (usize, usize),
    n: usize,
)
    requires
        has_dims(g, s.0 as int, s.1 as int),
        n <= p.1,
        s.1 + n <= usize::MAX,
        g2.len() == g.len(),
        forall|x: int| 0 <= x < g.len() ==> #[trigger] g2[x] == blank_column(n as nat) + g[x],
    ensures
        g2 == regrid(g, p, s, (p.0, (p.1 - n) as usize), (s.0, (s.1 + n) as usize)),
{
    let b = regrid(g, p, s, (p.0, (p.1 - n) as usize), (s.0, (s.1 + n) as usize));
    assert forall|x: int| 0 <= x < g2.len() implies #[trigger] g2[x] == b[x] by {
        assert(g[x].len() == s.1);
        assert(blank_column(n as nat).len() == n);
        assert(g2[x] =~= b[x]);
    }
    assert(g2 =~= b);
}

/// Cells added at the bottom of every column of a buffer.
pub(crate) proof fn lemma_grow_down_shape(
    g: Seq<Seq<Cell>>,
    g2: Seq<Seq<Cell>>,
    p: (usize, usize),
    s: (usize, usize),
    h: usize,
)
    requires
        has_dims(g, s.0 as int, s.1 as int),
        s.1 <= h,
        g2.len() == g.len(),
        forall|x: int| 0 <= x < g.len() ==> #[trigger] g2[x] == resized_column(g[x], h as nat),
    ensures
        g2 == regrid(g, p, s, p, (s.0, h)),
{
    let b = regrid(g, p, s, p, (s.0, h));
    assert forall|x: int| 0 <= x < g2.len() implies #[trigger] g2[x] == b[x] by {
        assert(g[x].len() == s.1);
        assert(g2[x] =~= b[x]);
    }
    assert(g2 =~= b);
}

} // verus!
