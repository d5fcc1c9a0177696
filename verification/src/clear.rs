use std::collections::HashMap;
use std::hash::Hash;
use vstd::prelude::*;
use vstd::std_specs::hash::obeys_key_model;
use crate::compose::{covers, is_stacking, stacking_order};
use crate::grid::{copy_at, grid_view, has_dims, lemma_update_keeps_dims, set_cell, Cell};
use crate::window::{Window, WindowView};

verus! {

/// Cell `(x, y)` of the area whose top-left corner is at `origin` lies inside
/// the rectangle of window `w`.
pub open spec fn under(w: WindowView, origin: (usize, usize), x: int, y: int) -> bool {
    &&& w.position.0 <= origin.0 + x < w.position.0 + w.size.0
    &&& w.position.1 <= origin.1 + y < w.position.1 + w.size.1
}

/// Some window of the map that is to be cleared on render lies over cell `(x, y)`.
pub open spec fn cleared_at<I>(windows: Map<I, Window>, origin: (usize, usize), x: int, y: int) -> bool {
    exists|k: I|
        #[trigger] windows.contains_key(k) && windows[k]@.clear_on_render && under(
            windows[k]@,
            origin,
            x,
            y,
        )
}

/// Some window of the sequence that is to be cleared on render lies over cell `(x, y)`.
pub open spec fn cleared_in(ws: Seq<Window>, origin: (usize, usize), x: int, y: int) -> bool {
    exists|i: int|
        0 <= i < ws.len() && ws[i]@.clear_on_render && #[trigger] under(ws[i]@, origin, x, y)
}

/// The buffer `buf` with every cell under a window of the map that is to be
/// cleared on render set to `None`.
pub open spec fn cleared<I>(
    buf: Seq<Seq<Cell>>,
    windows: Map<I, Window>,
    origin: (usize, usize),
    size: (usize, usize),
) -> Seq<Seq<Cell>> {
    Seq::new(
        size.0 as nat,
        |x: int|
            Seq::new(
                size.1 as nat,
                |y: int|
                    if cleared_at(windows, origin, x, y) {
                        None
                    } else {
                        buf[x][y]
                    },
            ),
    )
}

/// The buffer `buf` with every cell under a window of `ws` that is to be
/// cleared on render set to `None`.
pub open spec fn cleared_by(
    buf: Seq<Seq<Cell>>,
    ws: Seq<Window>,
    origin: (usize, usize),
    size: (usize, usize),
) -> Seq<Seq<Cell>> {
    Seq::new(
        size.0 as nat,
        |x: int|
            Seq::new(
                size.1 as nat,
                |y: int|
                    if cleared_in(ws, origin, x, y) {
                        None
                    } else {
                        buf[x][y]
                    },
            ),
    )
}

/// A stacking order of the map's windows clears exactly the cells the map does.
pub proof fn lemma_cleared_by_stacking<I>(
    buf: Seq<Seq<Cell>>,
    ws: Seq<Window>,
    windows: Map<I, Window>,
    origin: (usize, usize),
    size: (usize, usize),
)
    requires
        is_stacking(ws, windows),
    ensures
        cleared_by(buf, ws, origin, size) == cleared(buf, windows, origin, size),
{
    let a = cleared_by(buf, ws, origin, size);
    let b = cleared(buf, windows, origin, size);
    assert forall|x: int| 0 <= x < a.len() implies #[trigger] a[x] == b[x] by {
        assert forall|y: int| 0 <= y < a[x].len() implies #[trigger] a[x][y] == b[x][y] by {
            if cleared_in(ws, origin, x, y) {
                let i = choose|i: int|
                    0 <= i < ws.len() && ws[i]@.clear_on_render && #[trigger] under(ws[i]@, origin, x, y);
                assert(ws.to_set().contains(ws[i]));
                assert(windows.values().contains(ws[i]));
                let k = choose|k: I| #[trigger] windows.contains_key(k) && windows[k] == ws[i];
                assert(windows.contains_key(k) && windows[k]@.clear_on_render && under(windows[k]@, origin, x, y));
            }
            if cleared_at(windows, origin, x, y) {
                let k = choose|k: I|
                    #[trigger] windows.contains_key(k) && windows[k]@.clear_on_render && under(
                        windows[k]@,
                        origin,
                        x,
                        y,
                    );
                assert(windows.values().contains(windows[k]));
                assert(ws.to_set().contains(windows[k]));
                let i = choose|i: int| 0 <= i < ws.len() && ws[i] == windows[k];
                assert(under(ws[i]@, origin, x, y));
            }
        }
        assert(a[x] =~= b[x]);
    }
    assert(a =~= b);
}

/// Sets to `None` every cell of `buf` (the buffer of the area at `origin` of
/// size `size`) that lies inside the rectangle of `win`.
fn clear_under(buf: &mut Vec<Vec<Cell>>, origin: (usize, usize), size: (usize, usize), win: &Window)
    requires
        has_dims(grid_view(old(buf)), size.0 as int, size.1 as int),
        covers(origin, size, win@),
        origin.0 + size.0 <= usize::MAX,
        origin.1 + size.1 <= usize::MAX,
    ensures
        has_dims(grid_view(final(buf)), size.0 as int, size.1 as int),
        forall|x: int, y: int|
            0 <= x < size.0 && 0 <= y < size.1 ==> #[trigger] grid_view(final(buf))[x][y] == if under(
                win@,
                origin,
                x,
                y,
            ) {
                None
            } else {
                grid_view(old(buf))[x][y]
            },
{
    let ghost b0 = grid_view(buf);
    let wpos = *win.get_position();
    let wsize = *win.get_size();
    let mut i: usize = 0;
    while i < wsize.0
        invariant
            i <= wsize.0,
            wpos == win@.position,
            wsize == win@.size,
            covers(origin, size, win@),
            origin.0 + size.0 <= usize::MAX,
            origin.1 + size.1 <= usize::MAX,
            has_dims(b0, size.0 as int, size.1 as int),
            has_dims(grid_view(buf), size.0 as int, size.1 as int),
            forall|x: int, y: int|
                0 <= x < size.0 && 0 <= y < size.1 ==> #[trigger] grid_view(buf)[x][y] == if under(
                    win@,
                    origin,
                    x,
                    y,
                ) && origin.0 + x < wpos.0 + i {
                    None
                } else {
                    b0[x][y]
                },
        decreases wsize.0 - i,
    {
        let ex = wpos.0 + i - origin.0;
        let mut j: usize = 0;
        while j < wsize.1
            invariant
                i < wsize.0,
                j <= wsize.1,
                ex == wpos.0 + i - origin.0,
                wpos == win@.position,
                wsize == win@.size,
                covers(origin, size, win@),
                origin.0 + size.0 <= usize::MAX,
                origin.1 + size.1 <= usize::MAX,
                has_dims(b0, size.0 as int, size.1 as int),
                has_dims(grid_view(buf), size.0 as int, size.1 as int),
                forall|x: int, y: int|
                    0 <= x < size.0 && 0 <= y < size.1 ==> #[trigger] grid_view(buf)[x][y] == if under(
                        win@,
                        origin,
                        x,
                        y,
                    ) && (origin.0 + x < wpos.0 + i || (x == ex && origin.1 + y < wpos.1 + j)) {
                        None
                    } else {
                        b0[x][y]
                    },
            decreases wsize.1 - j,
        {
            let ey = wpos.1 + j - origin.1;
            let ghost before = grid_view(buf);
            proof {
                lemma_update_keeps_dims(before, size.0 as int, size.1 as int, ex as int, ey as int, None);
            }
            set_cell(buf, ex, ey, None);
            proof {
                assert forall|x: int, y: int|
                    0 <= x < size.0 && 0 <= y < size.1 implies #[trigger] grid_view(buf)[x][y] == if under(
                        win@,
                        origin,
                        x,
                        y,
                    ) && (origin.0 + x < wpos.0 + i || (x == ex && origin.1 + y < wpos.1 + j + 1)) {
                        None
                    } else {
                        b0[x][y]
                    } by {
                    if x != ex || y != ey {
                        assert(grid_view(buf)[x][y] == before[x][y]);
                    }
                }
            }
            j = j + 1;
        }
        i = i + 1;
    }
}

/// Sets to `None` every cell of `buf` that lies under a window of `windows`
/// that is to be cleared on render.
pub(crate) fn clear_flagged<I: Eq + Hash>(
    buf: &mut Vec<Vec<Cell>>,
    origin: (usize, usize),
    size: (usize, usize),
    windows: &HashMap<I, Window>,
)
    requires
        obeys_key_model::<I>(),
        has_dims(grid_view(old(buf)), size.0 as int, size.1 as int),
        origin.0 + size.0 <= usize::MAX,
        origin.1 + size.1 <= usize::MAX,
        forall|k: I| #[trigger] windows@.contains_key(k) ==> covers(origin, size, windows@[k]@),
    ensures
        grid_view(final(buf)) == cleared(grid_view(old(buf)), windows@, origin, size),
{
    let ws = stacking_order(windows);
    let ghost all = ws@.unref();
    let ghost b0 = grid_view(buf);
    proof {
        assert forall|i: int| 0 <= i < all.len() implies #[trigger] covers(origin, size, all[i]@) by {
            assert(all.to_set().contains(all[i]));
            assert(windows@.values().contains(all[i]));
            let k = choose|k: I| #[trigger] windows@.contains_key(k) && windows@[k] == all[i];
            assert(windows@.contains_key(k));
        }
        let c0 = cleared_by(b0, all.take(0), origin, size);
        assert forall|x: int| 0 <= x < c0.len() implies #[trigger] c0[x] == b0[x] by {
            assert(c0[x] =~= b0[x]);
        }
        assert(c0 =~= b0);
    }
    let mut k: usize = 0;
    while k < ws.len()
        invariant
            k <= all.len(),
            all == ws@.unref(),
            has_dims(b0, size.0 as int, size.1 as int),
            origin.0 + size.0 <= usize::MAX,
            origin.1 + size.1 <= usize::MAX,
            forall|i: int| 0 <= i < all.len() ==> #[trigger] covers(origin, size, all[i]@),
            grid_view(buf) == cleared_by(b0, all.take(k as int), origin, size),
        decreases all.len() - k,
    {
        let w = copy_at(&ws, k);
        let ghost before = grid_view(buf);
        proof {
            assert(all[k as int] == *w);
        }
        if w.clears_on_render() {
            clear_under(buf, origin, size, w);
        }
        proof {
            let t0 = all.take(k as int);
            let t1 = all.take(k + 1);
            let goal = cleared_by(b0, t1, origin, size);
            assert forall|x: int| 0 <= x < goal.len() implies #[trigger] grid_view(buf)[x] == goal[x] by {
                assert forall|y: int| 0 <= y < goal[x].len() implies #[trigger] grid_view(buf)[x][y]
                    == goal[x][y] by {
                    if cleared_in(t0, origin, x, y) {
                        let i = choose|i: int|
                            0 <= i < t0.len() && t0[i]@.clear_on_render && #[trigger] under(t0[i]@, origin, x, y);
                        assert(t1[i] == t0[i]);
                        assert(cleared_in(t1, origin, x, y));
                    }
                    if cleared_in(t1, origin, x, y) && !cleared_in(t0, origin, x, y) {
                        let i = choose|i: int|
                            0 <= i < t1.len() && t1[i]@.clear_on_render && #[trigger] under(t1[i]@, origin, x, y);
                        if i < k {
                            assert(t0[i] == t1[i]);
                        }
                        assert(i == k);
                    }
                    if w@.clear_on_render && under(w@, origin, x, y) {
                        assert(t1[k as int] == *w);
                        assert(cleared_in(t1, origin, x, y));
                    }
                }
                assert(grid_view(buf)[x] =~= goal[x]);
            }
            assert(grid_view(buf) =~= goal);
        }
        k = k + 1;
    }
    proof {
        assert(all.take(all.len() as int) =~= all);
        lemma_cleared_by_stacking(b0, all, windows@, origin, size);
    }
}

} // verus!
