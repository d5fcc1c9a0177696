use std::collections::HashMap;
use std::hash::Hash;
use vstd::prelude::*;
use vstd::std_specs::hash::{obeys_key_model, spec_values_iter};
use vstd::std_specs::iter::IteratorSpec;
use crate::grid::{copy_at, grid_view, has_dims, set_cell, Cell};
use crate::window::{Window, WindowView};

verus! {

/// The window lies inside the area at `position` of the given `size`.
pub open spec fn covers(position: (usize, usize), size: (usize, usize), w: WindowView) -> bool {
    &&& position.0 <= w.position.0
    &&& w.position.0 + w.size.0 <= position.0 + size.0
    &&& position.1 <= w.position.1
    &&& w.position.1 + w.size.1 <= position.1 + size.1
}

/// What window `w` shows at cell `(x, y)` of an area whose top-left corner is
/// at `origin`: its own cell there, or `None` where it is transparent or absent.
pub open spec fn win_cell(w: WindowView, origin: (usize, usize), x: int, y: int) -> Cell {
    w.char_at(origin.0 + x - w.position.0, origin.1 + y - w.position.1)
}

/// The cell seen at `(x, y)` through the windows `ws`, laid one over the other
/// from first to last, above `below`: the last window that is not transparent
/// there decides, and where all are transparent `below` shows through.
pub open spec fn top_cell(ws: Seq<Window>, origin: (usize, usize), x: int, y: int, below: Cell) -> Cell
    decreases ws.len(),
{
    if ws.len() == 0 {
        below
    } else {
        match win_cell(ws.last()@, origin, x, y) {
            Some(c) => Some(c),
            None => top_cell(ws.drop_last(), origin, x, y, below),
        }
    }
}

/// The buffer `buf` (of the area at `origin` with `size`) after laying the
/// windows `ws` over it, first to last.
pub open spec fn composed(
    buf: Seq<Seq<Cell>>,
    ws: Seq<Window>,
    origin: (usize, usize),
    size: (usize, usize),
) -> Seq<Seq<Cell>> {
    Seq::new(
        size.0 as nat,
        |x: int| Seq::new(size.1 as nat, |y: int| top_cell(ws, origin, x, y, buf[x][y])),
    )
}

/// The buffer `buf` after laying the one window `w` over it.
pub open spec fn overlaid(
    buf: Seq<Seq<Cell>>,
    w: WindowView,
    origin: (usize, usize),
    size: (usize, usize),
) -> Seq<Seq<Cell>> {
    Seq::new(
        size.0 as nat,
        |x: int|
            Seq::new(
                size.1 as nat,
                |y: int|
                    match win_cell(w, origin, x, y) {
                        Some(c) => Some(c),
                        None => buf[x][y],
                    },
            ),
    )
}

/// The buffer `buf` after laying over it the cells of window `w` that come
/// before row `row`, column `col` in row-major order.
pub open spec fn overlaid_upto(
    buf: Seq<Seq<Cell>>,
    w: WindowView,
    origin: (usize, usize),
    size: (usize, usize),
    row: int,
    col: int,
) -> Seq<Seq<Cell>> {
    Seq::new(
        size.0 as nat,
        |x: int|
            Seq::new(
                size.1 as nat,
                |y: int|
                    {
                        let wx = origin.0 + x - w.position.0;
                        let wy = origin.1 + y - w.position.1;
                        if wy < row || (wy == row && wx < col) {
                            match win_cell(w, origin, x, y) {
                                Some(c) => Some(c),
                                None => buf[x][y],
                            }
                        } else {
                            buf[x][y]
                        }
                    },
            ),
    )
}

/// Before the first window cell, nothing has been laid over the buffer.
pub(crate) proof fn lemma_overlaid_upto_start(
    b: Seq<Seq<Cell>>,
    w: WindowView,
    origin: (usize, usize),
    size: (usize, usize),
)
    requires
        has_dims(b, size.0 as int, size.1 as int),
    ensures
        overlaid_upto(b, w, origin, size, 0, 0) == b,
{
    let a = overlaid_upto(b, w, origin, size, 0, 0);
    assert forall|x: int| 0 <= x < a.len() implies #[trigger] a[x] == b[x] by {
        assert(a[x] =~= b[x]);
    }
    assert(a =~= b);
}

/// Laying one more window cell changes at most the buffer cell below it.
pub(crate) proof fn lemma_overlaid_upto_step(
    b: Seq<Seq<Cell>>,
    w: WindowView,
    origin: (usize, usize),
    size: (usize, usize),
    row: int,
    col: int,
)
    requires
        has_dims(b, size.0 as int, size.1 as int),
        w.well_formed(),
        covers(origin, size, w),
        0 <= row < w.size.1,
        0 <= col < w.size.0,
    ensures
        ({
            let cur = overlaid_upto(b, w, origin, size, row, col);
            let ex = col + w.position.0 - origin.0;
            let ey = row + w.position.1 - origin.1;
            &&& 0 <= ex < size.0
            &&& 0 <= ey < size.1
            &&& has_dims(cur, size.0 as int, size.1 as int)
            &&& overlaid_upto(b, w, origin, size, row, col + 1) == match w.char_at(col, row) {
                Some(c) => cur.update(ex, cur[ex].update(ey, Some(c))),
                None => cur,
            }
        }),
{
    let cur = overlaid_upto(b, w, origin, size, row, col);
    let next = overlaid_upto(b, w, origin, size, row, col + 1);
    let ex = col + w.position.0 - origin.0;
    let ey = row + w.position.1 - origin.1;
    let goal = match w.char_at(col, row) {
        Some(c) => cur.update(ex, cur[ex].update(ey, Some(c))),
        None => cur,
    };
    assert forall|x: int| 0 <= x < next.len() implies #[trigger] next[x] == goal[x] by {
        assert(next[x] =~= goal[x]);
    }
    assert(next =~= goal);
}

/// Finishing a row of the window is starting the next one.
pub(crate) proof fn lemma_overlaid_upto_row(
    b: Seq<Seq<Cell>>,
    w: WindowView,
    origin: (usize, usize),
    size: (usize, usize),
    row: int,
)
    ensures
        overlaid_upto(b, w, origin, size, row, w.size.0 as int) == overlaid_upto(
            b,
            w,
            origin,
            size,
            row + 1,
            0,
        ),
{
    let a = overlaid_upto(b, w, origin, size, row, w.size.0 as int);
    let c = overlaid_upto(b, w, origin, size, row + 1, 0);
    assert forall|x: int| 0 <= x < a.len() implies #[trigger] a[x] == c[x] by {
        assert(a[x] =~= c[x]);
    }
    assert(a =~= c);
}

/// Once every row of the window is done, the whole window lies over the buffer.
pub(crate) proof fn lemma_overlaid_upto_end(
    b: Seq<Seq<Cell>>,
    w: WindowView,
    origin: (usize, usize),
    size: (usize, usize),
)
    ensures
        overlaid_upto(b, w, origin, size, w.size.1 as int, 0) == overlaid(b, w, origin, size),
{
    let a = overlaid_upto(b, w, origin, size, w.size.1 as int, 0);
    let c = overlaid(b, w, origin, size);
    assert forall|x: int| 0 <= x < a.len() implies #[trigger] a[x] == c[x] by {
        assert(a[x] =~= c[x]);
    }
    assert(a =~= c);
}

/// The windows come in order of depth, the lowest first.
pub open spec fn sorted_by_depth(ws: Seq<Window>) -> bool {
    forall|i: int, j: int| 0 <= i <= j < ws.len() ==> ws[i]@.depth <= ws[j]@.depth
}

/// `ws` lists the windows of the map lowest first: as many entries as the map
/// has, and exactly the windows the map holds.
pub open spec fn is_stacking<I>(ws: Seq<Window>, windows: Map<I, Window>) -> bool {
    &&& sorted_by_depth(ws)
    &&& ws.len() == windows.dom().len()
    &&& ws.to_set() == windows.values()
}

/// Laying one more window over a composition is composing with it last.
pub(crate) proof fn lemma_composed_push(
    buf: Seq<Seq<Cell>>,
    ws: Seq<Window>,
    w: Window,
    origin: (usize, usize),
    size: (usize, usize),
)
    requires
        buf.len() == size.0,
        forall|x: int| 0 <= x < buf.len() ==> #[trigger] buf[x].len() == size.1,
    ensures
        composed(buf, ws.push(w), origin, size) == overlaid(
            composed(buf, ws, origin, size),
            w@,
            origin,
            size,
        ),
{
    let a = composed(buf, ws.push(w), origin, size);
    let b = overlaid(composed(buf, ws, origin, size), w@, origin, size);
    assert(ws.push(w).drop_last() =~= ws);
    assert forall|x: int| 0 <= x < a.len() implies #[trigger] a[x] == b[x] by {
        assert(a[x] =~= b[x]);
    }
    assert(a =~= b);
}

/// A composed buffer has the area's size.
pub(crate) proof fn lemma_composed_dims(
    buf: Seq<Seq<Cell>>,
    ws: Seq<Window>,
    origin: (usize, usize),
    size: (usize, usize),
)
    ensures
        has_dims(composed(buf, ws, origin, size), size.0 as int, size.1 as int),
{
}

/// Composing no window leaves the buffer as it is.
pub(crate) proof fn lemma_composed_empty(
    buf: Seq<Seq<Cell>>,
    origin: (usize, usize),
    size: (usize, usize),
)
    requires
        buf.len() == size.0,
        forall|x: int| 0 <= x < buf.len() ==> #[trigger] buf[x].len() == size.1,
    ensures
        composed(buf, Seq::<Window>::empty(), origin, size) == buf,
{
    let a = composed(buf, Seq::<Window>::empty(), origin, size);
    assert forall|x: int| 0 <= x < a.len() implies #[trigger] a[x] == buf[x] by {
        assert(a[x] =~= buf[x]);
    }
    assert(a =~= buf);
}

/// The index of the last window of `ws` that is not transparent at `(x, y)`;
/// `-1` when every window is transparent there.
pub open spec fn last_cover(ws: Seq<Window>, origin: (usize, usize), x: int, y: int) -> int
    decreases ws.len(),
{
    if ws.len() == 0 {
        -1
    } else if win_cell(ws.last()@, origin, x, y) is Some {
        ws.len() - 1
    } else {
        last_cover(ws.drop_last(), origin, x, y)
    }
}

/// The cell seen through a stack is the one of its last non-transparent
/// window there, or what lies below when they are all transparent.
pub proof fn lemma_top_cell_last_cover(
    ws: Seq<Window>,
    origin: (usize, usize),
    x: int,
    y: int,
    below: Cell,
)
    ensures
        ({
            let j = last_cover(ws, origin, x, y);
            &&& -1 <= j < ws.len()
            &&& j >= 0 ==> win_cell(ws[j]@, origin, x, y) is Some
            &&& forall|i: int| j < i < ws.len() ==> #[trigger] win_cell(ws[i]@, origin, x, y) is None
            &&& top_cell(ws, origin, x, y, below) == if j >= 0 {
                win_cell(ws[j]@, origin, x, y)
            } else {
                below
            }
        }),
    decreases ws.len(),
{
    if ws.len() > 0 {
        let d = ws.drop_last();
        lemma_top_cell_last_cover(d, origin, x, y, below);
        if win_cell(ws.last()@, origin, x, y) is None {
            assert forall|i: int|
                last_cover(ws, origin, x, y) < i < ws.len() implies #[trigger] win_cell(
                ws[i]@,
                origin,
                x,
                y,
            ) is None by {
                if i < ws.len() - 1 {
                    assert(ws[i] == d[i]);
                }
            }
            let j = last_cover(d, origin, x, y);
            if j >= 0 {
                assert(ws[j] == d[j]);
            }
        }
    }
}

/// In a stack ordered by depth, a window that is not transparent at a cell
/// and lies deeper than every other window that is not transparent there is
/// the one seen at that cell.
pub proof fn lemma_deepest_seen(
    ws: Seq<Window>,
    w: Window,
    origin: (usize, usize),
    x: int,
    y: int,
    below: Cell,
)
    requires
        sorted_by_depth(ws),
        ws.contains(w),
        win_cell(w@, origin, x, y) is Some,
        forall|i: int|
            0 <= i < ws.len() && ws[i] != w && (#[trigger] win_cell(ws[i]@, origin, x, y)) is Some
                ==> ws[i]@.depth < w@.depth,
    ensures
        top_cell(ws, origin, x, y, below) == win_cell(w@, origin, x, y),
{
    lemma_top_cell_last_cover(ws, origin, x, y, below);
    let j = last_cover(ws, origin, x, y);
    let k = choose|k: int| 0 <= k < ws.len() && ws[k] == w;
    assert(win_cell(ws[k]@, origin, x, y) is Some);
    assert(j >= k);
    if ws[j] != w {
        assert(ws[j]@.depth < w@.depth);
        assert(ws[k]@.depth <= ws[j]@.depth);
    }
}

/// Inserting a window after all lower-or-equal ones and before all deeper ones keeps the order.
pub(crate) proof fn lemma_insert_sorted(s: Seq<Window>, j: int, w: Window)
    requires
        sorted_by_depth(s),
        0 <= j <= s.len(),
        forall|i: int| 0 <= i < j ==> #[trigger] s[i]@.depth <= w@.depth,
        j == s.len() || s[j]@.depth > w@.depth,
    ensures
        sorted_by_depth(s.insert(j, w)),
{
    let t = s.insert(j, w);
    assert forall|a: int, b: int| 0 <= a <= b < t.len() implies t[a]@.depth <= t[b]@.depth by {
        if a < j {
            if b < j {
            } else if b == j {
            } else {
                assert(t[b] == s[b - 1]);
            }
        } else if a == j {
            if b > j {
                assert(t[b] == s[b - 1]);
                assert(s[j]@.depth <= s[b - 1]@.depth);
            }
        } else {
            assert(t[a] == s[a - 1]);
            assert(t[b] == s[b - 1]);
        }
    }
}

/// The set of a one-longer prefix has one more element.
pub(crate) proof fn lemma_take_push_to_set<A>(s: Seq<A>, k: int)
    requires
        0 <= k < s.len(),
    ensures
        s.take(k + 1).to_set() == s.take(k).to_set().insert(s[k]),
{
    assert(s.take(k + 1) =~= s.take(k).push(s[k]));
    s.take(k).lemma_push_to_set_commute(s[k]);
}

/// Inserting an element adds it to the set of the sequence.
pub(crate) proof fn lemma_insert_to_set<A>(s: Seq<A>, j: int, w: A)
    requires
        0 <= j <= s.len(),
    ensures
        s.insert(j, w).to_set() == s.to_set().insert(w),
{
    let t = s.insert(j, w);
    assert forall|a: A| t.to_set().contains(a) <==> s.to_set().insert(w).contains(a) by {
        if t.contains(a) {
            let i = choose|i: int| 0 <= i < t.len() && t[i] == a;
            if i < j {
                assert(s[i] == a);
            } else if i > j {
                assert(s[i - 1] == a);
            }
        }
        if s.contains(a) {
            let i = choose|i: int| 0 <= i < s.len() && s[i] == a;
            if i < j {
                assert(t[i] == a);
            } else {
                assert(t[i + 1] == a);
            }
        }
        if a == w {
            assert(t[j] == a);
        }
    }
    assert(t.to_set() =~= s.to_set().insert(w));
}

/// Where cell `pos` of a window placed at `win_pos` lies in the area whose
/// top-left corner is at `origin`.
pub open spec fn eng_pos(origin: (usize, usize), win_pos: (usize, usize), pos: (usize, usize)) -> (
    usize,
    usize,
) {
    ((pos.0 + win_pos.0 - origin.0) as usize, (pos.1 + win_pos.1 - origin.1) as usize)
}

/// Where cell `pos` of a window placed at `win_pos` lies in the area whose
/// top-left corner is at `origin`.
pub(crate) fn win_to_eng_pos(origin: (usize, usize), win_pos: &(usize, usize), pos: &(usize, usize)) -> (r: (
    usize,
    usize,
))
    requires
        pos.0 + win_pos.0 <= usize::MAX,
        pos.1 + win_pos.1 <= usize::MAX,
        origin.0 <= pos.0 + win_pos.0,
        origin.1 <= pos.1 + win_pos.1,
    ensures
        r == eng_pos(origin, *win_pos, *pos),
{
    let x = pos.0 + win_pos.0 - origin.0;
    let y = pos.1 + win_pos.1 - origin.1;
    (x, y)
}

/// Lays the window `win` over `buf`, the buffer of the area at `origin` of
/// size `size`: every cell of the window that is not transparent replaces the
/// buffer cell below it.
pub(crate) fn overlay_window(
    buf: &mut Vec<Vec<Cell>>,
    origin: (usize, usize),
    size: (usize, usize),
    win: &Window,
)
    requires
        has_dims(grid_view(old(buf)), size.0 as int, size.1 as int),
        win@.well_formed(),
        covers(origin, size, win@),
        origin.0 + size.0 <= usize::MAX,
        origin.1 + size.1 <= usize::MAX,
    ensures
        grid_view(final(buf)) == overlaid(grid_view(old(buf)), win@, origin, size),
{
    let ghost b0 = grid_view(buf);
    let wpos = *win.get_position();
    let wsize = *win.get_size();
    proof {
        lemma_overlaid_upto_start(b0, win@, origin, size);
    }
    let mut y: usize = 0;
    while y < wsize.1
        invariant
            y <= wsize.1,
            wpos == win@.position,
            wsize == win@.size,
            win@.well_formed(),
            covers(origin, size, win@),
            origin.0 + size.0 <= usize::MAX,
            origin.1 + size.1 <= usize::MAX,
            has_dims(b0, size.0 as int, size.1 as int),
            grid_view(buf) == overlaid_upto(b0, win@, origin, size, y as int, 0),
        decreases wsize.1 - y,
    {
        let mut x: usize = 0;
        while x < wsize.0
            invariant
                x <= wsize.0,
                y < wsize.1,
                wpos == win@.position,
                wsize == win@.size,
                win@.well_formed(),
                covers(origin, size, win@),
                origin.0 + size.0 <= usize::MAX,
                origin.1 + size.1 <= usize::MAX,
                has_dims(b0, size.0 as int, size.1 as int),
                grid_view(buf) == overlaid_upto(b0, win@, origin, size, y as int, x as int),
            decreases wsize.0 - x,
        {
            let (ex, ey) = win_to_eng_pos(origin, &wpos, &(x, y));
            let win_char = win.get_char(&(x, y));
            proof {
                lemma_overlaid_upto_step(b0, win@, origin, size, y as int, x as int);
            }
            match win_char {
                Some(_) => {
                    set_cell(buf, ex, ey, *win_char);
                },
                None => {},
            }
            x = x + 1;
        }
        proof {
            lemma_overlaid_upto_row(b0, win@, origin, size, y as int);
        }
        y = y + 1;
    }
    proof {
        lemma_overlaid_upto_end(b0, win@, origin, size);
    }
}

/// The windows of `windows`, lowest depth first (windows of equal depth in
/// the order the map hands them out).
pub(crate) fn stacking_order<'a, I: Eq + Hash>(windows: &'a HashMap<I, Window>) -> (ws: Vec<&'a Window>)
    requires
        obeys_key_model::<I>(),
    ensures
        is_stacking(ws@.unref(), windows@),
{
    let mut all: Vec<&'a Window> = Vec::new();
    let ghost listed = spec_values_iter(windows).remaining();
    for w in it: windows.values()
        invariant
            it.seq() == listed,
            all@ == listed.take(it.index() as int),
    {
        all.push(w);
    }
    proof {
        assert(all@ =~= listed);
    }
    let ghost whole = all@.unref();
    assert(whole.to_set() == windows@.values());
    assert(whole.len() == windows@.dom().len());

    let mut sorted: Vec<&'a Window> = Vec::new();
    let mut k: usize = 0;
    while k < all.len()
        invariant
            k <= all@.len(),
            whole == all@.unref(),
            sorted@.len() == k,
            sorted_by_depth(sorted@.unref()),
            sorted@.unref().to_set() == whole.take(k as int).to_set(),
        decreases all@.len() - k,
    {
        let w: &'a Window = copy_at(&all, k);
        let d = *w.get_depth();
        let mut j: usize = 0;
        while j < sorted.len() && *copy_at(&sorted, j).get_depth() <= d
            invariant
                j <= sorted@.len(),
                forall|i: int| 0 <= i < j ==> #[trigger] sorted@[i]@.depth <= d,
            decreases sorted@.len() - j,
        {
            j = j + 1;
        }
        let ghost before = sorted@.unref();
        sorted.insert(j, w);
        proof {
            lemma_insert_sorted(before, j as int, *w);
            lemma_take_push_to_set(whole, k as int);
            lemma_insert_to_set(before, j as int, *w);
            assert(sorted@.unref() =~= before.insert(j as int, *w));
        }
        k = k + 1;
    }
    proof {
        assert(whole.take(whole.len() as int) =~= whole);
    }
    sorted
}

} // verus!
