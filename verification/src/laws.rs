use vstd::prelude::*;
use crate::clear::{cleared, cleared_at, under};
use crate::compose::{
    composed, covers, eng_pos, is_stacking, last_cover, lemma_deepest_seen, lemma_top_cell_last_cover,
    top_cell, win_cell,
};
use crate::area::{area_contains, cell_at_abs, grown_position, grown_size, regrid};
use crate::engine::{rendered, EngineView};
use crate::frame::{
    row_major_sorted,
    abs_pos, cells_of, changed, changes_upto, char_at_pos, concat_texts, continues, run_cells, lemma_changes_upto,
    lemma_runs_len, move_to_start, ops_prefix, printed, prints_at_starts, cursor_after, runs,
    runs_of, skips_move, synced, term_ops, PrintRun, TermOp,
};
use crate::grid::{blank_column, blank_grid, has_dims, resized_grid, Cell};
use crate::style::{ContentStyle, StyledChar};
use crate::window::{Window, WindowView};

verus! {

/// Drawing text and reading it back: each drawn character is found at its
/// cell, in the drawing style, and every other cell is as it was.
pub proof fn law_draw_then_read(
    w: WindowView,
    pos: (usize, usize),
    text: Seq<char>,
    style: ContentStyle,
    x: int,
    y: int,
)
    requires
        w.well_formed(),
        text.len() > 0 ==> pos.0 + text.len() <= w.size.0 && pos.1 < w.size.1,
    ensures
        ({
            let after = WindowView { cells: w.drawn(pos, text, style), ..w };
            after.char_at(x, y) == if y == pos.1 && pos.0 <= x < pos.0 + text.len() {
                Some(StyledChar::styled(text[x - pos.0], style))
            } else {
                w.char_at(x, y)
            }
        }),
{
    if 0 <= x < w.size.0 {
        assert(w.cells[x].len() == w.size.1);
    }
}

/// After a fill, every cell of the window holds the fill character.
pub proof fn law_fill_then_read(w: WindowView, c: StyledChar, x: int, y: int)
    requires
        0 <= x < w.size.0,
        0 <= y < w.size.1,
    ensures
        (WindowView { cells: w.filled(c), ..w }).char_at(x, y) == Some(c),
{
}

/// Resizing keeps every cell that lies inside both the old and the new size;
/// the other cells of the new size are transparent.
pub proof fn law_resize_keeps_overlap(w: WindowView, size: (usize, usize), x: int, y: int)
    requires
        w.well_formed(),
    ensures
        (WindowView {
            size,
            cells: resized_grid(w.cells, size.0 as nat, size.1 as nat),
            ..w
        }).char_at(x, y) == if 0 <= x < size.0 && 0 <= y < size.1 {
            w.char_at(x, y)
        } else {
            None
        },
{
    if 0 <= x < w.size.0 {
        assert(w.cells[x].len() == w.size.1);
    }
}

/// A window added under an identifier is the one found under it afterwards;
/// the windows under other identifiers stay as they were.
pub proof fn law_add_then_get<I>(windows: Map<I, Window>, id: I, w: Window, other: I)
    ensures
        windows.insert(id, w).contains_key(id),
        windows.insert(id, w)[id] == w,
        other != id ==> (windows.insert(id, w).contains_key(other) == windows.contains_key(other)),
        other != id && windows.contains_key(other) ==> windows.insert(id, w)[other] == windows[other],
{
}

/// Adding a window grows the area to hold both the old area and the window;
/// every cell of the old area keeps its content at the same screen position,
/// and the cells that are new to the area are `None`.
pub proof fn law_add_window_keeps_screen(
    buf: Seq<Seq<Cell>>,
    pos: (usize, usize),
    size: (usize, usize),
    w: WindowView,
    ax: int,
    ay: int,
)
    requires
        has_dims(buf, size.0 as int, size.1 as int),
        pos.0 + size.0 <= usize::MAX,
        pos.1 + size.1 <= usize::MAX,
        w.position.0 + w.size.0 <= usize::MAX,
        w.position.1 + w.size.1 <= usize::MAX,
    ensures
        ({
            let np = grown_position(pos, w);
            let ns = grown_size(pos, size, w);
            &&& area_contains(np, ns, pos, size)
            &&& covers(np, ns, w)
            &&& np.0 <= ax < np.0 + ns.0 && np.1 <= ay < np.1 + ns.1 ==> cell_at_abs(
                regrid(buf, pos, size, np, ns),
                np,
                ns,
                ax,
                ay,
            ) == cell_at_abs(buf, pos, size, ax, ay)
        }),
{
}

/// After a render, the terminal is taken to show, at each cell, the window
/// that is not transparent there and lies deeper than every other window that
/// is not transparent there; the current buffer holds it too, unless a window
/// that is to be cleared on render lies over the cell.
pub proof fn law_deepest_window_shown<I>(
    old: EngineView<I>,
    ws: Seq<Window>,
    new: EngineView<I>,
    f: crate::frame::RenderFrame,
    key: I,
    x: int,
    y: int,
)
    requires
        old.well_formed(),
        is_stacking(ws, old.windows),
        rendered(old, ws, new, f),
        old.windows.contains_key(key),
        0 <= x < old.size.0,
        0 <= y < old.size.1,
        win_cell(old.windows[key]@, old.position, x, y) is Some,
        forall|k: I|
            #[trigger] old.windows.contains_key(k) && old.windows[k] != old.windows[key]
                && win_cell(old.windows[k]@, old.position, x, y) is Some ==> old.windows[k]@.depth
                < old.windows[key]@.depth,
    ensures
        !cleared_at(old.windows, old.position, x, y) ==> new.current[x][y] == win_cell(
            old.windows[key]@,
            old.position,
            x,
            y,
        ),
        new.display[x][y] == win_cell(old.windows[key]@, old.position, x, y),
{
    let w = old.windows[key];
    assert(old.windows.values().contains(w));
    assert(ws.to_set().contains(w));
    assert forall|i: int|
        0 <= i < ws.len() && ws[i] != w && (#[trigger] win_cell(ws[i]@, old.position, x, y)) is Some
            implies ws[i]@.depth < w@.depth by {
        assert(ws.to_set().contains(ws[i]));
        assert(old.windows.values().contains(ws[i]));
        let k = choose|k: I| #[trigger] old.windows.contains_key(k) && old.windows[k] == ws[i];
        assert(old.windows.contains_key(k));
    }
    lemma_deepest_seen(ws, w, old.position, x, y, old.current[x][y]);
    assert(old.current[x].len() == old.size.1);
    assert(old.display[x].len() == old.size.1);
}

/// After a render, a cell where every window is transparent keeps what the
/// current buffer held there before, unless a window that is to be cleared on
/// render lies over it.
pub proof fn law_uncovered_cell_kept<I>(
    old: EngineView<I>,
    ws: Seq<Window>,
    new: EngineView<I>,
    f: crate::frame::RenderFrame,
    x: int,
    y: int,
)
    requires
        old.well_formed(),
        is_stacking(ws, old.windows),
        rendered(old, ws, new, f),
        0 <= x < old.size.0,
        0 <= y < old.size.1,
        forall|k: I|
            #[trigger] old.windows.contains_key(k) ==> win_cell(old.windows[k]@, old.position, x, y)
                is None,
    ensures
        new.current[x][y] == if cleared_at(old.windows, old.position, x, y) {
            None
        } else {
            old.current[x][y]
        },
{
    lemma_top_cell_last_cover(ws, old.position, x, y, old.current[x][y]);
    let j = last_cover(ws, old.position, x, y);
    if j >= 0 {
        assert(ws.to_set().contains(ws[j]));
        assert(old.windows.values().contains(ws[j]));
        let k = choose|k: I| #[trigger] old.windows.contains_key(k) && old.windows[k] == ws[j];
        assert(old.windows.contains_key(k));
    }
}

/// After a render the terminal is taken to show every drawn cell of the
/// windows laid over the current buffer; where that composition is
/// transparent, what the terminal showed before stays.
pub proof fn law_display_follows_current<I>(
    old: EngineView<I>,
    ws: Seq<Window>,
    new: EngineView<I>,
    f: crate::frame::RenderFrame,
    x: int,
    y: int,
)
    requires
        old.well_formed(),
        rendered(old, ws, new, f),
        0 <= x < old.size.0,
        0 <= y < old.size.1,
    ensures
        ({
            let c = composed(old.current, ws, old.position, old.size)[x][y];
            &&& c is Some ==> new.display[x][y] == c
            &&& c is None ==> new.display[x][y] == old.display[x][y]
        }),
{
    assert(old.display[x].len() == old.size.1);
}

/// Every window of a stacking order is a window of the map.
proof fn lemma_stacked_is_held<I>(ws: Seq<Window>, windows: Map<I, Window>, i: int) -> (k: I)
    requires
        is_stacking(ws, windows),
        0 <= i < ws.len(),
    ensures
        windows.contains_key(k),
        windows[k] == ws[i],
{
    assert(ws.to_set().contains(ws[i]));
    assert(windows.values().contains(ws[i]));
    choose|k: I| #[trigger] windows.contains_key(k) && windows[k] == ws[i]
}

/// Every window of the map has a place in a stacking order.
proof fn lemma_held_is_stacked<I>(ws: Seq<Window>, windows: Map<I, Window>, k: I) -> (i: int)
    requires
        is_stacking(ws, windows),
        windows.contains_key(k),
    ensures
        0 <= i < ws.len(),
        ws[i] == windows[k],
{
    assert(windows.values().contains(windows[k]));
    assert(ws.to_set().contains(windows[k]));
    choose|i: int| 0 <= i < ws.len() && ws[i] == windows[k]
}

/// Two maps hold, under the same identifiers, windows that agree on
/// everything a render lays: position, size, cells and depth (they may differ
/// in whether they are to be cleared on render).
pub open spec fn same_layout<I>(m1: Map<I, Window>, m2: Map<I, Window>) -> bool {
    &&& m1.dom() == m2.dom()
    &&& forall|k: I|
        #[trigger] m1.contains_key(k) ==> {
            &&& m1[k]@.position == m2[k]@.position
            &&& m1[k]@.size == m2[k]@.size
            &&& m1[k]@.cells == m2[k]@.cells
            &&& m1[k]@.depth == m2[k]@.depth
        }
}

/// Windows of equal depth never disagree on a cell where neither is
/// transparent, so the order in which a render lays them does not matter.
pub open spec fn depths_agree<I>(windows: Map<I, Window>, origin: (usize, usize)) -> bool {
    forall|k1: I, k2: I, x: int, y: int|
        windows.contains_key(k1) && windows.contains_key(k2) && windows[k1]@.depth
            == windows[k2]@.depth && (#[trigger] win_cell(windows[k1]@, origin, x, y)) is Some
            && (#[trigger] win_cell(windows[k2]@, origin, x, y)) is Some ==> win_cell(
            windows[k1]@,
            origin,
            x,
            y,
        ) == win_cell(windows[k2]@, origin, x, y)
}

/// Stacking orders of two maps with the same layout, whose windows of equal
/// depth agree, show the same window cell at each place: the one of a deepest
/// window that is not transparent there.
proof fn lemma_stackings_agree<I>(
    ws1: Seq<Window>,
    m1: Map<I, Window>,
    ws2: Seq<Window>,
    m2: Map<I, Window>,
    origin: (usize, usize),
    x: int,
    y: int,
    b1: Cell,
    b2: Cell,
)
    requires
        is_stacking(ws1, m1),
        is_stacking(ws2, m2),
        same_layout(m1, m2),
        depths_agree(m1, origin),
    ensures
        last_cover(ws1, origin, x, y) >= 0 <==> last_cover(ws2, origin, x, y) >= 0,
        last_cover(ws1, origin, x, y) >= 0 ==> top_cell(ws1, origin, x, y, b1) == top_cell(
            ws2,
            origin,
            x,
            y,
            b2,
        ),
{
    lemma_top_cell_last_cover(ws1, origin, x, y, b1);
    lemma_top_cell_last_cover(ws2, origin, x, y, b2);
    let j1 = last_cover(ws1, origin, x, y);
    let j2 = last_cover(ws2, origin, x, y);
    if j1 >= 0 {
        let k1 = lemma_stacked_is_held(ws1, m1, j1);
        assert(m2.contains_key(k1));
        let i2 = lemma_held_is_stacked(ws2, m2, k1);
        assert(win_cell(ws2[i2]@, origin, x, y) == win_cell(m1[k1]@, origin, x, y));
        assert(j2 >= i2);
    }
    if j2 >= 0 {
        let k2 = lemma_stacked_is_held(ws2, m2, j2);
        assert(m2.dom().contains(k2));
        assert(m1.contains_key(k2));
        let i1 = lemma_held_is_stacked(ws1, m1, k2);
        assert(win_cell(ws1[i1]@, origin, x, y) == win_cell(m2[k2]@, origin, x, y));
        assert(j1 >= i1);
    }
    if j1 >= 0 && j2 >= 0 {
        let k1 = lemma_stacked_is_held(ws1, m1, j1);
        let k2 = lemma_stacked_is_held(ws2, m2, j2);
        assert(m2.contains_key(k1));
        assert(m2.dom().contains(k2));
        assert(m1.contains_key(k2));
        let i2 = lemma_held_is_stacked(ws2, m2, k1);
        let i1 = lemma_held_is_stacked(ws1, m1, k2);
        assert(ws2[i2]@.depth <= ws2[j2]@.depth);
        assert(ws1[i1]@.depth <= ws1[j1]@.depth);
        assert(m1[k1]@.depth == m1[k2]@.depth);
        assert(win_cell(m1[k2]@, origin, x, y) == win_cell(m2[k2]@, origin, x, y));
        assert(win_cell(m1[k1]@, origin, x, y) == win_cell(m1[k2]@, origin, x, y));
    }
}

/// Rendering again right after a render prints nothing and changes nothing,
/// provided that windows of equal depth never disagree on a cell where
/// neither is transparent (so that the order in which a render lays windows
/// of one depth cannot change what it shows).
pub proof fn law_rerender_is_quiet<I>(
    e0: EngineView<I>,
    ws1: Seq<Window>,
    e1: EngineView<I>,
    f1: crate::frame::RenderFrame,
    ws2: Seq<Window>,
    e2: EngineView<I>,
    f2: crate::frame::RenderFrame,
)
    requires
        e0.well_formed(),
        is_stacking(ws1, e0.windows),
        rendered(e0, ws1, e1, f1),
        is_stacking(ws2, e1.windows),
        rendered(e1, ws2, e2, f2),
        depths_agree(e0.windows, e0.position),
    ensures
        e2 == e1,
        f2.updated == 0,
        f2.commands@.len() == 0,
        f2.ops@.len() == 0,
{
    let pos = e0.position;
    let size = e0.size;
    let w = e0.windows;
    let cur1 = composed(e0.current, ws1, pos, size);
    let cur2 = composed(e1.current, ws2, pos, size);
    assert(same_layout(w, w));
    // Where a window shows, both compositions show it; elsewhere the second
    // one shows what the first one left in the current buffer.
    assert forall|x: int, y: int| 0 <= x < size.0 && 0 <= y < size.1 implies {
        &&& #[trigger] cur2[x][y] is Some ==> cur2[x][y] == cur1[x][y]
        &&& cleared_at(w, pos, x, y) ==> e1.current[x][y] is None
        &&& !cleared_at(w, pos, x, y) ==> cur2[x][y] == cur1[x][y]
    } by {
        assert(e0.current[x].len() == size.1);
        lemma_stackings_agree(ws1, w, ws2, w, pos, x, y, e0.current[x][y], e1.current[x][y]);
        lemma_top_cell_last_cover(ws1, pos, x, y, e0.current[x][y]);
        lemma_top_cell_last_cover(ws2, pos, x, y, e1.current[x][y]);
    }
    let c2 = cleared(cur2, w, pos, size);
    assert forall|x: int| 0 <= x < c2.len() implies #[trigger] c2[x] == e1.current[x] by {
        assert(c2[x] =~= e1.current[x]);
    }
    assert(c2 =~= e1.current);
    let upd = changes_upto(cur2, e1.display, size.0 as int, size.1 as int);
    lemma_changes_upto(cur2, e1.display, size.0 as int, size.1 as int);
    if upd.len() > 0 {
        let p = upd[0];
        assert(upd.contains(p));
        assert(e0.display[p.0 as int].len() == size.1);
        assert(!changed(cur2, e1.display, p.0 as int, p.1 as int));
    }
    assert(upd =~= Seq::<(usize, usize)>::empty());
    assert(runs(cur2, upd) =~= Seq::empty());
    let d2 = synced(e1.display, cur2);
    assert forall|x: int| 0 <= x < d2.len() implies #[trigger] d2[x] == e1.display[x] by {
        assert(e0.display[x].len() == size.1);
        assert(d2[x] =~= e1.display[x]);
    }
    assert(d2 =~= e1.display);
}

/// Whether windows are to be cleared on render does not change what a render
/// prints: two engines with the same buffers and area, whose windows differ
/// only in that flag, make the same commands and terminal operations and
/// leave the same display (provided that windows of equal depth never
/// disagree on a cell where neither is transparent, so that the order in
/// which each render lays them cannot matter).
pub proof fn law_clear_flag_does_not_change_printing<I>(
    e1: EngineView<I>,
    ws1: Seq<Window>,
    n1: EngineView<I>,
    f1: crate::frame::RenderFrame,
    e2: EngineView<I>,
    ws2: Seq<Window>,
    n2: EngineView<I>,
    f2: crate::frame::RenderFrame,
)
    requires
        e1.well_formed(),
        e2.current == e1.current,
        e2.display == e1.display,
        e2.position == e1.position,
        e2.size == e1.size,
        same_layout(e1.windows, e2.windows),
        depths_agree(e1.windows, e1.position),
        is_stacking(ws1, e1.windows),
        rendered(e1, ws1, n1, f1),
        is_stacking(ws2, e2.windows),
        rendered(e2, ws2, n2, f2),
    ensures
        runs_of(f1.commands@) == runs_of(f2.commands@),
        f1.ops@ == f2.ops@,
        f1.updated == f2.updated,
        n1.display == n2.display,
{
    let pos = e1.position;
    let size = e1.size;
    let c1 = composed(e1.current, ws1, pos, size);
    let c2 = composed(e2.current, ws2, pos, size);
    assert forall|x: int| 0 <= x < c1.len() implies #[trigger] c1[x] == c2[x] by {
        assert forall|y: int| 0 <= y < c1[x].len() implies #[trigger] c1[x][y] == c2[x][y] by {
            lemma_stackings_agree(
                ws1,
                e1.windows,
                ws2,
                e2.windows,
                pos,
                x,
                y,
                e1.current[x][y],
                e2.current[x][y],
            );
            lemma_top_cell_last_cover(ws1, pos, x, y, e1.current[x][y]);
            lemma_top_cell_last_cover(ws2, pos, x, y, e2.current[x][y]);
        }
        assert(c1[x] =~= c2[x]);
    }
    assert(c1 =~= c2);
}

/// The commands print exactly the characters at the given positions, in
/// order, without dropping or repeating any.
pub proof fn law_commands_print_each_char(cur: Seq<Seq<Cell>>, ps: Seq<(usize, usize)>)
    ensures
        concat_texts(runs(cur, ps)) == ps.map_values(|p: (usize, usize)| char_at_pos(cur, p).char),
    decreases ps.len(),
{
    if ps.len() > 0 {
        let q = ps.drop_last();
        law_commands_print_each_char(cur, q);
        lemma_runs_len(cur, q);
        let prev = runs(cur, q);
        let i = ps.len() - 1;
        let c = char_at_pos(cur, ps[i]);
        let f = |p: (usize, usize)| char_at_pos(cur, p).char;
        assert(ps.map_values(f) =~= q.map_values(f).push(c.char));
        if i > 0 && continues(cur, ps, i) {
            let last = prev.last();
            let next = prev.update(
                prev.len() - 1,
                PrintRun { position: last.position, style: last.style, text: last.text.push(c.char) },
            );
            assert(next.drop_last() =~= prev.drop_last());
            assert(concat_texts(prev) == concat_texts(prev.drop_last()) + last.text);
            assert(concat_texts(next) =~= concat_texts(prev).push(c.char));
        } else {
            let next = prev.push(PrintRun { position: ps[i], style: c.style, text: seq![c.char] });
            assert(next.drop_last() =~= prev);
            assert(concat_texts(next) =~= concat_texts(prev).push(c.char));
        }
    }
}

/// The indices printed by two runs of operations are those of the first, then those of the second.
proof fn lemma_printed_concat(a: Seq<TermOp>, b: Seq<TermOp>)
    ensures
        printed(a + b) == printed(a) + printed(b),
    decreases b.len(),
{
    if b.len() == 0 {
        assert(a + b =~= a);
        assert(printed(a) + printed(b) =~= printed(a));
    } else {
        lemma_printed_concat(a, b.drop_last());
        assert((a + b).drop_last() =~= a + b.drop_last());
        assert((a + b).last() == b.last());
        assert(printed(a + b) =~= printed(a) + printed(b));
    }
}

/// The operations of the first `k` steps print the first `k` commands in order.
proof fn lemma_printed_prefix(rs: Seq<PrintRun>, origin: (usize, usize), k: int)
    requires
        0 <= k < rs.len(),
        rs.len() <= usize::MAX,
    ensures
        printed(ops_prefix(rs, origin, k)) == Seq::new(k as nat, |i: int| i as usize),
    decreases k,
{
    let first = seq![move_to_start(rs, origin, 0)];
    if k == 0 {
        assert(first.drop_last() =~= Seq::<TermOp>::empty());
        assert(printed(Seq::<TermOp>::empty()) =~= Seq::<usize>::empty());
        assert(printed(first) =~= Seq::new(0, |i: int| i as usize));
    } else {
        lemma_printed_prefix(rs, origin, k - 1);
        let a = ops_prefix(rs, origin, k - 1);
        let b = seq![TermOp::Print((k - 1) as usize)];
        let c = if skips_move(rs, k - 1) {
            Seq::<TermOp>::empty()
        } else {
            seq![move_to_start(rs, origin, k)]
        };
        lemma_printed_concat(a, b);
        lemma_printed_concat(a + b, c);
        assert(b.drop_last() =~= Seq::<TermOp>::empty());
        assert(printed(Seq::<TermOp>::empty()) =~= Seq::<usize>::empty());
        assert(printed(b) =~= seq![(k - 1) as usize]);
        if !skips_move(rs, k - 1) {
            assert(c.drop_last() =~= Seq::<TermOp>::empty());
        }
        assert(printed(c) =~= Seq::<usize>::empty());
        assert(printed(ops_prefix(rs, origin, k)) =~= Seq::new(k as nat, |i: int| i as usize));
    }
}

/// The terminal operations print every command exactly once, in order.
pub proof fn law_ops_print_each_command_once(rs: Seq<PrintRun>, origin: (usize, usize))
    requires
        rs.len() <= usize::MAX,
    ensures
        printed(term_ops(rs, origin)) == Seq::new(rs.len(), |i: int| i as usize),
{
    if rs.len() > 0 {
        let n = rs.len() - 1;
        lemma_printed_prefix(rs, origin, n);
        let a = ops_prefix(rs, origin, n);
        let t = a.push(TermOp::Print(n as usize));
        assert(t.drop_last() =~= a);
        assert(printed(t) =~= Seq::new(rs.len(), |i: int| i as usize));
    } else {
        assert(printed(term_ops(rs, origin)) =~= Seq::new(rs.len(), |i: int| i as usize));
    }
}

/// Running two lists of operations one after the other moves the cursor as
/// the second does, starting where the first left it.
proof fn lemma_cursor_after_concat(a: Seq<TermOp>, b: Seq<TermOp>, rs: Seq<PrintRun>, start: (int, int))
    ensures
        cursor_after(a + b, rs, start) == cursor_after(b, rs, cursor_after(a, rs, start)),
    decreases b.len(),
{
    if b.len() == 0 {
        assert(a + b =~= a);
    } else {
        lemma_cursor_after_concat(a, b.drop_last(), rs, start);
        assert((a + b).drop_last() =~= a + b.drop_last());
        assert((a + b).last() == b.last());
    }
}

/// The terminal position of the start of command `i`, as integers.
pub open spec fn start_cell(rs: Seq<PrintRun>, origin: (usize, usize), i: int) -> (int, int) {
    (abs_pos(rs[i].position, origin).0 as int, abs_pos(rs[i].position, origin).1 as int)
}

/// Every command starts at a terminal cell that 16 bits can address.
pub open spec fn starts_fit(rs: Seq<PrintRun>, origin: (usize, usize)) -> bool {
    forall|i: int|
        0 <= i < rs.len() ==> #[trigger] rs[i].position.0 + origin.0 <= u16::MAX
            && rs[i].position.1 + origin.1 <= u16::MAX
}

/// The operations of the first `k` steps print each command at its start and
/// leave the cursor at the start of command `k`.
proof fn lemma_prefix_prints_at_starts(rs: Seq<PrintRun>, origin: (usize, usize), start: (int, int), k: int)
    requires
        0 <= k < rs.len(),
        rs.len() <= usize::MAX,
        starts_fit(rs, origin),
    ensures
        prints_at_starts(ops_prefix(rs, origin, k), rs, origin, start),
        cursor_after(ops_prefix(rs, origin, k), rs, start) == start_cell(rs, origin, k),
    decreases k,
{
    let ops = ops_prefix(rs, origin, k);
    if k == 0 {
        assert(ops.drop_last() =~= Seq::<TermOp>::empty());
        assert forall|j: int| 0 <= j < ops.len() implies match #[trigger] ops[j] {
            TermOp::Print(i) => 0 <= i < rs.len() && cursor_after(ops.take(j), rs, start) == start_cell(rs, origin, i as int),
            TermOp::MoveTo(_, _) => true,
        } by {
            assert(ops[j] == move_to_start(rs, origin, 0));
        }
    } else {
        lemma_prefix_prints_at_starts(rs, origin, start, k - 1);
        let a = ops_prefix(rs, origin, k - 1);
        let b = seq![TermOp::Print((k - 1) as usize)];
        let c = if skips_move(rs, k - 1) {
            Seq::<TermOp>::empty()
        } else {
            seq![move_to_start(rs, origin, k)]
        };
        assert(ops == a + b + c);
        lemma_cursor_after_concat(a, b, rs, start);
        lemma_cursor_after_concat(a + b, c, rs, start);
        assert(b.drop_last() =~= Seq::<TermOp>::empty());
        let after_print = cursor_after(a + b, rs, start);
        assert(cursor_after(b.drop_last(), rs, cursor_after(a, rs, start)) == cursor_after(a, rs, start));
        assert(after_print == (start_cell(rs, origin, k - 1).0 + rs[k - 1].text.len(), start_cell(rs, origin, k - 1).1));
        assert(rs[k - 1].position.0 + origin.0 <= u16::MAX);
        assert(rs[k].position.0 + origin.0 <= u16::MAX);
        if skips_move(rs, k - 1) {
            assert(c =~= Seq::<TermOp>::empty());
            assert(a + b + c =~= a + b);
        } else {
            assert(c.drop_last() =~= Seq::<TermOp>::empty());
        }
        assert forall|j: int| 0 <= j < ops.len() implies match #[trigger] ops[j] {
            TermOp::Print(i) => 0 <= i < rs.len() && cursor_after(ops.take(j), rs, start) == start_cell(rs, origin, i as int),
            TermOp::MoveTo(_, _) => true,
        } by {
            if j < a.len() {
                assert(ops[j] == a[j]);
                assert(ops.take(j) =~= a.take(j));
            } else if j == a.len() {
                assert(ops[j] == TermOp::Print((k - 1) as usize));
                assert(ops.take(j) =~= a);
            } else {
                assert(ops[j] == move_to_start(rs, origin, k));
            }
        }
    }
}

/// Each command is printed with the cursor at the start of the command: the
/// cursor is moved there, or printing the command before left it there.
pub proof fn law_each_command_printed_at_its_start(
    rs: Seq<PrintRun>,
    origin: (usize, usize),
    start: (int, int),
)
    requires
        rs.len() <= usize::MAX,
        starts_fit(rs, origin),
    ensures
        prints_at_starts(term_ops(rs, origin), rs, origin, start),
{
    let ops = term_ops(rs, origin);
    if rs.len() > 0 {
        let n = rs.len() - 1;
        lemma_prefix_prints_at_starts(rs, origin, start, n);
        let a = ops_prefix(rs, origin, n);
        assert forall|j: int| 0 <= j < ops.len() implies match #[trigger] ops[j] {
            TermOp::Print(i) => 0 <= i < rs.len() && cursor_after(ops.take(j), rs, start) == start_cell(rs, origin, i as int),
            TermOp::MoveTo(_, _) => true,
        } by {
            if j < a.len() {
                assert(ops[j] == a[j]);
                assert(ops.take(j) =~= a.take(j));
            } else {
                assert(ops.take(j) =~= a);
            }
        }
    }
}

/// Stacks whose windows agree, place by place, on position, size and cells
/// show the same cells: whether a window is to be cleared on render, or its
/// depth once the order is fixed, does not change what is drawn.
pub proof fn law_only_placement_and_cells_matter(
    ws1: Seq<Window>,
    ws2: Seq<Window>,
    buf: Seq<Seq<Cell>>,
    origin: (usize, usize),
    size: (usize, usize),
)
    requires
        ws1.len() == ws2.len(),
        forall|i: int|
            0 <= i < ws1.len() ==> {
                &&& (#[trigger] ws1[i])@.position == ws2[i]@.position
                &&& ws1[i]@.size == ws2[i]@.size
                &&& ws1[i]@.cells == ws2[i]@.cells
            },
    ensures
        composed(buf, ws1, origin, size) == composed(buf, ws2, origin, size),
{
    let a = composed(buf, ws1, origin, size);
    let b = composed(buf, ws2, origin, size);
    assert forall|x: int| 0 <= x < a.len() implies #[trigger] a[x] == b[x] by {
        assert forall|y: int| 0 <= y < a[x].len() implies #[trigger] a[x][y] == b[x][y] by {
            lemma_top_cell_same_placement(ws1, ws2, origin, x, y, buf[x][y]);
        }
        assert(a[x] =~= b[x]);
    }
    assert(a =~= b);
}

/// Stacks that agree on placement and cells show the same cell at each place.
proof fn lemma_top_cell_same_placement(
    ws1: Seq<Window>,
    ws2: Seq<Window>,
    origin: (usize, usize),
    x: int,
    y: int,
    below: Cell,
)
    requires
        ws1.len() == ws2.len(),
        forall|i: int|
            0 <= i < ws1.len() ==> {
                &&& (#[trigger] ws1[i])@.position == ws2[i]@.position
                &&& ws1[i]@.size == ws2[i]@.size
                &&& ws1[i]@.cells == ws2[i]@.cells
            },
    ensures
        top_cell(ws1, origin, x, y, below) == top_cell(ws2, origin, x, y, below),
    decreases ws1.len(),
{
    if ws1.len() > 0 {
        let d1 = ws1.drop_last();
        let d2 = ws2.drop_last();
        assert forall|i: int| 0 <= i < d1.len() implies {
            &&& (#[trigger] d1[i])@.position == d2[i]@.position
            &&& d1[i]@.size == d2[i]@.size
            &&& d1[i]@.cells == d2[i]@.cells
        } by {
            assert(d1[i] == ws1[i] && d2[i] == ws2[i]);
        }
        lemma_top_cell_same_placement(d1, d2, origin, x, y, below);
        assert(ws1.last() == ws1[ws1.len() - 1]);
    }
}

/// Placing a window cell in the engine's area and then taking its terminal
/// position gives the window cell's screen position (cut to 16 bits): the two
/// conversions undo each other.
pub proof fn law_positions_round_trip(
    origin: (usize, usize),
    win_pos: (usize, usize),
    pos: (usize, usize),
)
    requires
        origin.0 <= win_pos.0 + pos.0 <= usize::MAX,
        origin.1 <= win_pos.1 + pos.1 <= usize::MAX,
    ensures
        abs_pos(eng_pos(origin, win_pos, pos), origin) == (
            (win_pos.0 + pos.0) as u16,
            (win_pos.1 + pos.1) as u16,
        ),
{
}

/// After a render, every cell of the area under a window that is to be
/// cleared on render is `None` in the current buffer.
pub proof fn law_render_clears_flagged_windows<I>(
    old: EngineView<I>,
    ws: Seq<Window>,
    new: EngineView<I>,
    f: crate::frame::RenderFrame,
    key: I,
    x: int,
    y: int,
)
    requires
        rendered(old, ws, new, f),
        old.windows.contains_key(key),
        old.windows[key]@.clear_on_render,
        under(old.windows[key]@, old.position, x, y),
        0 <= x < old.size.0,
        0 <= y < old.size.1,
    ensures
        new.current[x][y] is None,
{
    assert(cleared_at(old.windows, old.position, x, y));
}

/// The windows an engine holds after `Engine::new` with `k0`, `w0` and then
/// `add_window` with each pair of `adds` in turn (the states `views`, as the
/// contracts of those functions give them): under each identifier is the
/// window stored under it last, and an identifier under which nothing was
/// stored holds nothing. `Engine::get_window` gives what the map holds.
pub proof fn law_lookup_finds_last_stored<I>(
    views: Seq<EngineView<I>>,
    k0: I,
    w0: Window,
    adds: Seq<(I, Window)>,
    k: I,
)
    requires
        views.len() == adds.len() + 1,
        views[0].windows == Map::<I, Window>::empty().insert(k0, w0),
        forall|i: int|
            #![trigger adds[i]]
            0 <= i < adds.len() ==> views[i + 1].windows == views[i].windows.insert(adds[i].0, adds[i].1),
    ensures
        forall|i: int|
            #![trigger adds[i]]
            0 <= i < adds.len() && adds[i].0 == k && (forall|j: int|
                i < j < adds.len() ==> #[trigger] adds[j].0 != k) ==> views.last().windows.contains_key(k)
                && views.last().windows[k] == adds[i].1,
        (forall|i: int| 0 <= i < adds.len() ==> #[trigger] adds[i].0 != k) ==> {
            &&& views.last().windows.contains_key(k) == (k == k0)
            &&& k == k0 ==> views.last().windows[k] == w0
        },
    decreases adds.len(),
{
    if adds.len() > 0 {
        let n = adds.len() - 1;
        let vs = views.drop_last();
        let ad = adds.drop_last();
        assert forall|i: int| #![trigger ad[i]] 0 <= i < ad.len() implies vs[i + 1].windows
            == vs[i].windows.insert(ad[i].0, ad[i].1) by {
            assert(ad[i] == adds[i]);
        }
        law_lookup_finds_last_stored(vs, k0, w0, ad, k);
        assert(views.last() == views[n + 1]);
        assert(adds[n] == adds[n as int]);
        assert(views[n + 1].windows == views[n as int].windows.insert(adds[n].0, adds[n].1));
        assert(vs.last() == views[n as int]);
        assert forall|i: int|
            #![trigger adds[i]]
            0 <= i < adds.len() && adds[i].0 == k && (forall|j: int|
                i < j < adds.len() ==> #[trigger] adds[j].0 != k) implies views.last().windows.contains_key(k)
                && views.last().windows[k] == adds[i].1 by {
            if i < n {
                assert(adds[n].0 != k);
                assert(ad[i] == adds[i]);
                assert forall|j: int| i < j < ad.len() implies #[trigger] ad[j].0 != k by {
                    assert(ad[j] == adds[j]);
                }
            }
        }
        if forall|i: int| 0 <= i < adds.len() ==> #[trigger] adds[i].0 != k {
            assert(adds[n].0 != k);
            assert forall|i: int| 0 <= i < ad.len() implies #[trigger] ad[i].0 != k by {
                assert(ad[i] == adds[i]);
            }
        }
    }
}

/// One thing done to a window, as its methods do it: `draw_styled`, `fill`,
/// `set_size`, or one that leaves its size and cells alone (`set_position`,
/// `set_depth`, `set_clear_on_render`).
pub enum WindowEdit {
    Draw { pos: (usize, usize), text: Seq<char>, style: ContentStyle },
    Fill { fill: StyledChar },
    Resize { size: (usize, usize) },
    Other,
}

/// `after` is `before` with the edit done to it, as the method's contract gives it.
pub open spec fn edit_applied(before: WindowView, e: WindowEdit, after: WindowView) -> bool {
    match e {
        WindowEdit::Draw { pos, text, style } => after == (WindowView {
            cells: before.drawn(pos, text.take(before.visible_count(pos, text.len() as int)), style),
            ..before
        }),
        WindowEdit::Fill { fill } => after == (WindowView { cells: before.filled(fill), ..before }),
        WindowEdit::Resize { size } => after == (WindowView {
            size,
            cells: resized_grid(before.cells, size.0 as nat, size.1 as nat),
            ..before
        }),
        WindowEdit::Other => after.size == before.size && after.cells == before.cells,
    }
}

/// The size of a window of size `s0` after the edits.
pub open spec fn size_after(s0: (usize, usize), edits: Seq<WindowEdit>) -> (usize, usize)
    decreases edits.len(),
{
    if edits.len() == 0 {
        s0
    } else {
        match edits.last() {
            WindowEdit::Resize { size } => size,
            _ => size_after(s0, edits.drop_last()),
        }
    }
}

/// The cell `(x, y)` of a new window of size `s0` after the edits: what the
/// last edit to write there wrote, unless a later resize left the cell out of
/// the window; `None` where nothing was written.
pub open spec fn last_written(s0: (usize, usize), edits: Seq<WindowEdit>, x: int, y: int) -> Cell
    decreases edits.len(),
{
    if edits.len() == 0 {
        None
    } else {
        let sz = size_after(s0, edits.drop_last());
        let earlier = last_written(s0, edits.drop_last(), x, y);
        match edits.last() {
            WindowEdit::Draw { pos, text, style } => {
                let n = if pos.0 < sz.0 && pos.1 < sz.1 {
                    vstd::math::min(text.len() as int, sz.0 - pos.0)
                } else {
                    0
                };
                if y == pos.1 && pos.0 <= x < pos.0 + n {
                    Some(StyledChar::styled(text[x - pos.0], style))
                } else {
                    earlier
                }
            },
            WindowEdit::Fill { fill } => if 0 <= x < sz.0 && 0 <= y < sz.1 {
                Some(fill)
            } else {
                earlier
            },
            WindowEdit::Resize { size } => if 0 <= x < size.0 && 0 <= y < size.1 {
                earlier
            } else {
                None
            },
            WindowEdit::Other => earlier,
        }
    }
}

/// Reading a cell of a window gives what was last written there by
/// `draw_styled` or `fill` since the window was created with `Window::new`
/// (the states `vs`, as the contracts of the methods give them), kept across
/// `set_size` while the cell stays inside the window; `None` where nothing
/// was written, or where a resize left the cell out, and outside the window.
pub proof fn law_read_gives_last_write(vs: Seq<WindowView>, edits: Seq<WindowEdit>, x: int, y: int)
    requires
        vs.len() == edits.len() + 1,
        vs[0].cells == blank_grid(vs[0].size.0 as nat, vs[0].size.1 as nat),
        forall|i: int| 0 <= i < vs.len() ==> #[trigger] vs[i].well_formed(),
        forall|i: int|
            #![trigger edits[i]]
            0 <= i < edits.len() ==> edit_applied(vs[i], edits[i], vs[i + 1]),
    ensures
        vs.last().size == size_after(vs[0].size, edits),
        vs.last().char_at(x, y) == last_written(vs[0].size, edits, x, y),
    decreases edits.len(),
{
    if edits.len() == 0 {
        if 0 <= x < vs[0].size.0 {
            assert(vs[0].cells[x] == blank_column(vs[0].size.1 as nat));
        }
    } else {
        let n = edits.len() - 1;
        let pv = vs.drop_last();
        let pe = edits.drop_last();
        assert forall|i: int| 0 <= i < pv.len() implies #[trigger] pv[i].well_formed() by {
            assert(pv[i] == vs[i]);
        }
        assert forall|i: int| #![trigger pe[i]] 0 <= i < pe.len() implies edit_applied(pv[i], pe[i], pv[i + 1]) by {
            assert(pe[i] == edits[i]);
            assert(pv[i] == vs[i] && pv[i + 1] == vs[i + 1]);
        }
        law_read_gives_last_write(pv, pe, x, y);
        let before = vs[n as int];
        let after = vs[n + 1];
        assert(pv.last() == before);
        assert(vs.last() == after);
        assert(edits.last() == edits[n as int]);
        assert(edit_applied(before, edits[n as int], after));
        assert(before.well_formed());
        match edits[n as int] {
            WindowEdit::Draw { pos, text, style } => {
                let m = before.visible_count(pos, text.len() as int);
                if pos.0 < before.size.0 && pos.1 < before.size.1 {
                    assert(m == vstd::math::min(text.len() as int, before.size.0 - pos.0));
                    assert(0 <= m);
                    assert(m <= text.len());
                    assert(pos.0 + m <= before.size.0);
                } else {
                    assert(m == 0);
                }
                let t = text.take(m);
                assert(t.len() == m);
                law_draw_then_read(before, pos, t, style, x, y);
            },
            WindowEdit::Fill { fill } => {
                if 0 <= x < before.size.0 && 0 <= y < before.size.1 {
                    law_fill_then_read(before, fill, x, y);
                }
            },
            WindowEdit::Resize { size } => {
                law_resize_keeps_overlap(before, size, x, y);
            },
            WindowEdit::Other => {},
        }
    }
}

/// What the print commands for the cells at `ps` are, described by the cells
/// they print rather than by how they are built: the commands print exactly
/// the cells of `ps`, in order; each command prints, at each of its cells,
/// the character of the current buffer there, in the command's style, which
/// is that cell's style (every colour and the attributes); no command is
/// empty; and two commands in a row could not be one, as the second does not
/// start on the same row right after the first in the same style.
pub proof fn law_commands_print_cells_in_their_style(cur: Seq<Seq<Cell>>, ps: Seq<(usize, usize)>)
    requires
        forall|i: int| 0 <= i < ps.len() ==> (#[trigger] cur[ps[i].0 as int][ps[i].1 as int]) is Some,
    ensures
        ({
            let rs = runs(cur, ps);
            &&& cells_of(rs) == ps
            &&& forall|j: int, k: int|
                0 <= j < rs.len() && 0 <= k < rs[j].text.len() ==> cur[rs[j].position.0 + k][rs[j].position.1 as int]
                    == Some(StyledChar::styled(#[trigger] rs[j].text[k], rs[j].style))
            &&& forall|j: int|
                0 <= j < rs.len() ==> #[trigger] rs[j].text.len() > 0 && rs[j].position.0 + rs[j].text.len()
                    <= usize::MAX + 1
            &&& forall|j: int|
                0 <= j < rs.len() - 1 ==> !({
                    &&& (#[trigger] rs[j + 1]).position.1 == rs[j].position.1
                    &&& rs[j + 1].position.0 == rs[j].position.0 + rs[j].text.len()
                    &&& rs[j + 1].style == rs[j].style
                })
        }),
    decreases ps.len(),
{
    let rs = runs(cur, ps);
    if ps.len() == 0 {
        assert(cells_of(rs) =~= ps);
    } else {
        let q = ps.drop_last();
        assert forall|i: int| 0 <= i < q.len() implies (#[trigger] cur[q[i].0 as int][q[i].1 as int]) is Some by {
            assert(q[i] == ps[i]);
        }
        law_commands_print_cells_in_their_style(cur, q);
        lemma_runs_len(cur, q);
        let prev = runs(cur, q);
        let i = ps.len() - 1;
        let c = char_at_pos(cur, ps[i]);
        assert(cur[ps[i].0 as int][ps[i].1 as int] is Some);
        assert(cur[ps[i].0 as int][ps[i].1 as int] == Some(StyledChar::styled(c.char, c.style)));
        if i > 0 && continues(cur, ps, i) {
            let n = prev.len() - 1;
            let last = prev[n];
            let nl = PrintRun { position: last.position, style: last.style, text: last.text.push(c.char) };
            assert(rs == prev.update(n, nl));
            assert(prev.drop_last() =~= rs.drop_last());
            assert(rs.last() == nl);
            // The last cell printed so far is the position before `ps[i]`.
            let before_cells = cells_of(prev.drop_last());
            assert(cells_of(prev) == before_cells + run_cells(last));
            assert(last.text.len() > 0);
            let lc = run_cells(last);
            assert(cells_of(prev)[cells_of(prev).len() - 1] == lc[lc.len() - 1]);
            assert(q[q.len() - 1] == ps[i - 1]);
            assert(ps[i - 1] == ((last.position.0 + last.text.len() - 1) as usize, last.position.1));
            assert(last.position.0 + last.text.len() - 1 <= usize::MAX);
            assert(ps[i - 1].0 == last.position.0 + last.text.len() - 1);
            assert(ps[i].0 == last.position.0 + last.text.len());
            assert(run_cells(nl) =~= lc.push(ps[i]));
            assert(cells_of(rs) == cells_of(rs.drop_last()) + run_cells(rs.last()));
            assert(cells_of(rs) =~= (before_cells + lc).push(ps[i]));
            assert(ps =~= q.push(ps[i]));
            assert(cells_of(rs) =~= ps);
            // The style of the run is that of its cell before `ps[i]`.
            assert(last.text[last.text.len() - 1] == prev[n].text[prev[n].text.len() - 1]);
            assert(cur[last.position.0 + (last.text.len() - 1)][last.position.1 as int] == Some(
                StyledChar::styled(last.text[last.text.len() - 1], last.style),
            ));
            assert(char_at_pos(cur, ps[i - 1]).style == last.style);
            assert forall|j: int, k: int|
                0 <= j < rs.len() && 0 <= k < rs[j].text.len() implies cur[rs[j].position.0 + k][rs[j].position.1 as int]
                    == Some(StyledChar::styled(#[trigger] rs[j].text[k], rs[j].style)) by {
                if j < n {
                    assert(rs[j] == prev[j]);
                    assert(prev[j].text[k] == rs[j].text[k]);
                } else if k < last.text.len() {
                    assert(rs[j].text[k] == last.text[k]);
                    assert(prev[n].text[k] == last.text[k]);
                }
            }
            assert forall|j: int| 0 <= j < rs.len() implies #[trigger] rs[j].text.len() > 0
                && rs[j].position.0 + rs[j].text.len() <= usize::MAX + 1 by {
                if j < n {
                    assert(rs[j] == prev[j]);
                }
            }
            assert forall|j: int| 0 <= j < rs.len() - 1 implies !({
                &&& (#[trigger] rs[j + 1]).position.1 == rs[j].position.1
                &&& rs[j + 1].position.0 == rs[j].position.0 + rs[j].text.len()
                &&& rs[j + 1].style == rs[j].style
            }) by {
                assert(rs[j] == prev[j]);
                assert(prev[j + 1].position == rs[j + 1].position && prev[j + 1].style == rs[j + 1].style);
            }
        } else {
            let nr = PrintRun { position: ps[i], style: c.style, text: seq![c.char] };
            assert(rs == prev.push(nr));
            assert(rs.drop_last() =~= prev);
            assert(run_cells(nr) =~= seq![ps[i]]);
            assert(cells_of(rs) =~= ps);
            assert forall|j: int, k: int|
                0 <= j < rs.len() && 0 <= k < rs[j].text.len() implies cur[rs[j].position.0 + k][rs[j].position.1 as int]
                    == Some(StyledChar::styled(#[trigger] rs[j].text[k], rs[j].style)) by {
                if j < prev.len() {
                    assert(rs[j] == prev[j]);
                }
            }
            assert forall|j: int| 0 <= j < rs.len() implies #[trigger] rs[j].text.len() > 0
                && rs[j].position.0 + rs[j].text.len() <= usize::MAX + 1 by {
                if j < prev.len() {
                    assert(rs[j] == prev[j]);
                }
            }
            assert forall|j: int| 0 <= j < rs.len() - 1 implies !({
                &&& (#[trigger] rs[j + 1]).position.1 == rs[j].position.1
                &&& rs[j + 1].position.0 == rs[j].position.0 + rs[j].text.len()
                &&& rs[j + 1].style == rs[j].style
            }) by {
                assert(rs[j] == prev[j]);
                if j + 1 < prev.len() {
                    assert(rs[j + 1] == prev[j + 1]);
                } else {
                    // The new command would continue the last one: then `ps[i]`
                    // would have continued it.
                    let last = prev[j];
                    let lc = run_cells(last);
                    assert(cells_of(prev) == cells_of(prev.drop_last()) + lc);
                    assert(cells_of(prev)[cells_of(prev).len() - 1] == lc[lc.len() - 1]);
                    assert(q[q.len() - 1] == ps[i - 1]);
                    assert(cur[last.position.0 + (last.text.len() - 1)][last.position.1 as int] == Some(
                        StyledChar::styled(last.text[last.text.len() - 1], last.style),
                    ));
                }
            }
        }
    }
}

/// The print commands of a render print exactly the changed cells of the
/// frame (the cells where the windows laid over the current buffer show
/// something that differs from the display), in row-major order, each once;
/// each command prints, at each of its cells, that cell's character in the
/// command's style, which is that cell's whole style; no command is empty;
/// and a command that starts on the same row right after the previous one,
/// in its style, would have been part of it.
pub proof fn law_render_prints_changed_cells_in_their_style<I>(
    old: EngineView<I>,
    ws: Seq<Window>,
    new: EngineView<I>,
    f: crate::frame::RenderFrame,
)
    requires
        old.well_formed(),
        rendered(old, ws, new, f),
    ensures
        ({
            let cur = composed(old.current, ws, old.position, old.size);
            let rs = runs_of(f.commands@);
            &&& forall|p: (usize, usize)|
                #[trigger] cells_of(rs).contains(p) <==> {
                    &&& p.0 < old.size.0
                    &&& p.1 < old.size.1
                    &&& cur[p.0 as int][p.1 as int] is Some
                    &&& cur[p.0 as int][p.1 as int] != old.display[p.0 as int][p.1 as int]
                }
            &&& row_major_sorted(cells_of(rs))
            &&& forall|j: int, k: int|
                0 <= j < rs.len() && 0 <= k < rs[j].text.len() ==> cur[rs[j].position.0 + k][rs[j].position.1 as int]
                    == Some(StyledChar::styled(#[trigger] rs[j].text[k], rs[j].style))
            &&& forall|j: int| 0 <= j < rs.len() ==> #[trigger] rs[j].text.len() > 0
            &&& forall|j: int|
                0 <= j < rs.len() - 1 ==> !({
                    &&& (#[trigger] rs[j + 1]).position.1 == rs[j].position.1
                    &&& rs[j + 1].position.0 == rs[j].position.0 + rs[j].text.len()
                    &&& rs[j + 1].style == rs[j].style
                })
        }),
{
    let cur = composed(old.current, ws, old.position, old.size);
    let upd = changes_upto(cur, old.display, old.size.0 as int, old.size.1 as int);
    lemma_changes_upto(cur, old.display, old.size.0 as int, old.size.1 as int);
    assert forall|i: int| 0 <= i < upd.len() implies (#[trigger] cur[upd[i].0 as int][upd[i].1 as int]) is Some by {
        assert(upd.contains(upd[i]));
    }
    law_commands_print_cells_in_their_style(cur, upd);
    let rs = runs_of(f.commands@);
    assert(rs == runs(cur, upd));
    assert forall|j: int| 0 <= j < rs.len() implies #[trigger] rs[j].text.len() > 0 by {
        assert(runs(cur, upd)[j].text.len() > 0);
    }
}

} // verus!
