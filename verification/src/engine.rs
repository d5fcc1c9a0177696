use std::collections::HashMap;
use std::hash::Hash;
use vstd::prelude::*;
use vstd::std_specs::hash::obeys_key_model;
use crate::area::{
    grown_position, grown_size, lemma_grow_down_shape, lemma_grow_left_shape,
    lemma_grow_right_shape, lemma_grow_up_shape, lemma_regrid_compose, lemma_regrid_dims,
    lemma_regrid_same, regrid,
};
use crate::clear::{cleared, clear_flagged};
use crate::compose::{
    composed, covers, is_stacking, lemma_composed_dims, lemma_composed_empty, lemma_composed_push,
    overlay_window, stacking_order,
};
use crate::frame::{
    abs_pos, changed, changes_in_row, changes_upto, char_at_pos, lemma_changes_upto,
    lemma_runs_in_area, ops_prefix, runs, runs_of, synced, term_ops, PrintCommand,
    PrintRun, RenderFrame, TermOp,
};
use crate::grid::{
    blank_grid, cell_ref, cells_differ, copy_at, grid_view, has_dims, lemma_update_keeps_dims,
    new_blank_grid, prepend_blank_cells, prepend_blank_columns, resize_columns, resize_outer,
    set_cell, Cell,
};
use crate::style::ContentStyle;
use crate::window::{Window, WindowView};

verus! {

/// What an engine is: its windows by identifier, whether debug output is on,
/// the frame that is on the terminal (`display`, `None` = unknown) and the
/// frame being built (`current`, `None` = transparent), both indexed
/// `[x][y]` relative to `position`, and the area `position`/`size` they cover.
#[verifier::reject_recursive_types(I)]
pub struct EngineView<I> {
    pub windows: Map<I, Window>,
    pub debug: bool,
    pub display: Seq<Seq<Cell>>,
    pub current: Seq<Seq<Cell>>,
    pub position: (usize, usize),
    pub size: (usize, usize),
}

/// The right and bottom edges of the window can be computed in `usize`.
pub open spec fn edges_fit(w: WindowView) -> bool {
    &&& w.position.0 + w.size.0 <= usize::MAX
    &&& w.position.1 + w.size.1 <= usize::MAX
}

/// What a render did, given the order `ws` it laid the windows in: the
/// windows were composed over the current buffer, the display took every
/// drawn cell of that composition, the frame holds the commands for the
/// changed cells and the operations that place them, and the current buffer
/// kept the composition except under the windows that are to be cleared on
/// render, where it became `None`.
pub open spec fn rendered<I>(old: EngineView<I>, ws: Seq<Window>, new: EngineView<I>, f: RenderFrame) -> bool {
    let cur = composed(old.current, ws, old.position, old.size);
    let upd = changes_upto(cur, old.display, old.size.0 as int, old.size.1 as int);
    let rs = runs(cur, upd);
    &&& new == (EngineView {
        current: cleared(cur, old.windows, old.position, old.size),
        display: synced(old.display, cur),
        ..old
    })
    &&& runs_of(f.commands@) == rs
    &&& f.ops@ == term_ops(rs, old.position)
    &&& f.updated == upd.len()
    &&& f.debug == old.debug
    &&& f.size == old.size
    &&& f.position == old.position
}

impl<I> EngineView<I> {
    /// Both buffers cover the engine's area, the area's far edges fit in
    /// `usize`, and every window is well formed and lies inside the area.
    pub open spec fn well_formed(self) -> bool {
        &&& has_dims(self.display, self.size.0 as int, self.size.1 as int)
        &&& has_dims(self.current, self.size.0 as int, self.size.1 as int)
        &&& self.position.0 + self.size.0 <= usize::MAX
        &&& self.position.1 + self.size.1 <= usize::MAX
        &&& forall|k: I|
            #[trigger] self.windows.contains_key(k) ==> {
                &&& self.windows[k]@.well_formed()
                &&& covers(self.position, self.size, self.windows[k]@)
            }
    }
}

/// A compositor of windows into one terminal frame.
#[verifier::reject_recursive_types(I)]
pub struct Engine<I> {
    windows: HashMap<I, Window>,
    debug: bool,
    display_buffer: Vec<Vec<Cell>>,
    current_buffer: Vec<Vec<Cell>>,
    position: (usize, usize),
    size: (usize, usize),
}

impl<I> View for Engine<I> {
    type V = EngineView<I>;

    closed spec fn view(&self) -> EngineView<I> {
        EngineView {
            windows: self.windows@,
            debug: self.debug,
            display: grid_view(&self.display_buffer),
            current: grid_view(&self.current_buffer),
            position: self.position,
            size: self.size,
        }
    }
}

impl<I: Eq + Hash> Engine<I> {
    /// The engine is usable: its identifier type behaves as a hash-map key
    /// (equal keys hash equally, `==` is an equivalence) and its state is well formed.
    pub open spec fn wf(&self) -> bool {
        &&& obeys_key_model::<I>()
        &&& self@.well_formed()
    }

    /// An engine covering exactly the area of `win`, holding `win` under
    /// `identifier`, with both buffers empty and debug output off.
    pub fn new(identifier: I, win: Window) -> (e: Engine<I>)
        requires
            obeys_key_model::<I>(),
            win@.well_formed(),
            edges_fit(win@),
        ensures
            e.wf(),
            e@ == (EngineView {
                windows: Map::<I, Window>::empty().insert(identifier, win),
                debug: false,
                display: blank_grid(win@.size.0 as nat, win@.size.1 as nat),
                current: blank_grid(win@.size.0 as nat, win@.size.1 as nat),
                position: win@.position,
                size: win@.size,
            }),
    {
        let position = *win.get_position();
        let size = *win.get_size();
        let mut e = Engine {
            windows: HashMap::new(),
            debug: false,
            display_buffer: new_blank_grid(size.0, size.1),
            current_buffer: new_blank_grid(size.0, size.1),
            position: position,
            size: size,
        };
        e.windows.insert(identifier, win);
        proof {
            let g = blank_grid(size.0 as nat, size.1 as nat);
            assert(has_dims(g, size.0 as int, size.1 as int));
            assert(e@.windows =~= Map::<I, Window>::empty().insert(identifier, win));
        }
        e
    }

    /// Turns the debug overlay on or off.
    pub fn set_debug(&mut self, debug: bool)
        ensures
            final(self)@ == (EngineView { debug, ..old(self)@ }),
    {
        self.debug = debug
    }

    /// Both buffers have the engine's size.
    spec fn buffers_fit(&self) -> bool {
        &&& has_dims(grid_view(&self.display_buffer), self.size.0 as int, self.size.1 as int)
        &&& has_dims(grid_view(&self.current_buffer), self.size.0 as int, self.size.1 as int)
    }

    /// Grows the area by `diff` columns on the left.
    fn grow_left(&mut self, diff: usize)
        requires
            old(self).buffers_fit(),
            diff <= old(self).position.0,
            old(self).size.0 + diff <= usize::MAX,
        ensures
            final(self).buffers_fit(),
            final(self).position == ((old(self).position.0 - diff) as usize, old(self).position.1),
            final(self).size == ((old(self).size.0 + diff) as usize, old(self).size.1),
            final(self)@.current == regrid(old(self)@.current, old(self).position, old(self).size, final(self).position, final(self).size),
            final(self)@.display == regrid(old(self)@.display, old(self).position, old(self).size, final(self).position, final(self).size),
            final(self)@.windows == old(self)@.windows,
            final(self)@.debug == old(self)@.debug,
    {
        proof {
            lemma_grow_left_shape(self@.current, self.position, self.size, diff);
            lemma_grow_left_shape(self@.display, self.position, self.size, diff);
        }
        let h = self.size.1;
        self.position.0 = self.position.0 - diff;
        self.size.0 = self.size.0 + diff;
        prepend_blank_columns(&mut self.current_buffer, diff, h);
        prepend_blank_columns(&mut self.display_buffer, diff, h);
        proof {
            let p = self.position;
            let sz = self.size;
            lemma_regrid_dims(old(self)@.current, old(self).position, old(self).size, p, sz);
            lemma_regrid_dims(old(self)@.display, old(self).position, old(self).size, p, sz);
        }
    }

    /// Grows the area to `width` columns, adding them on the right.
    fn grow_right(&mut self, width: usize)
        requires
            old(self).buffers_fit(),
            old(self).size.0 <= width,
        ensures
            final(self).buffers_fit(),
            final(self).position == old(self).position,
            final(self).size == (width, old(self).size.1),
            final(self)@.current == regrid(old(self)@.current, old(self).position, old(self).size, final(self).position, final(self).size),
            final(self)@.display == regrid(old(self)@.display, old(self).position, old(self).size, final(self).position, final(self).size),
            final(self)@.windows == old(self)@.windows,
            final(self)@.debug == old(self)@.debug,
    {
        let h = self.size.1;
        self.size.0 = width;
        resize_outer(&mut self.current_buffer, width, h);
        resize_outer(&mut self.display_buffer, width, h);
        proof {
            lemma_grow_right_shape(old(self)@.current, self@.current, self.position, old(self).size, width);
            lemma_grow_right_shape(old(self)@.display, self@.display, self.position, old(self).size, width);
            lemma_regrid_dims(old(self)@.current, old(self).position, old(self).size, self.position, self.size);
            lemma_regrid_dims(old(self)@.display, old(self).position, old(self).size, self.position, self.size);
        }
    }

    /// Grows the area by `diff` rows at the top.
    fn grow_up(&mut self, diff: usize)
        requires
            old(self).buffers_fit(),
            diff <= old(self).position.1,
            old(self).size.1 + diff <= usize::MAX,
        ensures
            final(self).buffers_fit(),
            final(self).position == (old(self).position.0, (old(self).position.1 - diff) as usize),
            final(self).size == (old(self).size.0, (old(self).size.1 + diff) as usize),
            final(self)@.current == regrid(old(self)@.current, old(self).position, old(self).size, final(self).position, final(self).size),
            final(self)@.display == regrid(old(self)@.display, old(self).position, old(self).size, final(self).position, final(self).size),
            final(self)@.windows == old(self)@.windows,
            final(self)@.debug == old(self)@.debug,
    {
        self.position.1 = self.position.1 - diff;
        self.size.1 = self.size.1 + diff;
        prepend_blank_cells(&mut self.current_buffer, diff);
        prepend_blank_cells(&mut self.display_buffer, diff);
        proof {
            lemma_grow_up_shape(old(self)@.current, self@.current, old(self).position, old(self).size, diff);
            lemma_grow_up_shape(old(self)@.display, self@.display, old(self).position, old(self).size, diff);
            lemma_regrid_dims(old(self)@.current, old(self).position, old(self).size, self.position, self.size);
            lemma_regrid_dims(old(self)@.display, old(self).position, old(self).size, self.position, self.size);
        }
    }

    /// Grows the area to `height` rows, adding them at the bottom.
    fn grow_down(&mut self, height: usize)
        requires
            old(self).buffers_fit(),
            old(self).size.1 <= height,
        ensures
            final(self).buffers_fit(),
            final(self).position == old(self).position,
            final(self).size == (old(self).size.0, height),
            final(self)@.current == regrid(old(self)@.current, old(self).position, old(self).size, final(self).position, final(self).size),
            final(self)@.display == regrid(old(self)@.display, old(self).position, old(self).size, final(self).position, final(self).size),
            final(self)@.windows == old(self)@.windows,
            final(self)@.debug == old(self)@.debug,
    {
        let w = self.size.0;
        self.size.1 = height;
        resize_columns(&mut self.current_buffer, w, height);
        resize_columns(&mut self.display_buffer, w, height);
        proof {
            lemma_grow_down_shape(old(self)@.current, self@.current, self.position, old(self).size, height);
            lemma_grow_down_shape(old(self)@.display, self@.display, self.position, old(self).size, height);
            lemma_regrid_dims(old(self)@.current, old(self).position, old(self).size, self.position, self.size);
            lemma_regrid_dims(old(self)@.display, old(self).position, old(self).size, self.position, self.size);
        }
    }

    /// Adds `window` under `identifier`, returning the window that was held
    /// under it before, if any. The area grows to the smallest one holding
    /// both the old area and the window; every buffer cell keeps its screen
    /// position and the cells that are new are `None` (unknown, transparent).
    #[verifier::spinoff_prover]
    #[verifier::rlimit(40)]
    pub fn add_window(&mut self, identifier: I, window: Window) -> (r: Option<Window>)
        requires
            old(self).wf(),
            window@.well_formed(),
            edges_fit(window@),
        ensures
            final(self).wf(),
            final(self)@ == (EngineView {
                windows: old(self)@.windows.insert(identifier, window),
                display: regrid(
                    old(self)@.display,
                    old(self)@.position,
                    old(self)@.size,
                    grown_position(old(self)@.position, window@),
                    grown_size(old(self)@.position, old(self)@.size, window@),
                ),
                current: regrid(
                    old(self)@.current,
                    old(self)@.position,
                    old(self)@.size,
                    grown_position(old(self)@.position, window@),
                    grown_size(old(self)@.position, old(self)@.size, window@),
                ),
                position: grown_position(old(self)@.position, window@),
                size: grown_size(old(self)@.position, old(self)@.size, window@),
                ..old(self)@
            }),
            r == (if old(self)@.windows.contains_key(identifier) {
                Some(old(self)@.windows[identifier])
            } else {
                None
            }),
    {
        let ghost op = self.position;
        let ghost os = self.size;
        let ghost oc = self@.current;
        let ghost od = self@.display;
        proof {
            lemma_regrid_same(oc, op, os);
            lemma_regrid_same(od, op, os);
        }
        let wpos = *window.get_position();
        let wsize = *window.get_size();

        // Left
        if wpos.0 < self.position.0 {
            let diff = self.position.0 - wpos.0;
            let ghost (p, sz) = (self.position, self.size);
            self.grow_left(diff);
            proof {
                lemma_regrid_compose(oc, op, os, p, sz, self.position, self.size);
                lemma_regrid_compose(od, op, os, p, sz, self.position, self.size);
            }
        }
        // Right
        if wpos.0 + wsize.0 > self.position.0 + self.size.0 {
            let diff = (wpos.0 + wsize.0) - (self.position.0 + self.size.0);
            let ghost (p, sz) = (self.position, self.size);
            self.grow_right(self.size.0 + diff);
            proof {
                lemma_regrid_compose(oc, op, os, p, sz, self.position, self.size);
                lemma_regrid_compose(od, op, os, p, sz, self.position, self.size);
            }
        }
        // Up
        if wpos.1 < self.position.1 {
            let diff = self.position.1 - wpos.1;
            let ghost (p, sz) = (self.position, self.size);
            self.grow_up(diff);
            proof {
                lemma_regrid_compose(oc, op, os, p, sz, self.position, self.size);
                lemma_regrid_compose(od, op, os, p, sz, self.position, self.size);
            }
        }
        // Down
        if wpos.1 + wsize.1 > self.position.1 + self.size.1 {
            let diff = (wpos.1 + wsize.1) - (self.position.1 + self.size.1);
            let ghost (p, sz) = (self.position, self.size);
            self.grow_down(self.size.1 + diff);
            proof {
                lemma_regrid_compose(oc, op, os, p, sz, self.position, self.size);
                lemma_regrid_compose(od, op, os, p, sz, self.position, self.size);
            }
        }
        assert(self.position == grown_position(op, window@));
        assert(self.size == grown_size(op, os, window@));
        let r = self.windows.insert(identifier, window);
        proof {
            assert forall|k: I| #[trigger] self@.windows.contains_key(k) implies {
                &&& self@.windows[k]@.well_formed()
                &&& covers(self@.position, self@.size, self@.windows[k]@)
            } by {
                if k != identifier {
                    assert(old(self)@.windows.contains_key(k));
                }
            }
        }
        r
    }

    /// Lays every window over the current buffer, lowest depth first.
    fn flatten_windows(&mut self)
        requires
            old(self).wf(),
        ensures
            final(self).wf(),
            final(self)@ == (EngineView { current: final(self)@.current, ..old(self)@ }),
            exists|ws: Seq<Window>|
                #[trigger] is_stacking(ws, old(self)@.windows) && final(self)@.current == composed(
                    old(self)@.current,
                    ws,
                    old(self)@.position,
                    old(self)@.size,
                ),
    {
        let windows = stacking_order(&self.windows);
        let ghost ws = windows@.unref();
        let ghost c0 = self@.current;
        proof {
            assert forall|i: int| 0 <= i < ws.len() implies #[trigger] ws[i]@.well_formed() && covers(
                self.position,
                self.size,
                ws[i]@,
            ) by {
                assert(ws.to_set().contains(ws[i]));
                assert(self@.windows.values().contains(ws[i]));
                let key = choose|key: I| #[trigger] self@.windows.contains_key(key) && self@.windows[key] == ws[i];
                assert(self@.windows.contains_key(key));
            }
            lemma_composed_empty(c0, self.position, self.size);
            assert(ws.take(0) =~= Seq::<Window>::empty());
        }
        let mut k: usize = 0;
        while k < windows.len()
            invariant
                k <= windows@.len(),
                ws == windows@.unref(),
                self.wf(),
                self@ == (EngineView { current: self@.current, ..old(self)@ }),
                c0 == old(self)@.current,
                old(self).wf(),
                has_dims(c0, self.size.0 as int, self.size.1 as int),
                forall|i: int| 0 <= i < ws.len() ==> #[trigger] ws[i]@.well_formed() && covers(
                    self.position,
                    self.size,
                    ws[i]@,
                ),
                self@.current == composed(c0, ws.take(k as int), self.position, self.size),
            decreases windows@.len() - k,
        {
            let w = copy_at(&windows, k);
            proof {
                assert(ws[k as int] == *w);
                assert(ws[k as int]@.well_formed() && covers(self.position, self.size, ws[k as int]@));
                lemma_composed_push(c0, ws.take(k as int), *w, self.position, self.size);
                assert(ws.take(k as int).push(*w) =~= ws.take(k + 1));
            }
            overlay_window(&mut self.current_buffer, self.position, self.size, w);
            proof {
                lemma_composed_dims(c0, ws.take(k + 1), self.position, self.size);
                assert(has_dims(self@.current, self.size.0 as int, self.size.1 as int));
                assert(has_dims(self@.display, self.size.0 as int, self.size.1 as int));
                assert(self@.windows == old(self)@.windows);
                assert forall|key: I| #[trigger] self@.windows.contains_key(key) implies {
                    &&& self@.windows[key]@.well_formed()
                    &&& covers(self@.position, self@.size, self@.windows[key]@)
                } by {
                    assert(old(self)@.windows.contains_key(key));
                }
            }
            k = k + 1;
        }
        proof {
            assert(ws.take(ws.len() as int) =~= ws);
        }
    }

    /// The cells of the current buffer that are not transparent and differ
    /// from the display, row by row, each row left to right.
    fn get_updated_positions(&self) -> (v: Vec<(usize, usize)>)
        requires
            self.wf(),
        ensures
            v@ == changes_upto(self@.current, self@.display, self.size.0 as int, self.size.1 as int),
    {
        let mut vec: Vec<(usize, usize)> = Vec::new();
        let mut y: usize = 0;
        while y < self.size.1
            invariant
                y <= self.size.1,
                self.wf(),
                vec@ == changes_upto(self@.current, self@.display, self.size.0 as int, y as int),
            decreases self.size.1 - y,
        {
            let mut x: usize = 0;
            while x < self.size.0
                invariant
                    x <= self.size.0,
                    y < self.size.1,
                    self.wf(),
                    vec@ == changes_upto(self@.current, self@.display, self.size.0 as int, y as int)
                        + changes_in_row(self@.current, self@.display, y as int, x as int),
                decreases self.size.0 - x,
            {
                proof {
                    assert(self@.current[x as int].len() == self.size.1);
                    assert(self@.display[x as int].len() == self.size.1);
                }
                let cur = cell_ref(&self.current_buffer, x, y);
                if cur.is_some() {
                    let disp = cell_ref(&self.display_buffer, x, y);
                    if cells_differ(cur, disp) {
                        vec.push((x, y));
                    }
                }
                proof {
                    let a = changes_upto(self@.current, self@.display, self.size.0 as int, y as int);
                    let b = changes_in_row(self@.current, self@.display, y as int, x as int);
                    let e = if changed(self@.current, self@.display, x as int, y as int) {
                        seq![(x, y)]
                    } else {
                        Seq::<(usize, usize)>::empty()
                    };
                    assert(a + (b + e) =~= (a + b) + e);
                }
                x = x + 1;
            }
            y = y + 1;
        }
        vec
    }

    /// Every position lies in the area and has a character in the current buffer.
    pub open spec fn printable(&self, ps: Seq<(usize, usize)>) -> bool {
        forall|i: int|
            0 <= i < ps.len() ==> {
                &&& #[trigger] ps[i].0 < self@.size.0
                &&& ps[i].1 < self@.size.1
                &&& self@.current[ps[i].0 as int][ps[i].1 as int] is Some
            }
    }

    /// The character of the current buffer at `pos`.
    fn get_current_char(&self, pos: (usize, usize)) -> (c: char)
        requires
            self.wf(),
            pos.0 < self@.size.0,
            pos.1 < self@.size.1,
            self@.current[pos.0 as int][pos.1 as int] is Some,
        ensures
            c == char_at_pos(self@.current, pos).char,
    {
        proof {
            assert(self@.current[pos.0 as int].len() == self.size.1);
        }
        cell_ref(&self.current_buffer, pos.0, pos.1).unwrap().char
    }

    /// The style of the current buffer at `pos`.
    fn get_current_style(&self, pos: (usize, usize)) -> (s: ContentStyle)
        requires
            self.wf(),
            pos.0 < self@.size.0,
            pos.1 < self@.size.1,
            self@.current[pos.0 as int][pos.1 as int] is Some,
        ensures
            s == char_at_pos(self@.current, pos).style,
    {
        proof {
            assert(self@.current[pos.0 as int].len() == self.size.1);
        }
        cell_ref(&self.current_buffer, pos.0, pos.1).unwrap().style
    }

    /// The print commands for the characters at `pos_vec`: consecutive
    /// characters of one row in one style go into one command.
    fn generate_print_commands(&self, pos_vec: &Vec<(usize, usize)>) -> (cmds: Vec<PrintCommand>)
        requires
            self.wf(),
            self.printable(pos_vec@),
        ensures
            runs_of(cmds@) == runs(self@.current, pos_vec@),
    {
        let ghost cur = self@.current;
        let ghost ps = pos_vec@;
        let mut cmd_vec: Vec<PrintCommand> = Vec::new();
        if pos_vec.len() == 0 {
            proof {
                assert(runs_of(cmd_vec@) =~= runs(cur, ps));
            }
            return cmd_vec;
        }
        let first = copy_at(pos_vec, 0);
        proof {
            assert(ps[0].0 < self@.size.0);
        }
        let mut cmd_str: Vec<char> = Vec::new();
        cmd_str.push(self.get_current_char(first));
        let mut cmd_pos = first;
        let mut cmd_style = self.get_current_style(first);
        proof {
            assert(ps.take(1).drop_last() =~= Seq::<(usize, usize)>::empty());
            assert(runs(cur, Seq::<(usize, usize)>::empty()) == Seq::<PrintRun>::empty());
            assert(ps.take(1)[0] == first);
            assert(cmd_str@ =~= seq![char_at_pos(cur, first).char]);
            assert(runs_of(cmd_vec@) =~= Seq::<PrintRun>::empty());
            assert(runs_of(cmd_vec@).push(PrintRun { position: cmd_pos, style: cmd_style, text: cmd_str@ })
                =~= runs(cur, ps.take(1)));
        }
        let mut i: usize = 1;
        while i < pos_vec.len()
            invariant
                1 <= i <= ps.len(),
                ps == pos_vec@,
                cur == self@.current,
                self.wf(),
                self.printable(ps),
                runs_of(cmd_vec@).push(PrintRun { position: cmd_pos, style: cmd_style, text: cmd_str@ })
                    == runs(cur, ps.take(i as int)),
            decreases ps.len() - i,
        {
            let prev = copy_at(pos_vec, i - 1);
            let p = copy_at(pos_vec, i);
            proof {
                assert(ps[i - 1].0 < self@.size.0);
                assert(ps[i as int].0 < self@.size.0);
                assert(ps.take(i + 1).drop_last() =~= ps.take(i as int));
                assert(ps.take(i + 1)[i as int] == ps[i as int]);
                assert(ps.take(i + 1)[i - 1] == ps[i - 1]);
            }
            let ghost old_cmds = runs_of(cmd_vec@);
            let ghost old_run = PrintRun { position: cmd_pos, style: cmd_style, text: cmd_str@ };
            if prev.0 + 1 != p.0 || p.1 != prev.1 || self.get_current_style(p) != self.get_current_style(prev) {
                // The run so far is a complete command.
                let mut text: Vec<char> = Vec::new();
                std::mem::swap(&mut text, &mut cmd_str);
                cmd_vec.push(PrintCommand { position: cmd_pos, style: cmd_style, text: text });
                cmd_str.push(self.get_current_char(p));
                cmd_pos = p;
                cmd_style = self.get_current_style(p);
                proof {
                    assert(runs_of(cmd_vec@) =~= old_cmds.push(old_run));
                }
            } else {
                cmd_str.push(self.get_current_char(p));
                proof {
                    assert(runs_of(cmd_vec@).push(PrintRun { position: cmd_pos, style: cmd_style, text: cmd_str@ })
                        =~= old_cmds.push(old_run).update(
                            old_cmds.len() as int,
                            PrintRun { position: old_run.position, style: old_run.style, text: old_run.text.push(char_at_pos(cur, ps[i as int]).char) },
                        ));
                }
            }
            i = i + 1;
        }
        // The last run is a command of its own.
        cmd_vec.push(PrintCommand { position: cmd_pos, style: cmd_style, text: cmd_str });
        proof {
            assert(ps.take(ps.len() as int) =~= ps);
            assert(runs_of(cmd_vec@) =~= runs(cur, ps));
        }
        cmd_vec
    }

    /// The terminal position of `pos`, a position relative to the engine's area.
    fn to_absolute_pos(&self, pos: (usize, usize)) -> (r: (u16, u16))
        requires
            pos.0 + self@.position.0 <= usize::MAX,
            pos.1 + self@.position.1 <= usize::MAX,
        ensures
            r == abs_pos(pos, self@.position),
    {
        ((pos.0 + self.position.0) as u16, (pos.1 + self.position.1) as u16)
    }

    /// The terminal operations that print `cmd_vec`: the cursor is moved to
    /// the first command, and after each command to the next one unless the
    /// next one starts where printing the first one left the cursor.
    fn queue_print_cmds(&self, cmd_vec: &Vec<PrintCommand>) -> (ops: Vec<TermOp>)
        requires
            self.wf(),
            forall|j: int|
                0 <= j < cmd_vec@.len() ==> #[trigger] cmd_vec@[j].position.0 < self@.size.0
                    && cmd_vec@[j].position.1 < self@.size.1,
        ensures
            ops@ == term_ops(runs_of(cmd_vec@), self@.position),
    {
        let ghost rs = runs_of(cmd_vec@);
        let mut ops: Vec<TermOp> = Vec::new();
        if cmd_vec.len() == 0 {
            return ops;
        }
        proof {
            assert(rs[0] == cmd_vec@[0]@);
            assert(cmd_vec@[0].position.0 < self@.size.0 && cmd_vec@[0].position.1 < self@.size.1);
        }
        let first = self.to_absolute_pos(cmd_vec[0].position);
        ops.push(TermOp::MoveTo(first.0, first.1));
        proof {
            assert(ops@ =~= ops_prefix(rs, self@.position, 0));
        }
        let mut i: usize = 0;
        while i < cmd_vec.len() - 1
            invariant
                cmd_vec@.len() >= 1,
                i <= cmd_vec@.len() - 1,
                rs == runs_of(cmd_vec@),
                self.wf(),
                forall|j: int|
                    0 <= j < cmd_vec@.len() ==> #[trigger] cmd_vec@[j].position.0 < self@.size.0
                        && cmd_vec@[j].position.1 < self@.size.1,
                ops@ == ops_prefix(rs, self@.position, i as int),
            decreases cmd_vec@.len() - 1 - i,
        {
            let p = cmd_vec[i].position;
            let len = cmd_vec[i].text.len();
            let q = cmd_vec[i + 1].position;
            proof {
                assert(rs[i as int] == cmd_vec@[i as int]@);
                assert(rs[i + 1] == cmd_vec@[i + 1]@);
                assert(p.0 < self@.size.0);
                assert(q.0 < self@.size.0);
            }
            ops.push(TermOp::Print(i));
            // The cursor stands right after the printed text; move it only
            // when the next command starts elsewhere.
            if !(q.1 == p.1 && q.0 >= p.0 && q.0 - p.0 == len) {
                let abs = self.to_absolute_pos(q);
                ops.push(TermOp::MoveTo(abs.0, abs.1));
            }
            proof {
                assert(ops@ =~= ops_prefix(rs, self@.position, i + 1));
            }
            i = i + 1;
        }
        ops.push(TermOp::Print(cmd_vec.len() - 1));
        ops
    }

    /// Builds the next frame: lays the windows over the current buffer lowest
    /// first, finds the cells that changed against the display, turns them
    /// into print commands and the terminal operations that place them,
    /// records the printed cells as displayed, and then clears the current
    /// buffer under every window that is to be cleared on render.
    pub fn render(&mut self) -> (f: RenderFrame)
        requires
            old(self).wf(),
        ensures
            final(self).wf(),
            exists|ws: Seq<Window>|
                #[trigger] is_stacking(ws, old(self)@.windows) && rendered(old(self)@, ws, final(self)@, f),
    {
        self.flatten_windows();
        let ghost mid = self@;
        let updated_chars = self.get_updated_positions();
        let ghost upd = updated_chars@;
        proof {
            lemma_changes_upto(self@.current, self@.display, self.size.0 as int, self.size.1 as int);
            assert forall|i: int| 0 <= i < upd.len() implies {
                &&& #[trigger] upd[i].0 < self@.size.0
                &&& upd[i].1 < self@.size.1
                &&& self@.current[upd[i].0 as int][upd[i].1 as int] is Some
            } by {
                assert(upd.contains(upd[i]));
            }
        }
        let cmds = self.generate_print_commands(&updated_chars);
        proof {
            lemma_runs_in_area(self@.current, upd, self.size.0 as int, self.size.1 as int);
            assert forall|j: int| 0 <= j < cmds@.len() implies #[trigger] cmds@[j].position.0 < self@.size.0
                && cmds@[j].position.1 < self@.size.1 by {
                let r = runs(self@.current, upd);
                assert(runs_of(cmds@)[j] == cmds@[j]@);
                assert(r[j] == cmds@[j]@);
                assert(r[j].position.0 < self@.size.0 && r[j].position.1 < self@.size.1);
            }
        }
        let ops = self.queue_print_cmds(&cmds);

        // Record what is now on the terminal.
        let ghost disp0 = self@.display;
        let ghost cur = self@.current;
        let mut i: usize = 0;
        while i < updated_chars.len()
            invariant
                i <= upd.len(),
                upd == updated_chars@,
                self.wf(),
                self@ == (EngineView { display: self@.display, ..mid }),
                cur == mid.current,
                disp0 == mid.display,
                mid.well_formed(),
                forall|k: int|
                    0 <= k < upd.len() ==> {
                        &&& #[trigger] upd[k].0 < self@.size.0
                        &&& upd[k].1 < self@.size.1
                    },
                forall|x: int, y: int|
                    0 <= x < self@.size.0 && 0 <= y < self@.size.1 ==> #[trigger] self@.display[x][y]
                        == if upd.take(i as int).contains(((x as usize), (y as usize))) {
                        cur[x][y]
                    } else {
                        disp0[x][y]
                    },
            decreases upd.len() - i,
        {
            let pos = copy_at(&updated_chars, i);
            proof {
                assert(pos.0 < self@.size.0);
                assert(self@.current[pos.0 as int].len() == self.size.1);
                assert(self@.display[pos.0 as int].len() == self.size.1);
            }
            let c = *cell_ref(&self.current_buffer, pos.0, pos.1);
            let ghost before_disp = self@.display;
            proof {
                lemma_update_keeps_dims(self@.display, self.size.0 as int, self.size.1 as int, pos.0 as int, pos.1 as int, c);
            }
            set_cell(&mut self.display_buffer, pos.0, pos.1, c);
            proof {
                assert(upd.take(i + 1) =~= upd.take(i as int).push(pos));
                assert forall|x: int, y: int|
                    0 <= x < self@.size.0 && 0 <= y < self@.size.1 implies #[trigger] self@.display[x][y]
                        == if upd.take(i + 1).contains(((x as usize), (y as usize))) {
                        cur[x][y]
                    } else {
                        disp0[x][y]
                    } by {
                    assert(before_disp[x].len() == self.size.1);
                    if x == pos.0 && y == pos.1 {
                        assert(upd.take(i + 1)[i as int] == pos);
                    } else {
                        assert(self@.display[x][y] == before_disp[x][y]);
                        let q = ((x as usize), (y as usize));
                        let t1 = upd.take(i + 1);
                        let t0 = upd.take(i as int);
                        if t1.contains(q) {
                            let j = choose|j: int| 0 <= j < t1.len() && #[trigger] t1[j] == q;
                            assert(j != i);
                            assert(t0[j] == q);
                        }
                        if t0.contains(q) {
                            let j = choose|j: int| 0 <= j < t0.len() && #[trigger] t0[j] == q;
                            assert(t1[j] == q);
                        }
                    }
                }
                assert forall|key: I| #[trigger] self@.windows.contains_key(key) implies {
                    &&& self@.windows[key]@.well_formed()
                    &&& covers(self@.position, self@.size, self@.windows[key]@)
                } by {
                    assert(mid.windows.contains_key(key));
                }
            }
            i = i + 1;
        }
        proof {
            assert(upd.take(upd.len() as int) =~= upd);
            let goal = synced(disp0, cur);
            assert forall|x: int| 0 <= x < self@.display.len() implies #[trigger] self@.display[x] == goal[x] by {
                assert(disp0[x].len() == self.size.1);
                assert forall|y: int| 0 <= y < self@.display[x].len() implies self@.display[x][y] == #[trigger] goal[x][y] by {
                    assert(upd.contains(((x as usize), (y as usize))) == changed(cur, disp0, x, y));
                }
                assert(self@.display[x] =~= goal[x]);
            }
            assert(self@.display =~= goal);
        }

        // Clear the current buffer under the windows that ask for it.
        clear_flagged(&mut self.current_buffer, self.position, self.size, &self.windows);
        proof {
            assert forall|key: I| #[trigger] self@.windows.contains_key(key) implies {
                &&& self@.windows[key]@.well_formed()
                &&& covers(self@.position, self@.size, self@.windows[key]@)
            } by {
                assert(mid.windows.contains_key(key));
            }
        }
        RenderFrame {
            commands: cmds,
            ops: ops,
            updated: updated_chars.len(),
            debug: self.debug,
            size: self.size,
            position: self.position,
        }
    }

    /// The window held under `identifier`, if any.
    pub fn get_window(&self, identifier: &I) -> (r: Option<&Window>)
        requires
            self.wf(),
        ensures
            r == (if self@.windows.contains_key(*identifier) {
                Some(&self@.windows[*identifier])
            } else {
                None
            }),
    {
        self.windows.get(identifier)
    }
}

} // verus!
