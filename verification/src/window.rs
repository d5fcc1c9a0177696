use vstd::prelude::*;
use crate::grid::{
    blank_grid, copy_at, grid_view, has_dims, lemma_update_keeps_dims, new_blank_grid,
    resize_columns, resize_outer, resized_grid, set_cell, Cell,
};
use crate::style::{ContentStyle, StyledChar};

verus! {

/// What a window is: where it sits on the screen, how deep it lies, its size,
/// whether it should be cleared on render, and its cells `cells[x][y]`
/// (`None` is transparent).
pub struct WindowView {
    pub position: (usize, usize),
    pub depth: usize,
    pub size: (usize, usize),
    pub clear_on_render: bool,
    pub cells: Seq<Seq<Cell>>,
}

impl WindowView {
    /// The cell grid has exactly `size.0` columns of `size.1` cells.
    pub open spec fn well_formed(self) -> bool {
        has_dims(self.cells, self.size.0 as int, self.size.1 as int)
    }

    /// The cell at window-relative `(x, y)`; `None` outside the window.
    pub open spec fn char_at(self, x: int, y: int) -> Cell {
        if 0 <= x < self.size.0 && 0 <= y < self.size.1 {
            self.cells[x][y]
        } else {
            None
        }
    }

    /// How many of `n` characters written rightwards from `pos` fall inside
    /// the window: none when `pos` lies outside it.
    pub open spec fn visible_count(self, pos: (usize, usize), n: int) -> int {
        if pos.0 < self.size.0 && pos.1 < self.size.1 {
            vstd::math::min(n, self.size.0 - pos.0)
        } else {
            0
        }
    }

    /// The cells after writing `text` in `style` rightwards from `pos`
    /// (`text` is taken to fit in the window).
    pub open spec fn drawn(self, pos: (usize, usize), text: Seq<char>, style: ContentStyle) -> Seq<
        Seq<Cell>,
    > {
        Seq::new(
            self.cells.len(),
            |x: int|
                if pos.0 <= x < pos.0 + text.len() {
                    self.cells[x].update(pos.1 as int, Some(StyledChar::styled(text[x - pos.0], style)))
                } else {
                    self.cells[x]
                },
        )
    }

    /// Drawing one more character changes one more cell.
    proof fn lemma_drawn_step(
        self,
        pos: (usize, usize),
        text: Seq<char>,
        i: int,
        style: ContentStyle,
    )
        requires
            self.well_formed(),
            0 <= i < text.len(),
            pos.0 + i < self.size.0,
            pos.1 < self.size.1,
        ensures
            ({
                let before = self.drawn(pos, text.take(i), style);
                self.drawn(pos, text.take(i + 1), style) == before.update(
                    pos.0 + i,
                    before[pos.0 + i].update(
                        pos.1 as int,
                        Some(StyledChar::styled(text[i], style)),
                    ),
                )
            }),
    {
        let before = self.drawn(pos, text.take(i), style);
        let after = self.drawn(pos, text.take(i + 1), style);
        let goal = before.update(
            pos.0 + i,
            before[pos.0 + i].update(pos.1 as int, Some(StyledChar::styled(text[i], style))),
        );
        assert forall|x: int| 0 <= x < after.len() implies #[trigger] after[x] == goal[x] by {
            assert(self.cells[x].len() == self.size.1);
            if pos.0 <= x < pos.0 + i {
                assert(text.take(i + 1)[x - pos.0] == text.take(i)[x - pos.0]);
            }
            if x == pos.0 + i {
                assert(after[x] =~= goal[x]);
            }
        }
        assert(after =~= goal);
    }

    /// Every cell of the window holds `c`.
    pub open spec fn filled(self, c: StyledChar) -> Seq<Seq<Cell>> {
        Seq::new(
            self.size.0 as nat,
            |x: int| Seq::new(self.size.1 as nat, |y: int| Some(c)),
        )
    }
}

/// A rectangular layer of styled characters placed on the screen.
pub struct Window {
    position: (usize, usize),
    depth: usize,
    size: (usize, usize),
    clear_buffer: bool,
    char_data: Vec<Vec<Cell>>,
}

impl View for Window {
    type V = WindowView;

    closed spec fn view(&self) -> WindowView {
        WindowView {
            position: self.position,
            depth: self.depth,
            size: self.size,
            clear_on_render: self.clear_buffer,
            cells: grid_view(&self.char_data),
        }
    }
}

/// The characters of a string, in order.
fn chars_of(item: &str) -> (chars: Vec<char>)
    ensures
        chars@ == item@,
{
    let mut chars: Vec<char> = Vec::new();
    for c in it: item.chars()
        invariant
            chars@ == it.seq().take(it.index() as int),
    {
        chars.push(c);
    }
    chars
}

impl Window {
    /// Creates a transparent window at `position` with the given depth and size.
    pub fn new(position: (usize, usize), depth: usize, size: (usize, usize)) -> (w: Window)
        ensures
            w@ == (WindowView {
                position,
                depth,
                size,
                clear_on_render: false,
                cells: blank_grid(size.0 as nat, size.1 as nat),
            }),
            w@.well_formed(),
    {
        let w = Window {
            position,
            depth,
            size,
            clear_buffer: false,
            char_data: new_blank_grid(size.0, size.1),
        };
        proof {
            assert(has_dims(w@.cells, size.0 as int, size.1 as int));
        }
        w
    }

    pub fn get_size(&self) -> (r: &(usize, usize))
        ensures
            *r == self@.size,
    {
        &self.size
    }

    /// Resizes the window; cells inside both the old and the new size keep
    /// their content, new cells are transparent.
    pub fn set_size(&mut self, size: (usize, usize))
        requires
            old(self)@.well_formed(),
        ensures
            final(self)@ == (WindowView {
                size,
                cells: resized_grid(old(self)@.cells, size.0 as nat, size.1 as nat),
                ..old(self)@
            }),
            final(self)@.well_formed(),
    {
        // Columns are indexed by x and hold the cells of one x, so the
        // columns are resized to the new height first, then their number
        // to the new width.
        let old_width = self.size.0;
        resize_columns(&mut self.char_data, old_width, size.1);
        resize_outer(&mut self.char_data, size.0, size.1);
        self.size = size;
        proof {
            let old_cells = old(self)@.cells;
            let mid = resized_grid(old_cells, size.0 as nat, size.1 as nat);
            assert forall|x: int| 0 <= x < size.0 implies #[trigger] self@.cells[x] == mid[x] by {
                if x < old_cells.len() {
                    assert(self@.cells[x] =~= mid[x]);
                }
            }
            assert(self@.cells =~= mid);
        }
    }

    pub fn get_depth(&self) -> (r: &usize)
        ensures
            *r == self@.depth,
    {
        &self.depth
    }

    pub fn set_depth(&mut self, depth: usize)
        ensures
            final(self)@ == (WindowView { depth, ..old(self)@ }),
    {
        self.depth = depth
    }

    pub fn get_position(&self) -> (r: &(usize, usize))
        ensures
            *r == self@.position,
    {
        &self.position
    }

    pub fn set_position(&mut self, pos: (usize, usize))
        ensures
            final(self)@ == (WindowView { position: pos, ..old(self)@ }),
    {
        self.position = pos
    }

    /// Whether each render, once it has recorded what it printed, clears the
    /// engine's current buffer under this window (its cells there become
    /// `None`). It does not change what a render prints for the same current
    /// buffer.
    pub fn set_clear_on_render(&mut self, clear: bool)
        ensures
            final(self)@ == (WindowView { clear_on_render: clear, ..old(self)@ }),
    {
        self.clear_buffer = clear;
    }

    /// Whether a render clears the current buffer under this window.
    pub(crate) fn clears_on_render(&self) -> (r: bool)
        ensures
            r == self@.clear_on_render,
    {
        self.clear_buffer
    }

    /// The cell at window-relative `pos`; `None` when `pos` lies outside the window.
    pub fn get_char(&self, pos: &(usize, usize)) -> (r: &Cell)
        requires
            self@.well_formed(),
        ensures
            *r == self@.char_at(pos.0 as int, pos.1 as int),
    {
        if pos.0 >= self.size.0 || pos.1 >= self.size.1 {
            return &None;
        }
        &self.char_data[pos.0][pos.1]
    }

    /// Overwrites one cell of the window.
    fn set_cell_at(&mut self, x: usize, y: usize, v: Cell)
        requires
            old(self)@.well_formed(),
            x < old(self)@.size.0,
            y < old(self)@.size.1,
        ensures
            final(self)@ == (WindowView {
                cells: old(self)@.cells.update(x as int, old(self)@.cells[x as int].update(y as int, v)),
                ..old(self)@
            }),
            final(self)@.well_formed(),
    {
        proof {
            lemma_update_keeps_dims(
                self@.cells,
                self.size.0 as int,
                self.size.1 as int,
                x as int,
                y as int,
                v,
            );
        }
        set_cell(&mut self.char_data, x, y, v);
    }

    /// Writes the characters of `item` in `style` rightwards from `pos`; the
    /// characters that would fall outside the window are ignored.
    pub fn draw_styled(&mut self, pos: (usize, usize), item: &str, style: ContentStyle)
        requires
            old(self)@.well_formed(),
        ensures
            final(self)@ == (WindowView {
                cells: old(self)@.drawn(
                    pos,
                    item@.take(old(self)@.visible_count(pos, item@.len() as int)),
                    style,
                ),
                ..old(self)@
            }),
            final(self)@.well_formed(),
    {
        if pos.1 >= self.size.1 {
            proof {
                assert(old(self)@.drawn(pos, item@.take(0), style) =~= old(self)@.cells);
            }
            return;
        }
        let ghost text = item@;
        let ghost n: int = self@.visible_count(pos, text.len() as int);
        let chars = chars_of(item);
        assert(chars@ == text);
        let mut i: usize = 0;
        while i < chars.len() && pos.0 + i < self.size.0
            invariant
                i <= text.len(),
                chars@ == text,
                n == old(self)@.visible_count(pos, text.len() as int),
                i == 0 || pos.0 + i <= self.size.0,
                old(self)@.well_formed(),
                self@.well_formed(),
                self@ == (WindowView { cells: self@.cells, ..old(self)@ }),
                self@.cells == old(self)@.drawn(pos, text.take(i as int), style),
                pos.1 < self.size.1,
            decreases text.len() - i,
        {
            let cell = Some(StyledChar { char: copy_at(&chars, i), style: style });
            proof {
                old(self)@.lemma_drawn_step(pos, text, i as int, style);
            }
            self.set_cell_at(pos.0 + i, pos.1, cell);
            i = i + 1;
        }
        proof {
            assert(i == n);
        }
    }

    /// Fills every cell of the window with `fill_char`.
    pub fn fill(&mut self, fill_char: StyledChar)
        requires
            old(self)@.well_formed(),
        ensures
            final(self)@ == (WindowView { cells: old(self)@.filled(fill_char), ..old(self)@ }),
            final(self)@.well_formed(),
    {
        let mut x: usize = 0;
        while x < self.size.0
            invariant
                x <= self.size.0,
                self@ == (WindowView { cells: self@.cells, ..old(self)@ }),
                self@.well_formed(),
                forall|k: int|
                    0 <= k < self.size.0 ==> #[trigger] self@.cells[k] == if k < x {
                        old(self)@.filled(fill_char)[k]
                    } else {
                        old(self)@.cells[k]
                    },
            decreases self.size.0 - x,
        {
            let mut y: usize = 0;
            while y < self.size.1
                invariant
                    x < self.size.0,
                    y <= self.size.1,
                    self@ == (WindowView { cells: self@.cells, ..old(self)@ }),
                    self@.well_formed(),
                    forall|k: int|
                        0 <= k < self.size.0 && k != x ==> #[trigger] self@.cells[k] == if k < x {
                            old(self)@.filled(fill_char)[k]
                        } else {
                            old(self)@.cells[k]
                        },
                    forall|j: int|
                        0 <= j < self.size.1 ==> #[trigger] self@.cells[x as int][j] == if j < y {
                            Some(fill_char)
                        } else {
                            old(self)@.cells[x as int][j]
                        },
                decreases self.size.1 - y,
            {
                proof {
                    lemma_update_keeps_dims(
                        self@.cells,
                        self.size.0 as int,
                        self.size.1 as int,
                        x as int,
                        y as int,
                        Some(fill_char),
                    );
                }
                set_cell(&mut self.char_data, x, y, Some(fill_char));
                y = y + 1;
            }
            proof {
                assert(self@.cells[x as int] =~= old(self)@.filled(fill_char)[x as int]);
            }
            x = x + 1;
        }
        proof {
            assert(self@.cells =~= old(self)@.filled(fill_char));
        }
    }
}

} // verus!
