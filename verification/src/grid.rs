use vstd::prelude::*;
use crate::style::StyledChar;

verus! {

/// A cell of a grid: a styled character, or `None` (transparent / unknown).
pub type Cell = Option<StyledChar>;

/// The mathematical content of a grid stored as columns: `g[x][y]`.
pub open spec fn grid_view(g: &Vec<Vec<Cell>>) -> Seq<Seq<Cell>> {
    g@.map_values(|c: Vec<Cell>| c@)
}

/// A `w` by `h` grid whose cells are all `None`.
pub open spec fn blank_grid(w: nat, h: nat) -> Seq<Seq<Cell>> {
    Seq::new(w, |x: int| blank_column(h))
}

/// A column of `h` cells that are all `None`.
pub open spec fn blank_column(h: nat) -> Seq<Cell> {
    Seq::new(h, |y: int| None::<StyledChar>)
}

/// The grid has `w` columns, each of `h` cells.
pub open spec fn has_dims(g: Seq<Seq<Cell>>, w: int, h: int) -> bool {
    &&& g.len() == w
    &&& forall|x: int| 0 <= x < g.len() ==> #[trigger] g[x].len() == h
}

/// A copy of the `i`-th element of a vector.
pub(crate) fn copy_at<T: Copy>(v: &Vec<T>, i: usize) -> (r: T)
    requires
        i < v@.len(),
    ensures
        r == v@[i as int],
{
    v[i]
}

/// The cell at `(x, y)` of a grid.
pub(crate) fn cell_ref(g: &Vec<Vec<Cell>>, x: usize, y: usize) -> (r: &Cell)
    requires
        x < grid_view(g).len(),
        y < grid_view(g)[x as int].len(),
    ensures
        *r == grid_view(g)[x as int][y as int],
{
    &g[x][y]
}

/// Whether two cells differ.
pub(crate) fn cells_differ(a: &Cell, b: &Cell) -> (r: bool)
    ensures
        r == (*a != *b),
{
    *a != *b
}

/// Builds a column of `h` empty cells.
pub(crate) fn new_blank_column(h: usize) -> (col: Vec<Cell>)
    ensures
        col@ == blank_column(h as nat),
{
    let mut col: Vec<Cell> = Vec::new();
    let mut i: usize = 0;
    while i < h
        invariant
            i <= h,
            col@ == blank_column(i as nat),
        decreases h - i,
    {
        col.push(None);
        i = i + 1;
    }
    col
}

/// Builds a `w` by `h` grid of empty cells.
pub(crate) fn new_blank_grid(w: usize, h: usize) -> (g: Vec<Vec<Cell>>)
    ensures
        grid_view(&g) == blank_grid(w as nat, h as nat),
{
    let mut g: Vec<Vec<Cell>> = Vec::new();
    let mut i: usize = 0;
    while i < w
        invariant
            i <= w,
            g@.len() == i,
            grid_view(&g) == blank_grid(i as nat, h as nat),
        decreases w - i,
    {
        let ghost old_view = grid_view(&g);
        let ghost old_g = g@;
        let col = new_blank_column(h);
        g.push(col);
        proof {
            assert forall|k: int| 0 <= k < i + 1 implies #[trigger] grid_view(&g)[k] == blank_grid(
                (i + 1) as nat,
                h as nat,
            )[k] by {
                assert(grid_view(&g)[k] == g@[k]@);
                if k < i {
                    assert(g@[k] == old_g[k]);
                    assert(old_view[k] == old_g[k]@);
                }
            }
            assert(grid_view(&g) =~= blank_grid((i + 1) as nat, h as nat));
        }
        i = i + 1;
    }
    g
}

/// Overwriting one cell keeps the dimensions of a grid.
pub(crate) proof fn lemma_update_keeps_dims(g: Seq<Seq<Cell>>, w: int, h: int, x: int, y: int, v: Cell)
    requires
        has_dims(g, w, h),
        0 <= x < w,
        0 <= y < h,
    ensures
        has_dims(g.update(x, g[x].update(y, v)), w, h),
{
    let g2 = g.update(x, g[x].update(y, v));
    assert forall|k: int| 0 <= k < g2.len() implies #[trigger] g2[k].len() == h by {
        if k != x {
            assert(g2[k] == g[k]);
        }
    }
}

/// Overwrites cell `(x, y)` of a grid.
pub(crate) fn set_cell(g: &mut Vec<Vec<Cell>>, x: usize, y: usize, v: Cell)
    requires
        x < grid_view(old(g)).len(),
        y < grid_view(old(g))[x as int].len(),
    ensures
        grid_view(final(g)) == grid_view(old(g)).update(
            x as int,
            grid_view(old(g))[x as int].update(y as int, v),
        ),
{
    assert(grid_view(g)[x as int] == g@[x as int]@);
    let mut col: Vec<Cell> = Vec::new();
    std::mem::swap(&mut col, &mut g[x]);
    col.set(y, v);
    std::mem::swap(&mut col, &mut g[x]);
    proof {
        assert(grid_view(g) =~= grid_view(old(g)).update(
            x as int,
            grid_view(old(g))[x as int].update(y as int, v),
        ));
    }
}

/// A column cut or padded with `None` to `h` cells.
pub open spec fn resized_column(col: Seq<Cell>, h: nat) -> Seq<Cell> {
    Seq::new(h, |y: int| if y < col.len() { col[y] } else { None::<StyledChar> })
}

/// A grid cut or padded to `w` columns of `h` cells; what was there stays.
pub open spec fn resized_grid(g: Seq<Seq<Cell>>, w: nat, h: nat) -> Seq<Seq<Cell>> {
    Seq::new(
        w,
        |x: int| if x < g.len() { resized_column(g[x], h) } else { blank_column(h) },
    )
}

/// Cuts a column, or pads it with `None`, to `h` cells.
pub(crate) fn resize_column(col: &mut Vec<Cell>, h: usize)
    ensures
        final(col)@ == resized_column(old(col)@, h as nat),
{
    if h <= col.len() {
        col.truncate(h);
        proof {
            assert(col@ =~= resized_column(old(col)@, h as nat));
        }
    } else {
        while col.len() < h
            invariant
                old(col)@.len() <= col@.len() <= h,
                col@ =~= resized_column(old(col)@, col@.len()),
            decreases h - col@.len(),
        {
            col.push(None);
            proof {
                assert(col@ =~= resized_column(old(col)@, col@.len()));
            }
        }
    }
}

/// Cuts each of the first `n` columns, or pads it with `None`, to `h` cells.
pub(crate) fn resize_columns(g: &mut Vec<Vec<Cell>>, n: usize, h: usize)
    requires
        n <= old(g)@.len(),
    ensures
        final(g)@.len() == old(g)@.len(),
        forall|x: int|
            0 <= x < old(g)@.len() ==> #[trigger] grid_view(final(g))[x] == if x < n {
                resized_column(grid_view(old(g))[x], h as nat)
            } else {
                grid_view(old(g))[x]
            },
{
    let mut x: usize = 0;
    while x < n
        invariant
            x <= n <= g@.len(),
            g@.len() == old(g)@.len(),
            forall|k: int|
                0 <= k < old(g)@.len() ==> #[trigger] grid_view(g)[k] == if k < x {
                    resized_column(grid_view(old(g))[k], h as nat)
                } else {
                    grid_view(old(g))[k]
                },
        decreases n - x,
    {
        let ghost before = grid_view(g);
        let ghost before_raw = g@;
        let mut col: Vec<Cell> = Vec::new();
        std::mem::swap(&mut col, &mut g[x]);
        resize_column(&mut col, h);
        std::mem::swap(&mut col, &mut g[x]);
        proof {
            assert forall|k: int| 0 <= k < old(g)@.len() implies #[trigger] grid_view(g)[k] == if k
                < x + 1 {
                resized_column(grid_view(old(g))[k], h as nat)
            } else {
                grid_view(old(g))[k]
            } by {
                assert(grid_view(g)[k] == g@[k]@);
                assert(before[k] == before_raw[k]@);
                if k != x {
                    assert(g@[k] == before_raw[k]);
                } else {
                    assert(g@[k]@ == resized_column(before_raw[k]@, h as nat));
                }
            }
        }
        x = x + 1;
    }
}

/// Cuts the grid, or pads it with columns of `h` empty cells, to `w` columns.
pub(crate) fn resize_outer(g: &mut Vec<Vec<Cell>>, w: usize, h: usize)
    ensures
        final(g)@.len() == w,
        forall|x: int|
            0 <= x < w ==> #[trigger] grid_view(final(g))[x] == if x < old(g)@.len() {
                grid_view(old(g))[x]
            } else {
                blank_column(h as nat)
            },
{
    if w <= g.len() {
        g.truncate(w);
    } else {
        while g.len() < w
            invariant
                old(g)@.len() <= g@.len() <= w,
                forall|x: int|
                    0 <= x < g@.len() ==> #[trigger] grid_view(g)[x] == if x < old(g)@.len() {
                        grid_view(old(g))[x]
                    } else {
                        blank_column(h as nat)
                    },
            decreases w - g@.len(),
        {
            let ghost before = g@;
            let ghost before_view = grid_view(g);
            let col = new_blank_column(h);
            g.push(col);
            proof {
                assert forall|x: int| 0 <= x < g@.len() implies #[trigger] grid_view(g)[x] == if x
                    < old(g)@.len() {
                    grid_view(old(g))[x]
                } else {
                    blank_column(h as nat)
                } by {
                    assert(grid_view(g)[x] == g@[x]@);
                    if x < before.len() {
                        assert(g@[x] == before[x]);
                        assert(before_view[x] == before[x]@);
                    }
                }
            }
        }
    }
}

/// Puts `n` columns of `h` empty cells in front of the grid.
pub(crate) fn prepend_blank_columns(g: &mut Vec<Vec<Cell>>, n: usize, h: usize)
    ensures
        grid_view(final(g)) == blank_grid(n as nat, h as nat) + grid_view(old(g)),
{
    let mut i: usize = 0;
    while i < n
        invariant
            i <= n,
            grid_view(g) == blank_grid(i as nat, h as nat) + grid_view(old(g)),
        decreases n - i,
    {
        let ghost before = g@;
        let ghost before_view = grid_view(g);
        let col = new_blank_column(h);
        g.insert(0, col);
        proof {
            let goal = blank_grid((i + 1) as nat, h as nat) + grid_view(old(g));
            assert(blank_grid((i + 1) as nat, h as nat).len() == i + 1);
            assert(blank_grid(i as nat, h as nat).len() == i);
            assert(g@.len() == before.len() + 1);
            assert(before_view.len() == before.len());
            assert(before_view.len() == i + grid_view(old(g)).len());
            assert(grid_view(g).len() == g@.len());
            assert(goal.len() == g@.len());
            assert forall|x: int| 0 <= x < g@.len() implies #[trigger] grid_view(g)[x] == goal[x] by {
                assert(grid_view(g)[x] == g@[x]@);
                if x > 0 {
                    assert(g@[x] == before[x - 1]);
                    assert(before_view[x - 1] == before[x - 1]@);
                    if x <= i {
                        assert(goal[x] == blank_column(h as nat));
                        assert(before_view[x - 1] == blank_column(h as nat));
                    } else {
                        assert(goal[x] == grid_view(old(g))[x - i - 1]);
                        assert(before_view[x - 1] == grid_view(old(g))[x - 1 - i]);
                    }
                } else {
                    assert(goal[x] == blank_column(h as nat));
                }
            }
            assert(grid_view(g) =~= goal);
        }
        i = i + 1;
    }
}

/// Puts `n` empty cells at the top of every column.
pub(crate) fn prepend_blank_cells(g: &mut Vec<Vec<Cell>>, n: usize)
    ensures
        final(g)@.len() == old(g)@.len(),
        forall|x: int|
            0 <= x < old(g)@.len() ==> #[trigger] grid_view(final(g))[x] == blank_column(n as nat)
                + grid_view(old(g))[x],
{
    let mut x: usize = 0;
    while x < g.len()
        invariant
            x <= g@.len(),
            g@.len() == old(g)@.len(),
            forall|k: int|
                0 <= k < old(g)@.len() ==> #[trigger] grid_view(g)[k] == if k < x {
                    blank_column(n as nat) + grid_view(old(g))[k]
                } else {
                    grid_view(old(g))[k]
                },
        decreases g@.len() - x,
    {
        let ghost before = grid_view(g);
        let ghost before_raw = g@;
        let mut col: Vec<Cell> = Vec::new();
        std::mem::swap(&mut col, &mut g[x]);
        let mut i: usize = 0;
        while i < n
            invariant
                i <= n,
                col@ == blank_column(i as nat) + before_raw[x as int]@,
            decreases n - i,
        {
            col.insert(0, None);
            proof {
                assert(col@ =~= blank_column((i + 1) as nat) + before_raw[x as int]@);
            }
            i = i + 1;
        }
        std::mem::swap(&mut col, &mut g[x]);
        proof {
            assert forall|k: int| 0 <= k < old(g)@.len() implies #[trigger] grid_view(g)[k] == if k
                < x + 1 {
                blank_column(n as nat) + grid_view(old(g))[k]
            } else {
                grid_view(old(g))[k]
            } by {
                assert(grid_view(g)[k] == g@[k]@);
                assert(before[k] == before_raw[k]@);
                if k != x {
                    assert(g@[k] == before_raw[k]);
                }
            }
        }
        x = x + 1;
    }
}

} // verus!
