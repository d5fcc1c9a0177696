use vstd::prelude::*;
use crate::grid::Cell;
use crate::style::{ContentStyle, StyledChar};

verus! {

/// Cell `(x, y)` has to be printed: something is drawn there and it differs
/// from what the terminal shows.
pub open spec fn changed(cur: Seq<Seq<Cell>>, disp: Seq<Seq<Cell>>, x: int, y: int) -> bool {
    cur[x][y] is Some && cur[x][y] != disp[x][y]
}

/// The changed cells of row `y` among its first `w` cells, left to right.
pub open spec fn changes_in_row(cur: Seq<Seq<Cell>>, disp: Seq<Seq<Cell>>, y: int, w: int) -> Seq<
    (usize, usize),
>
    decreases w,
{
    if w <= 0 {
        Seq::empty()
    } else {
        changes_in_row(cur, disp, y, w - 1) + if changed(cur, disp, w - 1, y) {
            seq![((w - 1) as usize, y as usize)]
        } else {
            Seq::empty()
        }
    }
}

/// The changed cells of the first `h` rows of a `w`-wide area, row by row,
/// each row left to right.
pub open spec fn changes_upto(cur: Seq<Seq<Cell>>, disp: Seq<Seq<Cell>>, w: int, h: int) -> Seq<
    (usize, usize),
>
    decreases h,
{
    if h <= 0 {
        Seq::empty()
    } else {
        changes_upto(cur, disp, w, h - 1) + changes_in_row(cur, disp, h - 1, w)
    }
}

/// What a print command prints: `text` in `style`, starting at `position`
/// (relative to the engine's area) and going right.
pub struct PrintRun {
    pub position: (usize, usize),
    pub style: ContentStyle,
    pub text: Seq<char>,
}

/// A command to print `text` in `style` from `position` rightwards.
pub struct PrintCommand {
    pub position: (usize, usize),
    pub style: ContentStyle,
    pub text: Vec<char>,
}

impl View for PrintCommand {
    type V = PrintRun;

    open spec fn view(&self) -> PrintRun {
        PrintRun { position: self.position, style: self.style, text: self.text@ }
    }
}

/// The views of a list of commands.
pub open spec fn runs_of(cmds: Seq<PrintCommand>) -> Seq<PrintRun> {
    cmds.map_values(|c: PrintCommand| c@)
}

/// The styled character of the current buffer at `p`.
pub open spec fn char_at_pos(cur: Seq<Seq<Cell>>, p: (usize, usize)) -> StyledChar {
    cur[p.0 as int][p.1 as int].unwrap()
}

/// The `i`-th position directly follows the one before it on the same row,
/// and its character has the same style: both go into one command.
pub open spec fn continues(cur: Seq<Seq<Cell>>, ps: Seq<(usize, usize)>, i: int) -> bool {
    &&& ps[i - 1].0 + 1 == ps[i].0
    &&& ps[i].1 == ps[i - 1].1
    &&& char_at_pos(cur, ps[i]).style == char_at_pos(cur, ps[i - 1]).style
}

/// The print commands for the cells at positions `ps`: consecutive cells of
/// one row in one style are printed by one command, in the order of `ps`.
pub open spec fn runs(cur: Seq<Seq<Cell>>, ps: Seq<(usize, usize)>) -> Seq<PrintRun>
    decreases ps.len(),
{
    if ps.len() == 0 {
        Seq::empty()
    } else {
        let prev = runs(cur, ps.drop_last());
        let i = ps.len() - 1;
        let c = char_at_pos(cur, ps[i]);
        if i > 0 && continues(cur, ps, i) {
            let last = prev.last();
            prev.update(
                prev.len() - 1,
                PrintRun { position: last.position, style: last.style, text: last.text.push(c.char) },
            )
        } else {
            prev.push(PrintRun { position: ps[i], style: c.style, text: seq![c.char] })
        }
    }
}

/// There is a command exactly when there is a position to print.
pub proof fn lemma_runs_len(cur: Seq<Seq<Cell>>, ps: Seq<(usize, usize)>)
    ensures
        (runs(cur, ps).len() == 0) == (ps.len() == 0),
        runs(cur, ps).len() <= ps.len(),
    decreases ps.len(),
{
    if ps.len() > 0 {
        lemma_runs_len(cur, ps.drop_last());
    }
}

/// Every command starts in the `w` by `h` area when every position lies in it.
pub proof fn lemma_runs_in_area(cur: Seq<Seq<Cell>>, ps: Seq<(usize, usize)>, w: int, h: int)
    requires
        forall|i: int| 0 <= i < ps.len() ==> #[trigger] ps[i].0 < w && ps[i].1 < h,
    ensures
        forall|j: int|
            0 <= j < runs(cur, ps).len() ==> #[trigger] runs(cur, ps)[j].position.0 < w
                && runs(cur, ps)[j].position.1 < h,
    decreases ps.len(),
{
    if ps.len() > 0 {
        let q = ps.drop_last();
        assert forall|i: int| 0 <= i < q.len() implies #[trigger] q[i].0 < w && q[i].1 < h by {
            assert(q[i] == ps[i]);
        }
        lemma_runs_in_area(cur, q, w, h);
        lemma_runs_len(cur, q);
        assert(ps[ps.len() - 1].0 < w);
    }
}

/// An operation on the terminal: move the cursor to a column and row, or
/// print the command with the given index.
#[derive(Clone, Copy, Debug, PartialEq, Eq, Structural)]
pub enum TermOp {
    MoveTo(u16, u16),
    Print(usize),
}

/// The terminal position of `p`, relative to the area at `origin`, as the
/// cursor takes it (cut to 16 bits).
pub open spec fn abs_pos(p: (usize, usize), origin: (usize, usize)) -> (u16, u16) {
    ((p.0 + origin.0) as u16, (p.1 + origin.1) as u16)
}

/// Whether no cursor move is needed between commands `i` and `i + 1`: the
/// next one starts on the same row, in the column where printing the first
/// one leaves the cursor.
pub open spec fn skips_move(rs: Seq<PrintRun>, i: int) -> bool {
    &&& rs[i + 1].position.1 == rs[i].position.1
    &&& rs[i + 1].position.0 == rs[i].position.0 + rs[i].text.len()
}

/// The operation that moves the cursor to the start of command `i`.
pub open spec fn move_to_start(rs: Seq<PrintRun>, origin: (usize, usize), i: int) -> TermOp {
    TermOp::MoveTo(abs_pos(rs[i].position, origin).0, abs_pos(rs[i].position, origin).1)
}

/// The operations that bring the cursor to the first command and then, for
/// each of the first `k` commands, print it and bring the cursor to the next.
pub open spec fn ops_prefix(rs: Seq<PrintRun>, origin: (usize, usize), k: int) -> Seq<TermOp>
    decreases k,
{
    if k <= 0 {
        seq![move_to_start(rs, origin, 0)]
    } else {
        ops_prefix(rs, origin, k - 1) + seq![TermOp::Print((k - 1) as usize)] + if skips_move(
            rs,
            k - 1,
        ) {
            Seq::empty()
        } else {
            seq![move_to_start(rs, origin, k)]
        }
    }
}

/// The terminal operations that print the commands `rs`, in order.
pub open spec fn term_ops(rs: Seq<PrintRun>, origin: (usize, usize)) -> Seq<TermOp> {
    if rs.len() == 0 {
        Seq::empty()
    } else {
        ops_prefix(rs, origin, rs.len() - 1).push(TermOp::Print((rs.len() - 1) as usize))
    }
}

/// Where the cursor stands after the operations `ops`, starting from
/// `start`: a move sets it, and printing a command advances it by the
/// command's length.
pub open spec fn cursor_after(ops: Seq<TermOp>, rs: Seq<PrintRun>, start: (int, int)) -> (int, int)
    decreases ops.len(),
{
    if ops.len() == 0 {
        start
    } else {
        let before = cursor_after(ops.drop_last(), rs, start);
        match ops.last() {
            TermOp::MoveTo(c, r) => (c as int, r as int),
            TermOp::Print(i) => (before.0 + rs[i as int].text.len(), before.1),
        }
    }
}

/// Every print in `ops` happens with the cursor at the start of its command.
pub open spec fn prints_at_starts(
    ops: Seq<TermOp>,
    rs: Seq<PrintRun>,
    origin: (usize, usize),
    start: (int, int),
) -> bool {
    forall|j: int|
        0 <= j < ops.len() ==> match #[trigger] ops[j] {
            TermOp::Print(i) => 0 <= i < rs.len() && cursor_after(ops.take(j), rs, start) == (
                abs_pos(rs[i as int].position, origin).0 as int,
                abs_pos(rs[i as int].position, origin).1 as int,
            ),
            TermOp::MoveTo(_, _) => true,
        }
}

/// Everything a render hands to the terminal side: the print commands, the
/// cursor and print operations that place them, how many cells changed, and
/// what the debug overlay shows.
pub struct RenderFrame {
    pub commands: Vec<PrintCommand>,
    pub ops: Vec<TermOp>,
    pub updated: usize,
    pub debug: bool,
    pub size: (usize, usize),
    pub position: (usize, usize),
}

/// The cells a command prints, left to right: one per character of its
/// text, from its position rightwards along its row.
pub open spec fn run_cells(r: PrintRun) -> Seq<(usize, usize)> {
    Seq::new(r.text.len(), |k: int| ((r.position.0 + k) as usize, r.position.1))
}

/// The cells the commands print, command after command.
pub open spec fn cells_of(rs: Seq<PrintRun>) -> Seq<(usize, usize)>
    decreases rs.len(),
{
    if rs.len() == 0 {
        Seq::empty()
    } else {
        cells_of(rs.drop_last()) + run_cells(rs.last())
    }
}

/// The texts of the commands, one after the other.
pub open spec fn concat_texts(rs: Seq<PrintRun>) -> Seq<char>
    decreases rs.len(),
{
    if rs.len() == 0 {
        Seq::empty()
    } else {
        concat_texts(rs.drop_last()) + rs.last().text
    }
}

/// The indices of the commands that the operations print, in order.
pub open spec fn printed(ops: Seq<TermOp>) -> Seq<usize>
    decreases ops.len(),
{
    if ops.len() == 0 {
        Seq::empty()
    } else {
        printed(ops.drop_last()) + match ops.last() {
            TermOp::Print(i) => seq![i],
            TermOp::MoveTo(_, _) => Seq::empty(),
        }
    }
}

/// `p` comes before `q` in row-major order.
pub open spec fn before(p: (usize, usize), q: (usize, usize)) -> bool {
    p.1 < q.1 || (p.1 == q.1 && p.0 < q.0)
}

/// The list is in strictly increasing row-major order.
pub open spec fn row_major_sorted(ps: Seq<(usize, usize)>) -> bool {
    forall|i: int, j: int| 0 <= i < j < ps.len() ==> before(#[trigger] ps[i], #[trigger] ps[j])
}

/// The changed cells of row `y` among its first `w` cells are exactly the
/// changed cells `(x, y)` with `x < w`, left to right.
pub proof fn lemma_changes_in_row(cur: Seq<Seq<Cell>>, disp: Seq<Seq<Cell>>, y: int, w: int)
    requires
        0 <= y <= usize::MAX,
        0 <= w <= usize::MAX + 1,
    ensures
        forall|p: (usize, usize)|
            #[trigger] changes_in_row(cur, disp, y, w).contains(p) <==> (p.1 == y && p.0 < w
                && changed(cur, disp, p.0 as int, p.1 as int)),
        row_major_sorted(changes_in_row(cur, disp, y, w)),
    decreases w,
{
    if w > 0 {
        lemma_changes_in_row(cur, disp, y, w - 1);
        let a = changes_in_row(cur, disp, y, w - 1);
        let e = if changed(cur, disp, w - 1, y) {
            seq![((w - 1) as usize, y as usize)]
        } else {
            Seq::<(usize, usize)>::empty()
        };
        let r = a + e;
        assert(changes_in_row(cur, disp, y, w) == r);
        assert forall|p: (usize, usize)| #[trigger] r.contains(p) <==> (p.1 == y && p.0 < w
            && changed(cur, disp, p.0 as int, p.1 as int)) by {
            if r.contains(p) {
                let i = choose|i: int| 0 <= i < r.len() && r[i] == p;
                if i < a.len() {
                    assert(a.contains(a[i]));
                }
            }
            if p.1 == y && p.0 < w && changed(cur, disp, p.0 as int, p.1 as int) {
                if p.0 < w - 1 {
                    assert(a.contains(p));
                    let i = choose|i: int| 0 <= i < a.len() && a[i] == p;
                    assert(r[i] == p);
                } else {
                    assert(r[a.len() as int] == p);
                }
            }
        }
        assert forall|i: int, j: int| 0 <= i < j < r.len() implies before(#[trigger] r[i], #[trigger] r[j]) by {
            if j < a.len() {
                assert(r[i] == a[i] && r[j] == a[j]);
            } else {
                assert(r[i] == a[i]);
                assert(a.contains(a[i]));
            }
        }
    }
}

/// The changed cells of the first `h` rows of a `w`-wide area are exactly the
/// changed cells of that part of the area, in row-major order.
pub proof fn lemma_changes_upto(cur: Seq<Seq<Cell>>, disp: Seq<Seq<Cell>>, w: int, h: int)
    requires
        0 <= w <= usize::MAX + 1,
        0 <= h <= usize::MAX + 1,
    ensures
        forall|p: (usize, usize)|
            #[trigger] changes_upto(cur, disp, w, h).contains(p) <==> (p.0 < w && p.1 < h
                && changed(cur, disp, p.0 as int, p.1 as int)),
        row_major_sorted(changes_upto(cur, disp, w, h)),
    decreases h,
{
    if h > 0 {
        lemma_changes_upto(cur, disp, w, h - 1);
        lemma_changes_in_row(cur, disp, h - 1, w);
        let a = changes_upto(cur, disp, w, h - 1);
        let b = changes_in_row(cur, disp, h - 1, w);
        let r = a + b;
        assert(changes_upto(cur, disp, w, h) == r);
        assert forall|p: (usize, usize)| #[trigger] r.contains(p) <==> (p.0 < w && p.1 < h
            && changed(cur, disp, p.0 as int, p.1 as int)) by {
            if r.contains(p) {
                let i = choose|i: int| 0 <= i < r.len() && r[i] == p;
                if i < a.len() {
                    assert(a.contains(a[i]));
                } else {
                    assert(b.contains(b[i - a.len()]));
                }
            }
            if p.0 < w && p.1 < h && changed(cur, disp, p.0 as int, p.1 as int) {
                if p.1 < h - 1 {
                    assert(a.contains(p));
                    let i = choose|i: int| 0 <= i < a.len() && a[i] == p;
                    assert(r[i] == p);
                } else {
                    assert(b.contains(p));
                    let i = choose|i: int| 0 <= i < b.len() && b[i] == p;
                    assert(r[a.len() + i] == p);
                }
            }
        }
        assert forall|i: int, j: int| 0 <= i < j < r.len() implies before(#[trigger] r[i], #[trigger] r[j]) by {
            if j < a.len() {
                assert(r[i] == a[i] && r[j] == a[j]);
            } else if i >= a.len() {
                assert(r[i] == b[i - a.len()] && r[j] == b[j - a.len()]);
            } else {
                assert(r[i] == a[i]);
                assert(a.contains(a[i]));
                assert(r[j] == b[j - a.len()]);
                assert(b.contains(b[j - a.len()]));
            }
        }
    }
}

/// The display after a frame: wherever the current buffer has something, the
/// terminal now shows it; elsewhere it keeps what it showed.
pub open spec fn synced(disp: Seq<Seq<Cell>>, cur: Seq<Seq<Cell>>) -> Seq<Seq<Cell>> {
    Seq::new(
        disp.len(),
        |x: int|
            Seq::new(
                disp[x].len(),
                |y: int|
                    if cur[x][y] is Some {
                        cur[x][y]
                    } else {
                        disp[x][y]
                    },
            ),
    )
}

} // verus!
