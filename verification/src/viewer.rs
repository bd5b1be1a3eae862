//! How the interactive viewer moves its cursor and its viewport.

use vstd::prelude::*;
use crate::edges::polylines;
use crate::geometry::{border_in_dir, Direction, Point, TBox};
use crate::grid::{Grid, Lines};
use crate::render::{in_any_box, style_at, style_of, Style};

verus! {

/// `outer` holds every cell of `inner`.
pub open spec fn covers(outer: TBox, inner: TBox) -> bool {
    outer.contains(inner.0) && outer.contains(inner.1)
}

/// `inner` shifted one step in direction `d`, unless `inner` touches the
/// side of `outer` that faces `d`.
pub open spec fn spec_move_inside(inner: TBox, outer: TBox, d: Direction) -> Option<TBox> {
    if !inner.intersects(border_in_dir(outer, d)) {
        inner.in_dir(d)
    } else {
        None
    }
}

/// Moves `inner` one step in direction `d` within `outer`. It returns the
/// shifted rectangle, or `None` where `inner` already touches that side of
/// `outer`. A well-formed `inner` that lies within `outer` is moved exactly
/// when it stays within `outer`.
#[verifier::when_used_as_spec(spec_move_inside)]
pub fn move_inside(inner: TBox, outer: TBox, d: Direction) -> (r: Option<TBox>)
    ensures
        r == spec_move_inside(inner, outer, d),
        inner.wf() && covers(outer, inner) ==> (r matches Some(s) ==> s.wf() && covers(outer, s)),
        inner.wf() && covers(outer, inner) ==> (r is None <==> !(inner.in_dir(d) matches Some(s)
            && covers(outer, s))),
{
    let side = border_in_dir(outer, d);
    if !inner.intersects(side) {
        return inner.in_dir(d);
    }
    None
}

/// The last index of a span of `n` cells; 0 for an empty span.
pub open spec fn last_of(n: int) -> int {
    if n <= 0 {
        0
    } else {
        n - 1
    }
}

/// The greatest length among the rows `from`, .., `to - 1` of the grid;
/// rows past the end of the grid count as empty.
pub open spec fn widest(g: Grid, from: int, to: int) -> nat
    decreases to - from,
{
    if to <= from {
        0
    } else {
        let rest = widest(g, from, to - 1);
        let len = if 0 <= to - 1 < g.len() {
            g[to - 1].len()
        } else {
            0
        };
        if len > rest {
            len
        } else {
            rest
        }
    }
}

/// Rows past the end of the grid add nothing to the greatest length.
proof fn lemma_widest_past_end(g: Grid, from: int, mid: int, to: int)
    requires
        from <= mid <= to,
        g.len() <= mid,
    ensures
        widest(g, from, to) == widest(g, from, mid),
    decreases to - mid,
{
    if mid < to {
        lemma_widest_past_end(g, from, mid, to - 1);
    }
}

/// The greatest length is a bound on each of the rows, and some row has it
/// unless it is 0.
pub proof fn lemma_widest_is_greatest(g: Grid, from: int, to: int)
    requires
        0 <= from,
    ensures
        forall|i: int| from <= i < to && i < g.len() ==> (#[trigger] g[i]).len() <= widest(g, from, to),
        widest(g, from, to) == 0 || exists|i: int|
            from <= i < to && i < g.len() && (#[trigger] g[i]).len() == widest(g, from, to),
    decreases to - from,
{
    if from < to {
        lemma_widest_is_greatest(g, from, to - 1);
        let rest = widest(g, from, to - 1);
        if to - 1 < g.len() && g[to - 1].len() > rest {
            assert(g[to - 1].len() == widest(g, from, to));
        } else if rest != 0 {
            let i = choose|i: int|
                from <= i < to - 1 && i < g.len() && (#[trigger] g[i]).len() == rest;
            assert(g[i].len() == widest(g, from, to));
        }
    }
}

/// The greatest length among `count` rows of the grid from row `from` on.
pub fn widest_line(lines: &Lines, from: usize, count: u16) -> (r: usize)
    ensures
        r == widest(lines@, from as int, from + count),
        forall|i: int|
            from <= i < from + count && i < lines@.len() ==> (#[trigger] lines@[i]).len() <= r,
        r == 0 || exists|i: int|
            from <= i < from + count && i < lines@.len() && (#[trigger] lines@[i]).len() == r,
{
    let end = from.saturating_add(count as usize);
    let stop = if end < lines.0.len() {
        end
    } else {
        lines.0.len()
    };
    let mut best: usize = 0;
    let mut i: usize = from;
    while i < stop
        invariant
            from <= i,
            i == from || i <= stop,
            stop <= lines.0.len(),
            stop <= from + count,
            best == widest(lines@, from as int, i as int),
        decreases stop - i,
    {
        if lines.0[i].len() > best {
            best = lines.0[i].len();
        }
        i += 1;
    }
    proof {
        if stop == lines.0.len() {
            lemma_widest_past_end(lines@, from as int, i as int, from + count);
        }
        lemma_widest_is_greatest(lines@, from as int, from + count);
    }
    best
}

/// The first of the boxes from index `from` on that holds `p`.
pub open spec fn first_holding(boxes: Seq<TBox>, p: Point, from: int) -> Option<TBox>
    decreases boxes.len() - from,
{
    if from < 0 || from >= boxes.len() {
        None
    } else if boxes[from].contains(p) {
        Some(boxes[from])
    } else {
        first_holding(boxes, p, from + 1)
    }
}

/// Finds the first box that holds `p`. There is one exactly when `p` lies
/// in any of the boxes.
pub fn find_box(boxes: &Vec<TBox>, p: Point) -> (r: Option<TBox>)
    ensures
        r == first_holding(boxes@, p, 0),
        r is Some <==> in_any_box(boxes@, p),
        r matches Some(b) ==> b.contains(p),
{
    let mut i: usize = 0;
    while i < boxes.len()
        invariant
            i <= boxes.len(),
            first_holding(boxes@, p, 0) == first_holding(boxes@, p, i as int),
            forall|j: int| 0 <= j < i ==> !(#[trigger] boxes@[j]).contains(p),
        decreases boxes.len() - i,
    {
        if boxes[i].contains(p) {
            return Some(boxes[i]);
        }
        i += 1;
    }
    None
}

/// What the viewer is told: a key press, a new size of the terminal, or
/// anything else.
#[derive(Clone, Copy, Debug, PartialEq, Eq)]
pub enum Event {
    /// The key for the character `code`, alone or with the control key held.
    Key { code: char, control: bool },
    /// The terminal now has `cols` columns and `rows` rows.
    Resize { cols: u16, rows: u16 },
    Other,
}

/// What an event asks of the viewer.
#[derive(Clone, Copy, Debug, PartialEq, Eq)]
pub enum Command {
    Quit,
    Move(Direction),
    Resize { cols: u16, rows: u16 },
    Nothing,
}

/// The key bindings: `q` and control-`c` quit; `h`, `j`, `k` and `l` move
/// the cursor left, down, up and right.
pub open spec fn spec_command_for(e: Event) -> Command {
    match e {
        Event::Key { code, control } => if (code == 'q' && !control) || (code == 'c' && control) {
            Command::Quit
        } else if control {
            Command::Nothing
        } else if code == 'j' {
            Command::Move(Direction::Dn)
        } else if code == 'k' {
            Command::Move(Direction::Up)
        } else if code == 'l' {
            Command::Move(Direction::Rt)
        } else if code == 'h' {
            Command::Move(Direction::Lt)
        } else {
            Command::Nothing
        },
        Event::Resize { cols, rows } => Command::Resize { cols, rows },
        Event::Other => Command::Nothing,
    }
}

/// Looks up what an event asks for.
#[verifier::when_used_as_spec(spec_command_for)]
pub fn command_for(e: Event) -> (r: Command)
    ensures
        r == spec_command_for(e),
{
    match e {
        Event::Key { code, control } => {
            if (code == 'q' && !control) || (code == 'c' && control) {
                Command::Quit
            } else if control {
                Command::Nothing
            } else if code == 'j' {
                Command::Move(Direction::Dn)
            } else if code == 'k' {
                Command::Move(Direction::Up)
            } else if code == 'l' {
                Command::Move(Direction::Rt)
            } else if code == 'h' {
                Command::Move(Direction::Lt)
            } else {
                Command::Nothing
            }
        },
        Event::Resize { cols, rows } => Command::Resize { cols, rows },
        Event::Other => Command::Nothing,
    }
}

/// The state of the interactive viewer.
#[derive(Clone, Copy, Debug, PartialEq, Eq)]
pub struct Viewer {
    /// The row of the cursor on the screen.
    pub pr: u16,
    /// The column of the cursor on the screen.
    pub pc: u16,
    /// The grid row shown in the first row of the screen.
    pub vr: usize,
    /// The grid column shown in the first column of the screen.
    pub vc: usize,
    /// The number of columns of the terminal.
    pub cols: u16,
    /// The number of rows of the terminal.
    pub rows: u16,
    /// Whether the screen has to be drawn again.
    pub dirty: bool,
    /// The box that holds the cursor, if any.
    pub focus: Option<TBox>,
}

/// Whether the two are the same box, or both none.
fn same_focus(a: Option<TBox>, b: Option<TBox>) -> (r: bool)
    ensures
        r == (a == b),
{
    match (a, b) {
        (None, None) => true,
        (Some(x), Some(y)) => x == y,
        _ => false,
    }
}

impl Viewer {
    /// The cursor is on the screen: in a row and a column that the
    /// terminal has, or in the first where it has none.
    pub open spec fn wf(&self) -> bool {
        self.pr <= last_of(self.rows as int) && self.pc <= last_of(self.cols as int)
    }

    /// A viewer for a terminal of `cols` columns and `rows` rows, with the
    /// cursor and the viewport at the top-left cell of the grid and the
    /// screen still to be drawn.
    pub fn new(cols: u16, rows: u16) -> (v: Viewer)
        ensures
            v == (Viewer { pr: 0, pc: 0, vr: 0, vc: 0, cols, rows, dirty: true, focus: None }),
            v.wf(),
    {
        Viewer { pr: 0, pc: 0, vr: 0, vc: 0, cols, rows, dirty: true, focus: None }
    }

    /// The grid cell under the cursor.
    pub open spec fn spec_cursor(&self) -> Point {
        Point {
            row: (self.pr as usize).saturating_add(self.vr),
            col: (self.pc as usize).saturating_add(self.vc),
        }
    }

    /// The grid cell under the cursor: its place on the screen, offset by
    /// the viewport.
    #[verifier::when_used_as_spec(spec_cursor)]
    pub fn cursor(&self) -> (r: Point)
        ensures
            r == self.spec_cursor(),
    {
        Point::from(
            ((self.pr as usize).saturating_add(self.vr), (self.pc as usize).saturating_add(self.vc)),
        )
    }

    /// The cells of the screen.
    pub open spec fn screen(&self) -> TBox {
        TBox(
            Point { row: 0, col: 0 },
            Point { row: last_of(self.rows as int) as usize, col: last_of(self.cols as int) as usize },
        )
    }

    /// The rectangle that stands for the viewport when it is moved over
    /// the grid. It reaches `rows` rows down from row `vr`; on the column
    /// axis it reaches from `vc` to `vr + cols - 1`.
    pub open spec fn window(&self) -> TBox {
        TBox::spanning(
            Point { row: self.vr, col: self.vc },
            Point {
                row: self.vr.saturating_add(self.rows as usize).saturating_sub(1),
                col: self.vr.saturating_add(self.cols as usize).saturating_sub(1),
            },
        )
    }

    /// The rectangle the viewport is kept in: from the first cell of the
    /// grid to its last row and, of the rows in view, the longest one's length.
    pub open spec fn extent(&self, g: Grid) -> TBox {
        TBox(
            Point { row: 0, col: 0 },
            Point {
                row: last_of(g.len() as int) as usize,
                col: widest(g, self.vr as int, self.vr + self.rows) as usize,
            },
        )
    }

    /// The viewer after a step in direction `d`. The cursor moves on the
    /// screen where it can. At the side of the screen the viewport moves
    /// over the grid instead, where it does not yet touch that side of the
    /// grid's extent, and the screen has to be drawn again. Else nothing moves.
    /// A cursor that is on the screen stays on it; one that is not keeps
    /// the low 16 bits of its new place.
    pub open spec fn moved(&self, g: Grid, d: Direction) -> Viewer {
        let at = Point { row: self.pr as usize, col: self.pc as usize };
        match spec_move_inside(TBox(at, at), self.screen(), d) {
            Some(b) => Viewer { pr: b.0.row as u16, pc: b.0.col as u16, ..*self },
            None => match spec_move_inside(self.window(), self.extent(g), d) {
                Some(b) => Viewer { vr: b.0.row, vc: b.0.col, dirty: true, ..*self },
                None => *self,
            },
        }
    }

    /// Moves the cursor one step in direction `d`, scrolling the viewport
    /// where the cursor is at the side of the screen.
    pub fn move_cursor(&mut self, lines: &Lines, d: Direction)
        ensures
            *final(self) == old(self).moved(lines@, d),
            old(self).wf() ==> final(self).wf(),
    {
        let p = Point::from((self.pr as usize, self.pc as usize));
        let pbox = TBox::from((p, p));
        let vbox = TBox::from(
            (
                Point::from((0, 0)),
                Point::from(
                    ((self.rows as usize).saturating_sub(1), (self.cols as usize).saturating_sub(1)),
                ),
            ),
        );
        if let Some(b) = move_inside(pbox, vbox, d) {
            self.pr = #[verifier::truncate] (b.0.row as u16);
            self.pc = #[verifier::truncate] (b.0.col as u16);
            return ;
        }
        let vbox = TBox::from(
            (
                Point::from((self.vr, self.vc)),
                Point::from(
                    (
                        self.vr.saturating_add(self.rows as usize).saturating_sub(1),
                        self.vr.saturating_add(self.cols as usize).saturating_sub(1),
                    ),
                ),
            ),
        );
        let windowed_max = widest_line(lines, self.vr, self.rows);
        let lbox = TBox::from(
            (Point::from((0, 0)), Point::from((lines.0.len().saturating_sub(1), windowed_max))),
        );
        if let Some(b) = move_inside(vbox, lbox, d) {
            self.vr = b.0.row;
            self.vc = b.0.col;
            self.dirty = true;
        }
    }

    /// The viewer after the terminal has changed to `cols` columns and
    /// `rows` rows: the cursor is brought back onto the screen where it was
    /// beyond the last row or column, and the screen has to be drawn again.
    pub open spec fn resized(&self, cols: u16, rows: u16) -> Viewer {
        Viewer {
            cols,
            rows,
            pr: if self.pr <= last_of(rows as int) {
                self.pr
            } else {
                last_of(rows as int) as u16
            },
            pc: if self.pc <= last_of(cols as int) {
                self.pc
            } else {
                last_of(cols as int) as u16
            },
            dirty: true,
            ..*self
        }
    }

    /// Takes over the new size of the terminal and clamps the cursor into it.
    pub fn resize(&mut self, cols: u16, rows: u16)
        ensures
            *final(self) == old(self).resized(cols, rows),
            final(self).wf(),
    {
        self.cols = cols;
        self.rows = rows;
        let last_row = rows.saturating_sub(1);
        let last_col = cols.saturating_sub(1);
        if self.pr > last_row {
            self.pr = last_row;
        }
        if self.pc > last_col {
            self.pc = last_col;
        }
        self.dirty = true;
    }

    /// The viewer with the focus on the first box that holds the cursor.
    /// Where the focus changes the screen has to be drawn again.
    pub open spec fn refocused(&self, boxes: Seq<TBox>) -> Viewer {
        let focus = first_holding(boxes, self.cursor(), 0);
        Viewer { focus, dirty: self.dirty || focus != self.focus, ..*self }
    }

    /// Puts the focus on the first box that holds the cursor, or on none.
    pub fn refocus(&mut self, boxes: &Vec<TBox>)
        ensures
            *final(self) == old(self).refocused(boxes@),
            final(self).wf() == old(self).wf(),
    {
        let next = find_box(boxes, self.cursor());
        if !same_focus(next, self.focus) {
            self.dirty = true;
        }
        self.focus = next;
    }

    /// The viewer after the event `e`, and whether the event ends the
    /// session. An event that ends the session leaves the viewer as it is;
    /// after any other, the focus follows the cursor.
    pub open spec fn handled(&self, g: Grid, boxes: Seq<TBox>, e: Event) -> (Viewer, bool) {
        match command_for(e) {
            Command::Quit => (*self, true),
            Command::Move(d) => (self.moved(g, d).refocused(boxes), false),
            Command::Resize { cols, rows } => (self.resized(cols, rows).refocused(boxes), false),
            Command::Nothing => (self.refocused(boxes), false),
        }
    }

    /// Takes one event: acts on it and returns whether the session is over.
    pub fn handle(&mut self, lines: &Lines, boxes: &Vec<TBox>, e: Event) -> (quit: bool)
        ensures
            (*final(self), quit) == old(self).handled(lines@, boxes@, e),
            old(self).wf() ==> final(self).wf(),
    {
        match command_for(e) {
            Command::Quit => {
                return true;
            },
            Command::Move(d) => {
                self.move_cursor(lines, d);
            },
            Command::Resize { cols, rows } => {
                self.resize(cols, rows);
            },
            Command::Nothing => {},
        }
        self.refocus(boxes);
        false
    }
}

/// The rows of a frame, each as a sequence of cells.
pub open spec fn frame_rows(v: Seq<Vec<(char, Style)>>) -> Seq<Seq<(char, Style)>> {
    Seq::new(v.len(), |i: int| v[i]@)
}

/// How many of `len` cells are in view from cell `start` on, on a screen
/// that shows `limit` of them at most.
pub open spec fn spec_in_view(limit: u16, len: usize, start: usize) -> usize {
    if start >= len {
        0
    } else if limit <= len - start {
        limit as usize
    } else {
        (len - start) as usize
    }
}

/// Counts the cells in view: those from `start` on, as far as the screen
/// and the cells reach.
#[verifier::when_used_as_spec(spec_in_view)]
pub fn in_view(limit: u16, len: usize, start: usize) -> (r: usize)
    ensures
        r == spec_in_view(limit, len, start),
{
    if start >= len {
        0
    } else if limit as usize <= len - start {
        limit as usize
    } else {
        len - start
    }
}

impl Viewer {
    /// How many rows of the grid are in view, from row `vr` on.
    pub open spec fn shown_rows(&self, g: Grid) -> usize {
        in_view(self.rows, g.len() as usize, self.vr)
    }

    /// How many cells of a row are in view, from column `vc` on.
    pub open spec fn shown_cols(&self, line: Seq<char>) -> usize {
        in_view(self.cols, line.len() as usize, self.vc)
    }

    /// The `i`-th row of the frame: the cells of grid row `vr + i` that
    /// are in view, each with the style it is drawn in.
    pub open spec fn frame_row(
        &self,
        g: Grid,
        edges: Seq<Seq<Point>>,
        boxes: Seq<TBox>,
        i: int,
    ) -> Seq<(char, Style)> {
        let line = g[self.vr + i];
        Seq::new(
            self.shown_cols(line) as nat,
            |j: int|
                (
                    line[self.vc + j],
                    style_of(
                        edges,
                        boxes,
                        self.focus,
                        Point { row: (self.vr + i) as usize, col: (self.vc + j) as usize },
                    ),
                ),
        )
    }

    /// What the screen shows: the part of the grid in view, row by row.
    pub open spec fn frame_of(&self, g: Grid, edges: Seq<Seq<Point>>, boxes: Seq<TBox>) -> Seq<
        Seq<(char, Style)>,
    > {
        Seq::new(self.shown_rows(g) as nat, |i: int| self.frame_row(g, edges, boxes, i))
    }

    /// Builds what the screen shows: for each row in view its characters
    /// and their styles. A cell on a connector is drawn as `Edge`, else one
    /// in the focused box as `Focus`, else one in any box as `Boxed`.
    pub fn frame(&self, lines: &Lines, es: &Vec<Vec<Point>>, bs: &Vec<TBox>) -> (r: Vec<
        Vec<(char, Style)>,
    >)
        ensures
            frame_rows(r@) == self.frame_of(lines@, polylines(es@), bs@),
    {
        let mut out: Vec<Vec<(char, Style)>> = Vec::new();
        let height = in_view(self.rows, lines.0.len(), self.vr);
        let mut row: usize = 0;
        while row < height
            invariant
                height == self.shown_rows(lines@),
                row <= height,
                out@.len() == row,
                forall|i: int|
                    0 <= i < row ==> (#[trigger] out@[i])@ == self.frame_row(
                        lines@,
                        polylines(es@),
                        bs@,
                        i,
                    ),
            decreases height - row,
        {
            let line = &lines.0[self.vr + row];
            let mut cells: Vec<(char, Style)> = Vec::new();
            let width = in_view(self.cols, line.len(), self.vc);
            let mut col: usize = 0;
            while col < width
                invariant
                    self.vr + row < lines.0.len(),
                    line == lines.0[self.vr + row],
                    width == self.shown_cols(line@),
                    col <= width,
                    cells@.len() == col,
                    forall|j: int|
                        0 <= j < col ==> #[trigger] cells@[j] == self.frame_row(
                            lines@,
                            polylines(es@),
                            bs@,
                            row as int,
                        )[j],
                decreases width - col,
            {
                let p = Point { row: self.vr + row, col: self.vc + col };
                cells.push((line[self.vc + col], style_at(es, bs, self.focus, p)));
                col += 1;
            }
            assert(cells@ =~= self.frame_row(lines@, polylines(es@), bs@, row as int));
            out.push(cells);
            row += 1;
        }
        assert(frame_rows(out@) =~= self.frame_of(lines@, polylines(es@), bs@));
        out
    }

    /// Hands out the frame to draw where the screen has to be drawn again,
    /// and takes note that it was drawn.
    pub fn draw(&mut self, lines: &Lines, es: &Vec<Vec<Point>>, bs: &Vec<TBox>) -> (r: Option<
        Vec<Vec<(char, Style)>>,
    >)
        ensures
            *final(self) == (Viewer { dirty: false, ..*old(self) }),
            r is Some <==> old(self).dirty,
            r matches Some(rows) ==> frame_rows(rows@) == old(self).frame_of(
                lines@,
                polylines(es@),
                bs@,
            ),
    {
        if !self.dirty {
            return None;
        }
        self.dirty = false;
        let rows = self.frame(lines, es, bs);
        Some(rows)
    }
}

/// A change of the terminal's size brings the cursor onto the new screen
/// and moves it nowhere else: no coordinate of the cursor grows and the
/// viewport stays, so a cursor within a rectangle that starts at the first
/// cell of the grid is still within it afterwards.
pub proof fn lemma_resize_clamps(v: Viewer, cols: u16, rows: u16, bounds: TBox)
    ensures
        v.resized(cols, rows).wf(),
        rows > 0 ==> v.resized(cols, rows).pr < rows,
        cols > 0 ==> v.resized(cols, rows).pc < cols,
        v.resized(cols, rows).pr <= v.pr,
        v.resized(cols, rows).pc <= v.pc,
        v.resized(cols, rows).vr == v.vr,
        v.resized(cols, rows).vc == v.vc,
        bounds.0 == (Point { row: 0, col: 0 }) && bounds.contains(v.cursor()) ==> bounds.contains(
            v.resized(cols, rows).cursor(),
        ),
{
}

} // verus!
