//! The character grid and the rule that says through which sides a glyph connects.

use vstd::prelude::*;
use crate::geometry::{reads_before, Direction, Point};

verus! {

/// The grid as specifications see it: a sequence of rows of characters,
/// where rows may differ in length.
pub type Grid = Seq<Seq<char>>;

/// The lines of a diagram, one `Vec<char>` per line.
pub struct Lines(pub Vec<Vec<char>>);

impl View for Lines {
    type V = Grid;

    open spec fn view(&self) -> Grid {
        Seq::new(self.0@.len(), |i: int| self.0@[i]@)
    }
}

/// Whether a connection may pass through the side of glyph `c` that faces
/// direction `d`.
///
/// | glyph | sides |
/// |---|---|
/// | `|` | Up, Dn |
/// | `-` | Lt, Rt |
/// | `.` | Dn, Lt |
/// | `,` | Dn, Rt |
/// | `'` | Up, Lt, Rt |
/// | `<` | Rt |
/// | `>` | Lt |
///
/// Every other character has no open side.
pub open spec fn spec_can_go(c: char, d: Direction) -> bool {
    if c == '|' {
        d is Up || d is Dn
    } else if c == '-' {
        d is Lt || d is Rt
    } else if c == '.' {
        d is Dn || d is Lt
    } else if c == ',' {
        d is Dn || d is Rt
    } else if c == '\'' {
        d is Up || d is Lt || d is Rt
    } else if c == '<' {
        d is Rt
    } else if c == '>' {
        d is Lt
    } else {
        false
    }
}

/// Whether `c` is one of the seven glyphs that connect to anything.
pub open spec fn is_glyph(c: char) -> bool {
    c == '|' || c == '-' || c == '.' || c == ',' || c == '\'' || c == '<' || c == '>'
}

/// Looks up the adjacency rule for glyph `c` and direction `d`.
#[verifier::when_used_as_spec(spec_can_go)]
pub fn can_go(c: char, d: Direction) -> (r: bool)
    ensures
        r == spec_can_go(c, d),
{
    match d {
        Direction::Up => c == '|' || c == '\'',
        Direction::Dn => c == '|' || c == '.' || c == ',',
        Direction::Lt => c == '-' || c == '.' || c == '\'' || c == '>',
        Direction::Rt => c == '-' || c == ',' || c == '\'' || c == '<',
    }
}

/// A character that is no glyph connects in no direction, and each glyph
/// connects in at least one.
pub proof fn lemma_only_glyphs_connect(c: char)
    ensures
        is_glyph(c) <==> exists|d: Direction| spec_can_go(c, d),
{
    if is_glyph(c) {
        if c == '|' || c == '.' || c == ',' {
            assert(spec_can_go(c, Direction::Dn));
        } else if c == '-' || c == '\'' || c == '<' {
            assert(spec_can_go(c, Direction::Rt));
        } else {
            assert(spec_can_go(c, Direction::Lt));
        }
    }
}

/// The character at `p`, or `None` where `p` lies past the last row or past
/// the end of its row.
pub open spec fn glyph_at(g: Grid, p: Point) -> Option<char> {
    if p.row < g.len() && p.col < g[p.row as int].len() {
        Some(g[p.row as int][p.col as int])
    } else {
        None
    }
}

/// The cell next to `p` in direction `d` with its character, or `None` where
/// that cell is off the grid.
pub open spec fn neighbor(g: Grid, p: Point, d: Direction) -> Option<(Point, char)> {
    match p.in_dir(d) {
        Some(q) => match glyph_at(g, q) {
            Some(c) => Some((q, c)),
            None => None,
        },
        None => None,
    }
}

/// The first `n` cells of row `r` from the left, each with its character.
pub open spec fn row_cells(g: Grid, r: int, n: int) -> Seq<(Point, char)> {
    Seq::new(n as nat, |c: int| (Point { row: r as usize, col: c as usize }, g[r][c]))
}

/// The cells of the first `k` rows in reading order: row by row from the
/// top, each row from the left.
pub open spec fn cells_upto(g: Grid, k: int) -> Seq<(Point, char)>
    decreases k,
{
    if k <= 0 {
        Seq::empty()
    } else {
        cells_upto(g, k - 1) + row_cells(g, k - 1, g[k - 1].len() as int)
    }
}

/// Every cell of the grid in reading order.
pub open spec fn cells_of(g: Grid) -> Seq<(Point, char)> {
    cells_upto(g, g.len() as int)
}

/// The grid is one that fits in memory: the number of its rows and the
/// length of each row are within the range of `usize`.
pub open spec fn fits(g: Grid) -> bool {
    &&& g.len() <= usize::MAX
    &&& forall|r: int| 0 <= r < g.len() ==> (#[trigger] g[r]).len() <= usize::MAX
}

/// The points of `s` are in reading order, each strictly before the next.
pub open spec fn in_reading_order(s: Seq<(Point, char)>) -> bool {
    forall|i: int, j: int|
        0 <= i < j < s.len() ==> reads_before((#[trigger] s[i]).0, (#[trigger] s[j]).0)
}

/// The cells of the first `k` rows are listed once each, with their
/// characters, in reading order.
pub proof fn lemma_cells_upto(g: Grid, k: int)
    requires
        fits(g),
        0 <= k <= g.len(),
    ensures
        forall|i: int|
            0 <= i < cells_upto(g, k).len() ==> (#[trigger] cells_upto(g, k)[i]).0.row < k
                && glyph_at(g, cells_upto(g, k)[i].0) == Some(cells_upto(g, k)[i].1),
        forall|p: Point|
            p.row < k && glyph_at(g, p) is Some ==> cells_upto(g, k).contains(
                (p, (#[trigger] glyph_at(g, p)).unwrap()),
            ),
        in_reading_order(cells_upto(g, k)),
    decreases k,
{
    if k > 0 {
        lemma_cells_upto(g, k - 1);
        let above = cells_upto(g, k - 1);
        let row = row_cells(g, k - 1, g[k - 1].len() as int);
        let all = cells_upto(g, k);
        assert(all == above + row);
        assert forall|i: int| 0 <= i < all.len() implies (#[trigger] all[i]).0.row < k && glyph_at(
            g,
            all[i].0,
        ) == Some(all[i].1) by {
            if i < above.len() {
                assert(all[i] == above[i]);
            } else {
                assert(all[i] == row[i - above.len()]);
            }
        }
        assert forall|p: Point| p.row < k && glyph_at(g, p) is Some implies all.contains(
            (p, (#[trigger] glyph_at(g, p)).unwrap()),
        ) by {
            let cell = (p, glyph_at(g, p).unwrap());
            if p.row < k - 1 {
                let i = choose|i: int| 0 <= i < above.len() && above[i] == cell;
                assert(all[i] == cell);
            } else {
                assert(row[p.col as int] == cell);
                assert(all[above.len() + p.col] == cell);
            }
        }
        assert forall|i: int, j: int| 0 <= i < j < all.len() implies reads_before(
            (#[trigger] all[i]).0,
            (#[trigger] all[j]).0,
        ) by {
            if j < above.len() {
                assert(all[i] == above[i] && all[j] == above[j]);
            } else if i < above.len() {
                assert(all[i] == above[i] && all[j] == row[j - above.len()]);
            } else {
                assert(all[i] == row[i - above.len()] && all[j] == row[j - above.len()]);
            }
        }
    }
}

/// `cells_of` lists every cell of the grid once, with its character, in
/// reading order.
pub proof fn lemma_cells_of(g: Grid)
    requires
        fits(g),
    ensures
        forall|i: int|
            0 <= i < cells_of(g).len() ==> glyph_at(g, (#[trigger] cells_of(g)[i]).0) == Some(
                cells_of(g)[i].1,
            ),
        forall|p: Point|
            glyph_at(g, p) is Some ==> cells_of(g).contains(
                (p, (#[trigger] glyph_at(g, p)).unwrap()),
            ),
        in_reading_order(cells_of(g)),
{
    lemma_cells_upto(g, g.len() as int);
}

impl Lines {
    /// The lines of a diagram fit in memory.
    pub proof fn lemma_view_fits(&self)
        ensures
            fits(self@),
    {
        assert(self@.len() == self.0.len());
        assert forall|r: int| 0 <= r < self@.len() implies (#[trigger] self@[r]).len()
            <= usize::MAX by {
            assert(self@[r].len() == self.0@[r].len());
        }
    }

    /// Every cell of the grid with its character, in reading order.
    pub fn cells(&self) -> (r: Vec<(Point, char)>)
        ensures
            r@ == cells_of(self@),
    {
        let mut out: Vec<(Point, char)> = Vec::new();
        let mut row: usize = 0;
        while row < self.0.len()
            invariant
                row <= self.0.len(),
                out@ == cells_upto(self@, row as int),
            decreases self.0.len() - row,
        {
            let line = &self.0[row];
            let ghost before = out@;
            let mut col: usize = 0;
            while col < line.len()
                invariant
                    row < self.0.len(),
                    line == self.0[row as int],
                    col <= line.len(),
                    out@ == before + row_cells(self@, row as int, col as int),
                decreases line.len() - col,
            {
                out.push((Point { row, col }, line[col]));
                col += 1;
            }
            row += 1;
        }
        out
    }

    /// The character at `p`; `None` past any row or column bound.
    pub fn at(&self, p: Point) -> (r: Option<char>)
        ensures
            r == glyph_at(self@, p),
    {
        if p.row >= self.0.len() {
            return None;
        }
        let line = &self.0[p.row];
        if p.col >= line.len() {
            return None;
        }
        Some(line[p.col])
    }

    /// The neighbour of `p` in direction `d` and the character there.
    pub fn in_dir(&self, p: Point, d: Direction) -> (r: Option<(Point, char)>)
        ensures
            r == neighbor(self@, p, d),
    {
        match p.in_dir(d) {
            Some(q) => match self.at(q) {
                Some(c) => Some((q, c)),
                None => None,
            },
            None => None,
        }
    }
}

impl core::ops::Index<Point> for Lines {
    type Output = char;

    /// The character at `p`, which must be on the grid.
    fn index(&self, p: Point) -> (r: &char)
        ensures
            glyph_at(self@, p) == Some(*r),
    {
        &self.0[p.row][p.col]
    }
}

impl vstd::std_specs::core::IndexSpecImpl<Point> for Lines {
    open spec fn index_req(&self, p: &Point) -> bool {
        glyph_at(self@, *p) is Some
    }
}

impl Lines {
    /// Writes `c` into the cell at `p`, which must be on the grid.
    pub fn set(&mut self, p: Point, c: char)
        requires
            glyph_at(old(self)@, p) is Some,
        ensures
            final(self)@ == old(self)@.update(
                p.row as int,
                old(self)@[p.row as int].update(p.col as int, c),
            ),
            glyph_at(final(self)@, p) == Some(c),
    {
        self.0[p.row][p.col] = c;
        assert(self@ =~= old(self)@.update(
            p.row as int,
            old(self)@[p.row as int].update(p.col as int, c),
        ));
    }
}

} // verus!
