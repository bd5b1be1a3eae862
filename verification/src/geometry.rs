//! Points, directions and axis-aligned rectangles on the character grid.

use vstd::prelude::*;

verus! {

/// A cell position: `row` counts lines from the top, `col` characters from the left.
#[derive(Clone, Copy, Debug, PartialEq, Eq, Hash, Structural)]
pub struct Point {
    pub row: usize,
    pub col: usize,
}

/// One of the four directions a connector can run in.
#[derive(Clone, Copy, Debug, PartialEq, Eq, Hash, Structural)]
pub enum Direction {
    Up,
    Dn,
    Lt,
    Rt,
}

impl Direction {
    /// The opposite direction.
    pub open spec fn spec_rev(self) -> Direction {
        match self {
            Direction::Up => Direction::Dn,
            Direction::Dn => Direction::Up,
            Direction::Lt => Direction::Rt,
            Direction::Rt => Direction::Lt,
        }
    }

    /// The opposite direction: `Up` and `Dn` swap, and so do `Lt` and `Rt`.
    #[verifier::when_used_as_spec(spec_rev)]
    pub fn rev(self) -> (r: Direction)
        ensures
            r == self.spec_rev(),
    {
        match self {
            Direction::Up => Direction::Dn,
            Direction::Dn => Direction::Up,
            Direction::Lt => Direction::Rt,
            Direction::Rt => Direction::Lt,
        }
    }

    /// Reversing twice gives the direction back, and reversing never gives the same direction.
    pub proof fn lemma_rev_involution(self)
        ensures
            self.rev().rev() == self,
            self.rev() != self,
    {
    }
}

impl From<(usize, usize)> for Point {
    /// The point in row `p.0` and column `p.1`.
    fn from(p: (usize, usize)) -> (r: Point) {
        Point { row: p.0, col: p.1 }
    }
}

impl vstd::std_specs::convert::FromSpecImpl<(usize, usize)> for Point {
    open spec fn obeys_from_spec() -> bool {
        true
    }

    open spec fn from_spec(p: (usize, usize)) -> Point {
        Point { row: p.0, col: p.1 }
    }
}

impl Point {
    /// The neighbouring position one step away in direction `d`, where it
    /// has coordinates: nothing lies above row 0 or left of column 0, nor
    /// beyond the largest coordinate.
    pub open spec fn spec_in_dir(self, d: Direction) -> Option<Point> {
        match d {
            Direction::Up => if self.row == 0 {
                None
            } else {
                Some(Point { row: (self.row - 1) as usize, col: self.col })
            },
            Direction::Dn => if self.row == usize::MAX {
                None
            } else {
                Some(Point { row: (self.row + 1) as usize, col: self.col })
            },
            Direction::Lt => if self.col == 0 {
                None
            } else {
                Some(Point { row: self.row, col: (self.col - 1) as usize })
            },
            Direction::Rt => if self.col == usize::MAX {
                None
            } else {
                Some(Point { row: self.row, col: (self.col + 1) as usize })
            },
        }
    }

    /// The neighbour of this point in direction `d`, or `None` at the edge of
    /// the coordinate space.
    #[verifier::when_used_as_spec(spec_in_dir)]
    pub fn in_dir(self, d: Direction) -> (r: Option<Point>)
        ensures
            r == self.spec_in_dir(d),
    {
        match d {
            Direction::Dn => {
                if self.row == usize::MAX {
                    None
                } else {
                    Some(Point::from((self.row + 1, self.col)))
                }
            },
            Direction::Up => {
                if self.row == 0 {
                    None
                } else {
                    Some(Point::from((self.row - 1, self.col)))
                }
            },
            Direction::Rt => {
                if self.col == usize::MAX {
                    None
                } else {
                    Some(Point::from((self.row, self.col + 1)))
                }
            },
            Direction::Lt => {
                if self.col == 0 {
                    None
                } else {
                    Some(Point::from((self.row, self.col - 1)))
                }
            },
        }
    }
}

/// The smaller of two coordinates.
pub open spec fn lo(a: usize, b: usize) -> usize {
    if a <= b {
        a
    } else {
        b
    }
}

/// The larger of two coordinates.
pub open spec fn hi(a: usize, b: usize) -> usize {
    if a <= b {
        b
    } else {
        a
    }
}

/// `a` comes before `b` in reading order: in a row above, or further left
/// in the same row.
pub open spec fn reads_before(a: Point, b: Point) -> bool {
    a.row < b.row || (a.row == b.row && a.col < b.col)
}

/// The `n` cells of row `row` from column `c0` on, left to right.
pub open spec fn row_run(row: usize, c0: int, n: int) -> Seq<Point> {
    Seq::new(n as nat, |i: int| Point { row, col: (c0 + i) as usize })
}

/// The cells of `k` rows from row `r0` on, `n` cells in each from column
/// `c0` on, in reading order.
pub open spec fn rows_run(r0: int, k: int, c0: int, n: int) -> Seq<Point>
    decreases k,
{
    if k <= 0 {
        Seq::empty()
    } else {
        rows_run(r0, k - 1, c0, n) + row_run((r0 + k - 1) as usize, c0, n)
    }
}

/// An axis-aligned rectangle of cells, given by its smallest and its largest
/// corner, both inclusive.
#[derive(Clone, Copy, Debug, PartialEq, Eq, Structural)]
pub struct TBox(pub Point, pub Point);

impl TBox {
    /// The first corner is no larger than the second on either axis.
    pub open spec fn wf(self) -> bool {
        self.0.row <= self.1.row && self.0.col <= self.1.col
    }

    /// The rectangle with corners `a` and `b`, whichever way round they are given.
    pub open spec fn spanning(a: Point, b: Point) -> TBox {
        TBox(
            Point { row: lo(a.row, b.row), col: lo(a.col, b.col) },
            Point { row: hi(a.row, b.row), col: hi(a.col, b.col) },
        )
    }

    /// `p` lies within the bounds on both axes, the bounds included.
    pub open spec fn spec_contains(&self, p: Point) -> bool {
        self.0.row <= p.row <= self.1.row && self.0.col <= p.col <= self.1.col
    }

    /// Whether `p` lies in the rectangle, its border included.
    #[verifier::when_used_as_spec(spec_contains)]
    pub fn contains(&self, p: Point) -> (r: bool)
        ensures
            r == self.spec_contains(p),
    {
        p.row >= self.0.row && p.row <= self.1.row && p.col >= self.0.col && p.col <= self.1.col
    }

    /// Neither rectangle lies wholly to one side of the other.
    pub open spec fn spec_intersects(&self, b: TBox) -> bool {
        !(self.1.row < b.0.row || self.0.row > b.1.row || self.1.col < b.0.col || self.0.col
            > b.1.col)
    }

    /// Whether the two rectangles overlap, borders included. For
    /// well-formed rectangles that is to share a cell.
    #[verifier::when_used_as_spec(spec_intersects)]
    pub fn intersects(&self, b: TBox) -> (r: bool)
        ensures
            r == self.spec_intersects(b),
            self.wf() && b.wf() ==> (r <==> exists|p: Point| self.contains(p) && b.contains(p)),
    {
        proof {
            if self.wf() && b.wf() && self.spec_intersects(b) {
                let p = Point { row: hi(self.0.row, b.0.row), col: hi(self.0.col, b.0.col) };
                assert(self.contains(p) && b.contains(p));
            }
        }
        !(self.1.row < b.0.row || self.0.row > b.1.row || self.1.col < b.0.col || self.0.col
            > b.1.col)
    }

    /// Both corners moved one step in direction `d`, where both can move.
    pub open spec fn spec_in_dir(&self, d: Direction) -> Option<TBox> {
        match (self.0.in_dir(d), self.1.in_dir(d)) {
            (Some(a), Some(b)) => Some(TBox(a, b)),
            _ => None,
        }
    }

    /// The rectangle shifted one step in direction `d`, or `None` where a
    /// corner would leave the coordinate space.
    #[verifier::when_used_as_spec(spec_in_dir)]
    pub fn in_dir(&self, d: Direction) -> (r: Option<TBox>)
        ensures
            r == self.spec_in_dir(d),
    {
        match self.0.in_dir(d) {
            Some(first) => match self.1.in_dir(d) {
                Some(second) => Some(TBox(first, second)),
                None => None,
            },
            None => None,
        }
    }

    /// The cells of the rectangle in reading order; none where the corners
    /// are the wrong way round on either axis.
    pub open spec fn spec_points(&self) -> Seq<Point> {
        if self.wf() {
            rows_run(
                self.0.row as int,
                self.1.row - self.0.row + 1,
                self.0.col as int,
                self.1.col - self.0.col + 1,
            )
        } else {
            Seq::empty()
        }
    }

    /// Lists the cells of the rectangle row by row from the top, each row
    /// from the left.
    pub fn points(&self) -> (r: Vec<Point>)
        ensures
            r@ == self.spec_points(),
            forall|p: Point| #[trigger] r@.contains(p) <==> self.wf() && self.contains(p),
            points_in_reading_order(r@),
    {
        proof {
            lemma_points_exact(*self);
        }
        let mut out: Vec<Point> = Vec::new();
        if self.0.row > self.1.row || self.0.col > self.1.col {
            return out;
        }
        let ghost r0 = self.0.row as int;
        let ghost c0 = self.0.col as int;
        let ghost n = self.1.col - self.0.col + 1;
        let mut row: usize = self.0.row;
        loop
            invariant_except_break
                out@ == rows_run(r0, row - r0, c0, n),
            invariant
                self.wf(),
                r0 == self.0.row,
                c0 == self.0.col,
                n == self.1.col - self.0.col + 1,
                self.0.row <= row <= self.1.row,
            ensures
                out@ == rows_run(r0, self.1.row - r0 + 1, c0, n),
            decreases self.1.row - row,
        {
            let ghost above = out@;
            let mut col: usize = self.0.col;
            loop
                invariant_except_break
                    out@ == above + row_run(row, c0, col - c0),
                invariant
                    self.wf(),
                    c0 == self.0.col,
                    n == self.1.col - self.0.col + 1,
                    self.0.col <= col <= self.1.col,
                ensures
                    out@ == above + row_run(row, c0, n),
                decreases self.1.col - col,
            {
                out.push(Point { row, col });
                assert(out@ == above + row_run(row, c0, col - c0 + 1));
                if col == self.1.col {
                    break ;
                }
                col += 1;
            }
            assert(out@ == rows_run(r0, row - r0 + 1, c0, n));
            if row == self.1.row {
                break ;
            }
            row += 1;
        }
        proof {
            lemma_points_exact(*self);
        }
        out
    }
}

impl From<(Point, Point)> for TBox {
    /// The rectangle spanned by two corners, given in any order.
    fn from(b: (Point, Point)) -> (r: TBox) {
        let (r0, r1) = if b.0.row <= b.1.row {
            (b.0.row, b.1.row)
        } else {
            (b.1.row, b.0.row)
        };
        let (c0, c1) = if b.0.col <= b.1.col {
            (b.0.col, b.1.col)
        } else {
            (b.1.col, b.0.col)
        };
        TBox(Point::from((r0, c0)), Point::from((r1, c1)))
    }
}

impl vstd::std_specs::convert::FromSpecImpl<(Point, Point)> for TBox {
    open spec fn obeys_from_spec() -> bool {
        true
    }

    open spec fn from_spec(b: (Point, Point)) -> TBox {
        TBox::spanning(b.0, b.1)
    }
}

/// A rectangle built from two corners is well formed and holds both.
pub proof fn lemma_spanning_holds_corners(a: Point, b: Point)
    ensures
        TBox::spanning(a, b).wf(),
        TBox::spanning(a, b).contains(a),
        TBox::spanning(a, b).contains(b),
        TBox::spanning(a, b) == TBox::spanning(b, a),
{
}

/// The points of `s` are in reading order, each strictly before the next.
pub open spec fn points_in_reading_order(s: Seq<Point>) -> bool {
    forall|i: int, j: int| 0 <= i < j < s.len() ==> reads_before(#[trigger] s[i], #[trigger] s[j])
}

/// `rows_run` lists the cells of its rows and columns, and those alone,
/// in reading order.
proof fn lemma_rows_run(r0: int, k: int, c0: int, n: int)
    requires
        0 <= r0,
        0 <= c0,
        0 <= k,
        0 <= n,
        r0 + k - 1 <= usize::MAX,
        c0 + n - 1 <= usize::MAX,
    ensures
        forall|i: int|
            0 <= i < rows_run(r0, k, c0, n).len() ==> r0 <= (#[trigger] rows_run(
                r0,
                k,
                c0,
                n,
            )[i]).row < r0 + k && c0 <= rows_run(r0, k, c0, n)[i].col < c0 + n,
        forall|p: Point|
            r0 <= p.row < r0 + k && c0 <= p.col < c0 + n ==> #[trigger] rows_run(
                r0,
                k,
                c0,
                n,
            ).contains(p),
        points_in_reading_order(rows_run(r0, k, c0, n)),
    decreases k,
{
    if k > 0 {
        lemma_rows_run(r0, k - 1, c0, n);
        let above = rows_run(r0, k - 1, c0, n);
        let row = row_run((r0 + k - 1) as usize, c0, n);
        let all = rows_run(r0, k, c0, n);
        assert(all == above + row);
        assert forall|i: int| 0 <= i < all.len() implies r0 <= (#[trigger] all[i]).row < r0 + k
            && c0 <= all[i].col < c0 + n by {
            if i < above.len() {
                assert(all[i] == above[i]);
            } else {
                assert(all[i] == row[i - above.len()]);
            }
        }
        assert forall|p: Point|
            r0 <= p.row < r0 + k && c0 <= p.col < c0 + n implies #[trigger] all.contains(p) by {
            if p.row < r0 + k - 1 {
                assert(above.contains(p));
                let i = choose|i: int| 0 <= i < above.len() && above[i] == p;
                assert(all[i] == p);
            } else {
                assert(row[p.col - c0] == p);
                assert(all[above.len() + p.col - c0] == p);
            }
        }
        assert forall|i: int, j: int| 0 <= i < j < all.len() implies reads_before(
            #[trigger] all[i],
            #[trigger] all[j],
        ) by {
            if j < above.len() {
                assert(all[i] == above[i] && all[j] == above[j]);
            } else if i < above.len() {
                assert(all[i] == above[i] && all[j] == row[j - above.len()]);
            } else {
                assert(all[i] == row[i - above.len()] && all[j] == row[j - above.len()]);
            }
        }
    }
}

/// The cells listed for a rectangle are the cells it holds, each once,
/// in reading order.
pub proof fn lemma_points_exact(b: TBox)
    ensures
        forall|p: Point| #[trigger] b.spec_points().contains(p) <==> b.wf() && b.contains(p),
        points_in_reading_order(b.spec_points()),
        b.spec_points().no_duplicates(),
{
    let s = b.spec_points();
    if b.wf() {
        let r0 = b.0.row as int;
        let c0 = b.0.col as int;
        let k = b.1.row - b.0.row + 1;
        let n = b.1.col - b.0.col + 1;
        lemma_rows_run(r0, k, c0, n);
        assert forall|p: Point| #[trigger] s.contains(p) implies b.contains(p) by {
            let i = choose|i: int| 0 <= i < s.len() && s[i] == p;
            assert(r0 <= s[i].row < r0 + k);
        }
    }
    assert forall|i: int, j: int| 0 <= i < s.len() && 0 <= j < s.len() && i != j implies s[i]
        != s[j] by {
        if i < j {
            assert(reads_before(s[i], s[j]));
        } else {
            assert(reads_before(s[j], s[i]));
        }
    }
}

/// The side of `b` that faces direction `d`, as a rectangle one cell thick.
pub open spec fn spec_border_in_dir(b: TBox, d: Direction) -> TBox {
    match d {
        Direction::Up => TBox::spanning(b.0, Point { row: b.0.row, col: b.1.col }),
        Direction::Dn => TBox::spanning(Point { row: b.1.row, col: b.0.col }, b.1),
        Direction::Lt => TBox::spanning(b.0, Point { row: b.1.row, col: b.0.col }),
        Direction::Rt => TBox::spanning(Point { row: b.0.row, col: b.1.col }, b.1),
    }
}

/// The top row, bottom row, left column or right column of `b`, for `d`
/// `Up`, `Dn`, `Lt` or `Rt`.
#[verifier::when_used_as_spec(spec_border_in_dir)]
pub fn border_in_dir(b: TBox, d: Direction) -> (r: TBox)
    ensures
        r == spec_border_in_dir(b, d),
        r.wf(),
        b.wf() ==> forall|p: Point|
            r.contains(p) <==> b.contains(p) && !(#[trigger] p.in_dir(d) matches Some(q)
                && b.contains(q)),
{
    match d {
        Direction::Up => TBox::from((b.0, Point::from((b.0.row, b.1.col)))),
        Direction::Dn => TBox::from((Point::from((b.1.row, b.0.col)), b.1)),
        Direction::Lt => TBox::from((b.0, Point::from((b.1.row, b.0.col)))),
        Direction::Rt => TBox::from((Point::from((b.0.row, b.1.col)), b.1)),
    }
}

/// Pairs a point with the direction `d`.
pub open spec fn tag(d: Direction) -> spec_fn(Point) -> (Point, Direction) {
    |p: Point| (p, d)
}

/// The cells just outside the side of `b` that faces `d`, in reading order,
/// each paired with `d`; none where those cells would have no coordinates.
pub open spec fn side_of(b: TBox, d: Direction) -> Seq<(Point, Direction)> {
    match border_in_dir(b, d).in_dir(d) {
        Some(strip) => strip.spec_points().map_values(tag(d)),
        None => Seq::empty(),
    }
}

/// The cells just outside `b`: above it, below it, left of it and right of
/// it, in this order, each paired with the direction that leads away from
/// the box.
pub open spec fn border_of(b: TBox) -> Seq<(Point, Direction)> {
    side_of(b, Direction::Up) + side_of(b, Direction::Dn) + side_of(b, Direction::Lt) + side_of(
        b,
        Direction::Rt,
    )
}

fn push_side(out: &mut Vec<(Point, Direction)>, b: TBox, d: Direction)
    ensures
        final(out)@ == old(out)@ + side_of(b, d),
{
    if let Some(strip) = border_in_dir(b, d).in_dir(d) {
        let cells = strip.points();
        let mut i: usize = 0;
        while i < cells.len()
            invariant
                i <= cells.len(),
                cells@ == strip.spec_points(),
                out@ == old(out)@ + cells@.take(i as int).map_values(tag(d)),
            decreases cells.len() - i,
        {
            out.push((cells[i], d));
            assert(cells@.take(i + 1) == cells@.take(i as int).push(cells@[i as int]));
            i += 1;
        }
        assert(cells@.take(cells@.len() as int) == cells@);
    }
}

/// Lists the probe points of `b`: the cells one step outside each of its
/// four sides. A side that touches the edge of the coordinate space has none.
pub fn border(b: TBox) -> (r: Vec<(Point, Direction)>)
    ensures
        r@ == border_of(b),
        b.wf() ==> forall|p: Point, d: Direction|
            #[trigger] r@.contains((p, d)) <==> is_probe(b, p, d),
{
    let mut out: Vec<(Point, Direction)> = Vec::new();
    push_side(&mut out, b, Direction::Up);
    push_side(&mut out, b, Direction::Dn);
    push_side(&mut out, b, Direction::Lt);
    push_side(&mut out, b, Direction::Rt);
    proof {
        if b.wf() {
            assert forall|p: Point, d: Direction| #[trigger]
                out@.contains((p, d)) <==> is_probe(b, p, d) by {
                lemma_border_exact(b, p, d);
            }
        }
    }
    out
}

/// `p` is a probe point of `b` for direction `d`: it lies outside `b`, and
/// one step against `d` leads from it into `b`.
pub open spec fn is_probe(b: TBox, p: Point, d: Direction) -> bool {
    &&& !b.contains(p)
    &&& p.in_dir(d.rev()) matches Some(q)
    &&& b.contains(q)
}

/// The cells listed outside one side of a well-formed rectangle are its
/// probe points for that side's direction.
proof fn lemma_side_exact(b: TBox, d: Direction, p: Point, e: Direction)
    requires
        b.wf(),
    ensures
        side_of(b, d).contains((p, e)) <==> e == d && is_probe(b, p, d),
{
    let side = side_of(b, d);
    if let Some(strip) = border_in_dir(b, d).in_dir(d) {
        let cells = strip.spec_points();
        lemma_points_exact(strip);
        assert(side.len() == cells.len());
        if side.contains((p, e)) {
            let i = choose|i: int| 0 <= i < side.len() && side[i] == (p, e);
            assert(cells[i] == p);
            assert(cells.contains(p));
        }
        if e == d && is_probe(b, p, d) {
            assert(cells.contains(p));
            let i = choose|i: int| 0 <= i < cells.len() && cells[i] == p;
            assert(side[i] == (p, e));
        }
    }
}

/// The probe points listed for a well-formed rectangle are the cells
/// just outside it, each with the direction that leads away from it: `(p, d)`
/// is listed exactly when `p` lies outside the rectangle and its neighbour
/// against `d` lies inside.
pub proof fn lemma_border_exact(b: TBox, p: Point, d: Direction)
    requires
        b.wf(),
    ensures
        border_of(b).contains((p, d)) <==> is_probe(b, p, d),
{
    let up = side_of(b, Direction::Up);
    let dn = side_of(b, Direction::Dn);
    let lt = side_of(b, Direction::Lt);
    let rt = side_of(b, Direction::Rt);
    lemma_side_exact(b, Direction::Up, p, d);
    lemma_side_exact(b, Direction::Dn, p, d);
    lemma_side_exact(b, Direction::Lt, p, d);
    lemma_side_exact(b, Direction::Rt, p, d);
    vstd::seq_lib::lemma_seq_concat_contains_all_elements(up, dn, (p, d));
    vstd::seq_lib::lemma_seq_concat_contains_all_elements(up + dn, lt, (p, d));
    vstd::seq_lib::lemma_seq_concat_contains_all_elements(up + dn + lt, rt, (p, d));
}

/// The rectangle spanned by the `i`-th and the next point of a polyline.
pub open spec fn segment(e: Seq<Point>, i: int) -> TBox {
    TBox::spanning(e[i], e[i + 1])
}

/// Whether `p` lies on the polyline `e`: it is the first point, or lies in
/// the rectangle spanned by two consecutive points.
pub open spec fn on_path(e: Seq<Point>, p: Point) -> bool {
    e.len() > 0 && (e[0] == p || exists|i: int|
        0 <= i < e.len() - 1 && (#[trigger] segment(e, i)).contains(p))
}

/// Whether `p` lies on the polyline `pth`, on a listed point or on the
/// straight run between two consecutive ones.
pub fn path_contains(pth: &Vec<Point>, p: Point) -> (r: bool)
    ensures
        r == on_path(pth@, p),
{
    if pth.len() == 0 {
        return false;
    }
    if pth[0] == p {
        return true;
    }
    let mut i: usize = 1;
    while i < pth.len()
        invariant
            1 <= i <= pth.len(),
            forall|j: int| 0 <= j < i - 1 ==> !(#[trigger] segment(pth@, j)).contains(p),
        decreases pth.len() - i,
    {
        if TBox::from((pth[i - 1], pth[i])).contains(p) {
            assert(segment(pth@, i - 1).contains(p));
            return true;
        }
        i += 1;
    }
    false
}

/// `p` lies on the straight run from `a` to `b`, which share a row or a column.
pub open spec fn between(a: Point, b: Point, p: Point) -> bool {
    ||| a.row == b.row && p.row == a.row && lo(a.col, b.col) <= p.col <= hi(a.col, b.col)
    ||| a.col == b.col && p.col == a.col && lo(a.row, b.row) <= p.row <= hi(a.row, b.row)
}

/// Every two consecutive points of `e` share a row or a column.
pub open spec fn axis_aligned(e: Seq<Point>) -> bool {
    forall|i: int|
        0 <= i < e.len() - 1 ==> (#[trigger] e[i]).row == e[i + 1].row || e[i].col == e[i + 1].col
}

/// Every point listed in a polyline lies on it.
pub proof fn lemma_listed_point_on_path(e: Seq<Point>, k: int)
    requires
        0 <= k < e.len(),
    ensures
        on_path(e, e[k]),
{
    if k > 0 {
        assert(segment(e, k - 1).contains(e[k]));
    }
}

/// Every point on the straight run between two consecutive points of a
/// polyline lies on it.
pub proof fn lemma_run_point_on_path(e: Seq<Point>, i: int, p: Point)
    requires
        0 <= i < e.len() - 1,
        between(e[i], e[i + 1], p),
    ensures
        on_path(e, p),
{
    assert(segment(e, i).contains(p));
}

/// On a polyline whose segments all run along a row or a column, the
/// points that lie on it are the first point and the points on those runs,
/// and no others.
pub proof fn lemma_on_path_exact(e: Seq<Point>, p: Point)
    requires
        axis_aligned(e),
    ensures
        on_path(e, p) <==> e.len() > 0 && (e[0] == p || exists|i: int|
            0 <= i < e.len() - 1 && #[trigger] between(e[i], e[i + 1], p)),
{
    if on_path(e, p) && e[0] != p {
        let i = choose|i: int| 0 <= i < e.len() - 1 && (#[trigger] segment(e, i)).contains(p);
        assert(e[i].row == e[i + 1].row || e[i].col == e[i + 1].col);
        assert(between(e[i], e[i + 1], p));
    }
    if e.len() > 0 && e[0] != p && exists|i: int|
        0 <= i < e.len() - 1 && #[trigger] between(e[i], e[i + 1], p) {
        let i = choose|i: int| 0 <= i < e.len() - 1 && #[trigger] between(e[i], e[i + 1], p);
        lemma_run_point_on_path(e, i, p);
    }
}

} // verus!
