//! Tracing a connector from a starting cell, turning at corners.

use vstd::prelude::*;
use vstd::set_lib::lemma_len_subset;
use crate::geometry::{axis_aligned, Direction, Point};
use crate::grid::{can_go, glyph_at, Grid, Lines};
use crate::grid::neighbor;
use crate::scan::{ahead, can_leave, lemma_scan_from_ends, room, scan_dir, scan_from};

verus! {

/// The cells of the grid, as a set of positions.
pub open spec fn grid_points(g: Grid) -> Set<Point> {
    Set::new(|p: Point| glyph_at(g, p) is Some)
}

/// The positions of row `r` in the first `n` columns.
pub open spec fn row_points(r: usize, n: nat) -> Set<Point> {
    Set::new(|p: Point| p.row == r && p.col < n)
}

/// The cells of the grid in the first `k` rows.
pub open spec fn points_upto(g: Grid, k: nat) -> Set<Point> {
    Set::new(|p: Point| p.row < k && glyph_at(g, p) is Some)
}

proof fn lemma_row_points_finite(r: usize, n: nat)
    ensures
        row_points(r, n).finite(),
    decreases n,
{
    if n == 0 {
        assert(row_points(r, n) =~= Set::empty());
    } else {
        lemma_row_points_finite(r, (n - 1) as nat);
        if n - 1 <= usize::MAX {
            let last = Point { row: r, col: (n - 1) as usize };
            assert(row_points(r, n) =~= row_points(r, (n - 1) as nat).insert(last));
        } else {
            assert(row_points(r, n) =~= row_points(r, (n - 1) as nat));
        }
    }
}

proof fn lemma_points_upto_finite(g: Grid, k: nat)
    ensures
        points_upto(g, k).finite(),
    decreases k,
{
    if k == 0 {
        assert(points_upto(g, k) =~= Set::empty());
    } else {
        lemma_points_upto_finite(g, (k - 1) as nat);
        if k - 1 < g.len() && k - 1 <= usize::MAX {
            let r = (k - 1) as usize;
            lemma_row_points_finite(r, g[k - 1].len());
            assert(points_upto(g, k) =~= points_upto(g, (k - 1) as nat).union(
                row_points(r, g[k - 1].len()),
            ));
        } else {
            assert(points_upto(g, k) =~= points_upto(g, (k - 1) as nat));
        }
    }
}

/// A grid has finitely many cells.
pub proof fn lemma_grid_points_finite(g: Grid)
    ensures
        grid_points(g).finite(),
{
    lemma_points_upto_finite(g, g.len());
    assert(grid_points(g) =~= points_upto(g, g.len()));
}

/// A trail is a list of grid cells in which no cell occurs twice.
pub open spec fn is_trail(g: Grid, acc: Seq<Point>) -> bool {
    &&& acc.no_duplicates()
    &&& forall|i: int| 0 <= i < acc.len() ==> glyph_at(g, #[trigger] acc[i]) is Some
}

/// A trail is no longer than the grid has cells.
pub proof fn lemma_trail_bound(g: Grid, acc: Seq<Point>)
    requires
        is_trail(g, acc),
    ensures
        grid_points(g).finite(),
        acc.len() <= grid_points(g).len(),
{
    lemma_grid_points_finite(g);
    acc.unique_seq_to_set();
    assert(acc.to_set().subset_of(grid_points(g))) by {
        assert forall|p: Point| acc.to_set().contains(p) implies grid_points(g).contains(p) by {
            let i = choose|i: int| 0 <= i < acc.len() && acc[i] == p;
            assert(glyph_at(g, acc[i]) is Some);
        }
    }
    lemma_len_subset(acc.to_set(), grid_points(g));
}

/// The state of a walk along a connector: the cell it stands on, the
/// direction it last moved or tried to move in, and whether the starting
/// cell is still to be reported.
pub struct Walk {
    pub start: bool,
    pub p: Point,
    pub d: Direction,
}

/// The directions a walk heading in `d` tries, in this order: straight on
/// first, then the two turns, `Up` before `Dn` and `Lt` before `Rt`. It
/// never turns back the way it came.
pub open spec fn turn_order(d: Direction) -> Seq<Direction> {
    match d {
        Direction::Up | Direction::Dn => seq![d, Direction::Lt, Direction::Rt],
        Direction::Lt | Direction::Rt => seq![d, Direction::Up, Direction::Dn],
    }
}

/// The walk after it has followed the run from its cell in direction `d`
/// to that run's end, together with the cell reached.
pub open spec fn follow(g: Grid, w: Walk, d: Direction) -> (Option<Point>, Walk) {
    match scan_from(g, w.p, d) {
        Some((q, _)) => (Some(q), Walk { start: false, p: q, d }),
        None => (None, Walk { start: false, p: w.p, d }),
    }
}

/// One step of a walk: the cell it reports, if any, and the walk afterwards.
///
/// Off the grid the walk reports nothing and stays as it is. A fresh walk
/// reports its starting cell. After that it leaves its cell in the first
/// direction of `turn_order` in which a connection leaves, follows the
/// straight run to its end and reports the cell there. Where no connection
/// leaves, it reports nothing and is left heading in the direction it tried last.
pub open spec fn advance(g: Grid, w: Walk) -> (Option<Point>, Walk) {
    let o = turn_order(w.d);
    if glyph_at(g, w.p) is None {
        (None, w)
    } else if w.start {
        (Some(w.p), Walk { start: false, p: w.p, d: w.d })
    } else if can_leave(g, w.p, o[0]) {
        follow(g, w, o[0])
    } else if can_leave(g, w.p, o[1]) {
        follow(g, w, o[1])
    } else if can_leave(g, w.p, o[2]) {
        follow(g, w, o[2])
    } else {
        (None, Walk { start: false, p: w.p, d: o[2] })
    }
}

/// A step that reports a cell reports a grid cell, leaves the walk standing
/// on it, and moves along one row or one column.
pub proof fn lemma_advance_on_grid(g: Grid, w: Walk)
    ensures
        advance(g, w).0 matches Some(q) ==> {
            &&& glyph_at(g, q) is Some
            &&& advance(g, w).1.p == q
            &&& !advance(g, w).1.start
            &&& (q.row == w.p.row || q.col == w.p.col)
            &&& (!w.start ==> q != w.p)
        },
        advance(g, w).0 is None ==> advance(g, w).1.p == w.p,
{
    let o = turn_order(w.d);
    lemma_scan_from_ends(g, w.p, o[0]);
    lemma_scan_from_ends(g, w.p, o[1]);
    lemma_scan_from_ends(g, w.p, o[2]);
}

/// The directions already ruled out while looking for a way on.
struct Tried {
    up: bool,
    dn: bool,
    lt: bool,
    rt: bool,
}

impl Tried {
    spec fn nothing() -> Tried {
        Tried { up: false, dn: false, lt: false, rt: false }
    }

    spec fn with(self, d: Direction) -> Tried {
        match d {
            Direction::Up => Tried { up: true, ..self },
            Direction::Dn => Tried { dn: true, ..self },
            Direction::Lt => Tried { lt: true, ..self },
            Direction::Rt => Tried { rt: true, ..self },
        }
    }

    /// What is ruled out once the first `k` directions of the turn order of
    /// a walk heading in `d` have failed: those, and the way back.
    spec fn after(d: Direction, k: int) -> Tried
        decreases k,
    {
        if k <= 0 {
            Tried::nothing().with(d.rev())
        } else {
            Tried::after(d, k - 1).with(turn_order(d)[k - 1])
        }
    }

    /// The first direction not ruled out, in the order `Up`, `Dn`, `Lt`, `Rt`.
    spec fn first_left(self) -> Option<Direction> {
        if !self.up {
            Some(Direction::Up)
        } else if !self.dn {
            Some(Direction::Dn)
        } else if !self.lt {
            Some(Direction::Lt)
        } else if !self.rt {
            Some(Direction::Rt)
        } else {
            None
        }
    }

    /// Picking the first direction not ruled out walks through the turn order.
    proof fn lemma_first_left(d: Direction, k: int)
        requires
            1 <= k <= 3,
        ensures
            k < 3 ==> Tried::after(d, k).first_left() == Some(turn_order(d)[k]),
            k == 3 ==> Tried::after(d, k).first_left() is None,
    {
        reveal_with_fuel(Tried::after, 4);
    }

    fn only(d: Direction) -> (r: Tried)
        ensures
            r == Tried::nothing().with(d),
    {
        let mut t = Tried { up: false, dn: false, lt: false, rt: false };
        t.mark(d);
        t
    }

    fn mark(&mut self, d: Direction)
        ensures
            *final(self) == old(self).with(d),
    {
        match d {
            Direction::Up => { self.up = true; },
            Direction::Dn => { self.dn = true; },
            Direction::Lt => { self.lt = true; },
            Direction::Rt => { self.rt = true; },
        }
    }

    fn untried(&self) -> (r: Option<Direction>)
        ensures
            r == self.first_left(),
    {
        if !self.up {
            Some(Direction::Up)
        } else if !self.dn {
            Some(Direction::Dn)
        } else if !self.lt {
            Some(Direction::Lt)
        } else if !self.rt {
            Some(Direction::Rt)
        } else {
            None
        }
    }
}

/// Whether a connection leaves `p` in direction `d`.
pub fn leaves(lines: &Lines, p: Point, d: Direction) -> (r: bool)
    ensures
        r == can_leave(lines@, p, d),
{
    let opens = match lines.at(p) {
        Some(c) => can_go(c, d),
        None => false,
    };
    let accepted = match lines.in_dir(p, d) {
        Some((_, n)) => can_go(n, d.rev()),
        None => false,
    };
    opens && accepted
}

/// A walk along a connector that hands out its corner points one at a time.
pub struct PathIter<'l> {
    pub start: bool,
    pub lines: &'l Lines,
    pub p: Point,
    pub d: Direction,
}

impl<'l> View for PathIter<'l> {
    type V = Walk;

    open spec fn view(&self) -> Walk {
        Walk { start: self.start, p: self.p, d: self.d }
    }
}

impl<'l> PathIter<'l> {
    /// A fresh walk over `lines` that starts on `p` heading in direction `d`.
    pub fn new(lines: &'l Lines, p: Point, d: Direction) -> (r: PathIter<'l>)
        ensures
            r@ == (Walk { start: true, p, d }),
            r.lines == lines,
    {
        PathIter { start: true, lines, p, d }
    }

    /// Takes one step: returns the next corner point of the connector, or
    /// `None` when the walk is off the grid or no connection leaves its cell.
    pub fn next(&mut self) -> (r: Option<Point>)
        ensures
            (r, final(self)@) == advance(old(self).lines@, old(self)@),
            final(self).lines == old(self).lines,
    {
        if self.lines.at(self.p).is_none() {
            return None;
        } else if self.start {
            self.start = false;
            return Some(self.p);
        }
        let ghost g = self.lines@;
        let ghost o = turn_order(self.d);
        let ghost mut k: int = 0;
        let p = self.p;
        let mut d = self.d;
        let mut cant_go = Tried::only(d.rev());
        loop
            invariant
                0 <= k < 3,
                d == o[k],
                o == turn_order(old(self).d),
                g == self.lines@,
                p == self.p,
                *self == (PathIter { d: self.d, ..*old(self) }),
                !self.start,
                glyph_at(g, p) is Some,
                forall|j: int| 0 <= j < k ==> !can_leave(g, p, #[trigger] o[j]),
                cant_go == Tried::after(old(self).d, k),
            decreases 3 - k,
        {
            if leaves(self.lines, p, d) {
                if let Some((pnext, _)) = scan_dir(self.lines, p, d) {
                    self.p = pnext;
                    self.d = d;
                    return Some(pnext);
                }
            }
            cant_go.mark(d);
            proof {
                k = k + 1;
                Tried::lemma_first_left(old(self).d, k);
            }
            match cant_go.untried() {
                Some(dnext) => {
                    d = dnext;
                },
                None => {
                    self.d = d;
                    return None;
                },
            }
        }
    }
}

/// The corner points a walk reports from state `w` on, after it has
/// reported `acc`: it goes on until a step reports nothing or a cell that
/// was reported before, and that cell is not taken up again.
pub open spec fn drain(g: Grid, w: Walk, acc: Seq<Point>) -> Seq<Point>
    decreases grid_points(g).len() - acc.len(),
    when is_trail(g, acc)
    via drain_terminates
{
    match advance(g, w) {
        (Some(q), next) => if acc.contains(q) {
            acc
        } else {
            drain(g, next, acc.push(q))
        },
        (None, _) => acc,
    }
}

#[via_fn]
proof fn drain_terminates(g: Grid, w: Walk, acc: Seq<Point>) {
    if let (Some(q), next) = advance(g, w) {
        if !acc.contains(q) {
            lemma_trail_grows(g, w, acc);
            lemma_trail_bound(g, acc.push(q));
        }
    }
}

/// A trail stays a trail when a step's new cell is added to it.
pub proof fn lemma_trail_grows(g: Grid, w: Walk, acc: Seq<Point>)
    requires
        is_trail(g, acc),
        advance(g, w).0 matches Some(q) && !acc.contains(q),
    ensures
        is_trail(g, acc.push(advance(g, w).0.unwrap())),
{
    lemma_advance_on_grid(g, w);
}

/// The polyline of the connector that leaves `p` in direction `d`: empty
/// where the glyph at `p` is not open towards `d`, and else the corner
/// points of the walk from `p`, starting with `p` itself.
pub open spec fn path_from(g: Grid, p: Point, d: Direction) -> Seq<Point> {
    if glyph_at(g, p) matches Some(c) && can_go(c, d) {
        drain(g, Walk { start: true, p, d }, Seq::empty())
    } else {
        Seq::empty()
    }
}

/// Whether `q` occurs in `v`.
pub fn has_point(v: &Vec<Point>, q: Point) -> (r: bool)
    ensures
        r == v@.contains(q),
{
    let mut i: usize = 0;
    while i < v.len()
        invariant
            i <= v.len(),
            forall|j: int| 0 <= j < i ==> v@[j] != q,
        decreases v.len() - i,
    {
        if v[i] == q {
            return true;
        }
        i += 1;
    }
    false
}

/// Traces the connector that leaves `p` in direction `d` and returns its
/// polyline: `p`, then each corner in turn, then the far end. The trace
/// stops before a cell that is already on the polyline, so a loop in the
/// diagram ends it.
pub fn scan_path(lines: &Lines, p: Point, d: Direction) -> (r: Vec<Point>)
    ensures
        r@ == path_from(lines@, p, d),
        is_trail(lines@, r@),
        axis_aligned(r@),
        r@.len() > 0 <==> (glyph_at(lines@, p) matches Some(c) && can_go(c, d)),
        r@.len() > 0 ==> r@[0] == p,
{
    let open = match lines.at(p) {
        Some(c) => can_go(c, d),
        None => false,
    };
    if !open {
        return Vec::new();
    }
    let mut ret: Vec<Point> = Vec::new();
    let mut it = PathIter::new(lines, p, d);
    loop
        invariant
            it.lines == lines,
            is_trail(lines@, ret@),
            drain(lines@, it@, ret@) == path_from(lines@, p, d),
        decreases grid_points(lines@).len() - ret@.len(),
    {
        let ghost before = it@;
        match it.next() {
            Some(q) => {
                if has_point(&ret, q) {
                    proof {
                        lemma_path_shape(lines@, p, d);
                    }
                    return ret;
                }
                proof {
                    lemma_trail_grows(lines@, before, ret@);
                    lemma_trail_bound(lines@, ret@.push(q));
                }
                ret.push(q);
            },
            None => {
                proof {
                    lemma_path_shape(lines@, p, d);
                }
                return ret;
            },
        }
    }
}

/// What a walk reports begins with what it had reported before, and is a trail.
pub proof fn lemma_drain_extends(g: Grid, w: Walk, acc: Seq<Point>)
    requires
        is_trail(g, acc),
    ensures
        is_trail(g, drain(g, w, acc)),
        acc.is_prefix_of(drain(g, w, acc)),
    decreases grid_points(g).len() - acc.len(),
{
    if let (Some(q), next) = advance(g, w) {
        if !acc.contains(q) {
            lemma_trail_grows(g, w, acc);
            lemma_trail_bound(g, acc.push(q));
            lemma_drain_extends(g, next, acc.push(q));
        }
    }
}

/// A walk moves along one row or one column at a time: if the cells it has
/// reported are so aligned and it stands on the last of them, then so is
/// all that it reports.
pub proof fn lemma_drain_axis_aligned(g: Grid, w: Walk, acc: Seq<Point>)
    requires
        is_trail(g, acc),
        axis_aligned(acc),
        w.start ==> acc.len() == 0,
        !w.start ==> acc.len() > 0 && acc.last() == w.p,
    ensures
        axis_aligned(drain(g, w, acc)),
    decreases grid_points(g).len() - acc.len(),
{
    if let (Some(q), next) = advance(g, w) {
        if !acc.contains(q) {
            lemma_trail_grows(g, w, acc);
            lemma_trail_bound(g, acc.push(q));
            lemma_advance_on_grid(g, w);
            let longer = acc.push(q);
            assert forall|i: int| 0 <= i < longer.len() - 1 implies (#[trigger] longer[i]).row
                == longer[i + 1].row || longer[i].col == longer[i + 1].col by {
                if i < acc.len() - 1 {
                    assert(acc[i].row == acc[i + 1].row || acc[i].col == acc[i + 1].col);
                }
            }
            lemma_drain_axis_aligned(g, next, longer);
        }
    }
}

/// The polyline of a connector lists grid cells, none of them twice, and
/// each next to the one before along a row or a column. Where the glyph at
/// `p` is open towards `d` it is not empty and begins with `p`.
pub proof fn lemma_path_shape(g: Grid, p: Point, d: Direction)
    ensures
        is_trail(g, path_from(g, p, d)),
        axis_aligned(path_from(g, p, d)),
        (glyph_at(g, p) matches Some(c) && can_go(c, d)) ==> path_from(g, p, d).len() > 0
            && path_from(g, p, d)[0] == p,
        !(glyph_at(g, p) matches Some(c) && can_go(c, d)) ==> path_from(g, p, d).len() == 0,
{
    if glyph_at(g, p) matches Some(c) && can_go(c, d) {
        let fresh = Walk { start: true, p, d };
        let empty = Seq::<Point>::empty();
        lemma_drain_extends(g, fresh, empty);
        lemma_drain_axis_aligned(g, fresh, empty);
        let next = advance(g, fresh).1;
        let first = empty.push(p);
        lemma_trail_grows(g, fresh, empty);
        assert(path_from(g, p, d) == drain(g, next, first));
        lemma_drain_extends(g, next, first);
        assert(first[0] == p);
        assert(path_from(g, p, d).subrange(0, 1)[0] == p);
    }
}

/// `m` lies on the ray from `p` in direction `d` strictly between `p` and `q`.
pub open spec fn strictly_between(p: Point, d: Direction, m: Point, q: Point) -> bool {
    ahead(p, d, m) && ahead(m, d, q) && m != p && m != q
}

/// A run that starts part-way along another run in the same direction
/// ends where that one ends, and a connection leaves its first cell.
pub proof fn lemma_scan_from_mid_run(g: Grid, p: Point, d: Direction, m: Point)
    requires
        scan_from(g, p, d) matches Some((q, _)) && strictly_between(p, d, m, q),
    ensures
        scan_from(g, m, d) == scan_from(g, p, d),
        can_leave(g, m, d),
    decreases room(g, p, d),
{
    lemma_scan_from_ends(g, p, d);
    let (n, c) = neighbor(g, p, d).unwrap();
    if m == n {
        lemma_scan_from_ends(g, n, d);
    } else {
        lemma_scan_from_mid_run(g, n, d, m);
    }
}

/// Two walks in the same state, whose reported cells differ in the first
/// one only, report the same cells from then on, as long as neither comes
/// upon the other's first cell.
pub proof fn lemma_drain_other_head(g: Grid, w: Walk, a: Seq<Point>, b: Seq<Point>)
    requires
        is_trail(g, a),
        is_trail(g, b),
        a.len() > 0,
        b == a.update(0, b[0]),
        !drain(g, w, a).contains(b[0]),
        !drain(g, w, b).contains(a[0]),
    ensures
        drain(g, w, b) == drain(g, w, a).update(0, b[0]),
    decreases grid_points(g).len() - a.len(),
{
    lemma_drain_extends(g, w, a);
    lemma_drain_extends(g, w, b);
    if a[0] == b[0] {
        assert(a =~= b);
        assert(drain(g, w, a).update(0, b[0]) =~= drain(g, w, a));
    } else if let (Some(x), next) = advance(g, w) {
        if a.contains(x) {
            let i = choose|i: int| 0 <= i < a.len() && a[i] == x;
            if i == 0 {
                if !b.contains(x) {
                    lemma_trail_grows(g, w, b);
                    lemma_drain_extends(g, next, b.push(x));
                    assert(b.push(x)[b.len() as int] == x);
                    assert(drain(g, w, b)[b.len() as int] == x);
                    assert(false);
                }
            } else {
                assert(b[i] == x);
            }
        } else if b.contains(x) {
            let i = choose|i: int| 0 <= i < b.len() && b[i] == x;
            if i == 0 {
                lemma_trail_grows(g, w, a);
                lemma_drain_extends(g, next, a.push(x));
                assert(a.push(x)[a.len() as int] == x);
                assert(drain(g, w, a)[a.len() as int] == x);
                assert(false);
            } else {
                assert(a[i] == x);
            }
        } else {
            lemma_trail_grows(g, w, a);
            lemma_trail_grows(g, w, b);
            lemma_trail_bound(g, a.push(x));
            assert(b.push(x) =~= a.push(x).update(0, b[0]));
            lemma_drain_other_head(g, next, a.push(x), b.push(x));
        }
    }
}

/// A trace that starts part-way along the first straight run of a
/// connector, heading the same way, yields that connector's polyline with
/// the starting cell in place of the first point.
///
/// This holds as long as neither trace comes upon the other's starting
/// cell, which happens only where the connector loops back onto its first run.
pub proof fn lemma_path_from_mid_run(g: Grid, p: Point, d: Direction, m: Point)
    requires
        can_leave(g, p, d),
        scan_from(g, p, d) matches Some((q, _)) && strictly_between(p, d, m, q),
        !path_from(g, p, d).contains(m),
        !path_from(g, m, d).contains(p),
    ensures
        path_from(g, m, d) == path_from(g, p, d).update(0, m),
{
    lemma_scan_from_ends(g, p, d);
    lemma_scan_from_mid_run(g, p, d, m);
    lemma_scan_from_ends(g, m, d);
    let q = scan_from(g, p, d).unwrap().0;
    let empty = Seq::<Point>::empty();
    let at_end = Walk { start: false, p: q, d };
    // The first two steps of each trace: the start, then the end of the run.
    let fresh_p = Walk { start: true, p, d };
    let left_p = Walk { start: false, p, d };
    let fresh_m = Walk { start: true, p: m, d };
    let left_m = Walk { start: false, p: m, d };
    assert(advance(g, fresh_p) == (Some(p), left_p));
    assert(advance(g, fresh_m) == (Some(m), left_m));
    assert(turn_order(d)[0] == d);
    assert(advance(g, left_p) == (Some(q), at_end));
    assert(advance(g, left_m) == (Some(q), at_end));
    let one_p = empty.push(p);
    let one_m = empty.push(m);
    lemma_trail_grows(g, fresh_p, empty);
    lemma_trail_grows(g, fresh_m, empty);
    assert(!one_p.contains(q));
    assert(!one_m.contains(q));
    lemma_trail_grows(g, left_p, one_p);
    lemma_trail_grows(g, left_m, one_m);
    let a = one_p.push(q);
    let b = one_m.push(q);
    assert(path_from(g, p, d) == drain(g, left_p, one_p));
    assert(drain(g, left_p, one_p) == drain(g, at_end, a));
    assert(path_from(g, m, d) == drain(g, left_m, one_m));
    assert(drain(g, left_m, one_m) == drain(g, at_end, b));
    assert(b =~= a.update(0, m));
    lemma_drain_other_head(g, at_end, a, b);
}

/// A walk that has reported one cell less at the front reports the same
/// cells from then on, as long as it does not come upon that cell.
pub proof fn lemma_drain_without_head(g: Grid, w: Walk, a: Seq<Point>)
    requires
        is_trail(g, a),
        a.len() > 0,
        !drain(g, w, a.skip(1)).contains(a[0]),
    ensures
        drain(g, w, a.skip(1)) == drain(g, w, a).skip(1),
    decreases grid_points(g).len() - a.len(),
{
    let b = a.skip(1);
    assert(is_trail(g, b)) by {
        assert forall|i: int| 0 <= i < b.len() implies glyph_at(g, #[trigger] b[i]) is Some by {
            assert(b[i] == a[i + 1]);
        }
        assert forall|i: int, j: int| 0 <= i < b.len() && 0 <= j < b.len() && i != j implies b[i]
            != b[j] by {
            assert(b[i] == a[i + 1] && b[j] == a[j + 1]);
        }
    }
    lemma_drain_extends(g, w, b);
    if let (Some(x), next) = advance(g, w) {
        if b.contains(x) {
            let i = choose|i: int| 0 <= i < b.len() && b[i] == x;
            assert(a[i + 1] == x);
        } else if a.contains(x) {
            let i = choose|i: int| 0 <= i < a.len() && a[i] == x;
            if i > 0 {
                assert(b[i - 1] == x);
            }
            lemma_trail_grows(g, w, b);
            lemma_drain_extends(g, next, b.push(x));
            assert(b.push(x)[b.len() as int] == x);
            assert(drain(g, w, b)[b.len() as int] == x);
            assert(false);
        } else {
            lemma_trail_grows(g, w, a);
            lemma_trail_bound(g, a.push(x));
            assert(b.push(x) =~= a.push(x).skip(1));
            lemma_drain_without_head(g, next, a.push(x));
        }
    }
}

/// A trace that starts on the far end of the first straight run of a
/// connector, heading the same way, yields the rest of that connector's
/// polyline.
///
/// This holds where the glyph at the far end is open towards that
/// direction, so that a trace can start there at all, and as long as the
/// trace does not come back upon the connector's first cell.
pub proof fn lemma_path_from_run_end(g: Grid, p: Point, d: Direction)
    requires
        can_leave(g, p, d),
        scan_from(g, p, d) matches Some((q, c)) && can_go(c, d) && !path_from(g, q, d).contains(p),
    ensures
        path_from(g, scan_from(g, p, d).unwrap().0, d) == path_from(g, p, d).skip(1),
{
    lemma_scan_from_ends(g, p, d);
    let q = scan_from(g, p, d).unwrap().0;
    let empty = Seq::<Point>::empty();
    let at_end = Walk { start: false, p: q, d };
    let fresh_p = Walk { start: true, p, d };
    let left_p = Walk { start: false, p, d };
    let fresh_q = Walk { start: true, p: q, d };
    assert(advance(g, fresh_p) == (Some(p), left_p));
    assert(advance(g, fresh_q) == (Some(q), at_end));
    assert(turn_order(d)[0] == d);
    assert(advance(g, left_p) == (Some(q), at_end));
    let one_p = empty.push(p);
    let one_q = empty.push(q);
    lemma_trail_grows(g, fresh_p, empty);
    lemma_trail_grows(g, fresh_q, empty);
    assert(!one_p.contains(q));
    lemma_trail_grows(g, left_p, one_p);
    let a = one_p.push(q);
    assert(path_from(g, p, d) == drain(g, left_p, one_p));
    assert(drain(g, left_p, one_p) == drain(g, at_end, a));
    assert(path_from(g, q, d) == drain(g, at_end, one_q));
    assert(one_q =~= a.skip(1));
    lemma_drain_without_head(g, at_end, a);
}

} // verus!
