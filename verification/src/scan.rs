//! Straight runs, top-left corners and complete boxes.

use vstd::prelude::*;
use crate::geometry::{reads_before, Direction, Point, TBox};
use crate::grid::{
    can_go, cells_of, cells_upto, fits, glyph_at, in_reading_order, is_glyph, lemma_cells_of,
    lemma_only_glyphs_connect, neighbor, row_cells, Grid, Lines,
};

verus! {

/// An upper bound on the number of steps that stay on the grid when walking
/// from `p` in direction `d`.
pub open spec fn room(g: Grid, p: Point, d: Direction) -> nat {
    match d {
        Direction::Up => p.row as nat,
        Direction::Lt => p.col as nat,
        Direction::Dn => if p.row < g.len() {
            (g.len() - p.row) as nat
        } else {
            0
        },
        Direction::Rt => if p.row < g.len() && p.col < g[p.row as int].len() {
            (g[p.row as int].len() - p.col) as nat
        } else {
            0
        },
    }
}

/// The cell `p` itself with its character, if it is on the grid.
pub open spec fn here(g: Grid, p: Point) -> Option<(Point, char)> {
    match glyph_at(g, p) {
        Some(c) => Some((p, c)),
        None => None,
    }
}

/// Where a straight run from `p` in direction `d` ends.
///
/// The run advances to the next cell while that cell accepts a connection
/// from the side it is entered through. It ends on the cell before the first
/// one that does not, and on the first cell entered that does not itself
/// connect onward in `d`.
pub open spec fn scan_from(g: Grid, p: Point, d: Direction) -> Option<(Point, char)>
    decreases room(g, p, d),
{
    match neighbor(g, p, d) {
        Some((q, c)) => if !can_go(c, d.rev()) {
            here(g, p)
        } else if !can_go(c, d) {
            Some((q, c))
        } else {
            scan_from(g, q, d)
        },
        None => here(g, p),
    }
}

/// `q` lies on the ray from `p` in direction `d`, `p` included.
pub open spec fn ahead(p: Point, d: Direction, q: Point) -> bool {
    match d {
        Direction::Up => q.col == p.col && q.row <= p.row,
        Direction::Dn => q.col == p.col && q.row >= p.row,
        Direction::Lt => q.row == p.row && q.col <= p.col,
        Direction::Rt => q.row == p.row && q.col >= p.col,
    }
}

/// Whether a connection leaves `p` in direction `d`: the glyph at `p` is
/// open towards `d` and the next cell is open towards `p`.
pub open spec fn can_leave(g: Grid, p: Point, d: Direction) -> bool {
    &&& glyph_at(g, p) matches Some(c)
    &&& can_go(c, d)
    &&& neighbor(g, p, d) matches Some((_, n))
    &&& can_go(n, d.rev())
}

/// A run yields nothing only from a start off the grid. It ends on a grid
/// cell on the ray from its start and carries that cell's character. It
/// moves at all exactly when the next cell accepts the connection, and
/// where it has moved no connection leaves its last cell in that direction.
pub proof fn lemma_scan_from_ends(g: Grid, p: Point, d: Direction)
    ensures
        scan_from(g, p, d) is None ==> glyph_at(g, p) is None,
        scan_from(g, p, d) matches Some((q, c)) ==> glyph_at(g, q) == Some(c) && ahead(p, d, q),
        scan_from(g, p, d) matches Some((q, _)) ==> (q != p <==> (neighbor(g, p, d) matches Some(
            (_, n),
        ) && can_go(n, d.rev()))),
        scan_from(g, p, d) matches Some((q, _)) ==> (q != p ==> !can_leave(g, q, d)),
    decreases room(g, p, d),
{
    match neighbor(g, p, d) {
        Some((q, c)) => {
            if can_go(c, d.rev()) && can_go(c, d) {
                lemma_scan_from_ends(g, q, d);
            }
        },
        None => {},
    }
}

/// Walks the straight run from `p` in direction `d` and returns the last
/// cell on it with its character; `None` only when `p` is off the grid.
pub fn scan_dir(lines: &Lines, p: Point, d: Direction) -> (r: Option<(Point, char)>)
    ensures
        r == scan_from(lines@, p, d),
        r is None ==> glyph_at(lines@, p) is None,
        r matches Some((q, c)) ==> glyph_at(lines@, q) == Some(c) && ahead(p, d, q),
{
    let mut cur = p;
    loop
        invariant
            scan_from(lines@, cur, d) == scan_from(lines@, p, d),
        ensures
            scan_from(lines@, p, d) == here(lines@, cur),
        decreases room(lines@, cur, d),
    {
        match lines.in_dir(cur, d) {
            Some((q, c)) => {
                if !can_go(c, d.rev()) {
                    break ;
                }
                cur = q;
                if !can_go(c, d) {
                    proof {
                        lemma_scan_from_ends(lines@, p, d);
                    }
                    return Some((cur, c));
                }
            },
            None => {
                break ;
            },
        }
    }
    proof {
        lemma_scan_from_ends(lines@, p, d);
    }
    match lines.at(cur) {
        Some(c) => Some((cur, c)),
        None => None,
    }
}

/// Whether the cell at `p` has the shape of a box's top-left corner: its
/// glyph opens down and to the right, the cell to its right opens to the
/// left, and the cell below it opens upwards.
pub open spec fn is_top_left(g: Grid, p: Point) -> bool {
    &&& glyph_at(g, p) matches Some(c)
    &&& can_go(c, Direction::Dn)
    &&& can_go(c, Direction::Rt)
    &&& neighbor(g, p, Direction::Rt) matches Some((_, r))
    &&& can_go(r, Direction::Lt)
    &&& neighbor(g, p, Direction::Dn) matches Some((_, b))
    &&& can_go(b, Direction::Up)
}

/// The test that picks the top-left corners out of the cells of `g`.
pub open spec fn corner_test(g: Grid) -> spec_fn((Point, char)) -> bool {
    |cell: (Point, char)| is_top_left(g, cell.0)
}

/// The cells of `g` that look like a top-left corner, in reading order.
pub open spec fn top_lefts_of(g: Grid) -> Seq<(Point, char)> {
    cells_of(g).filter(corner_test(g))
}

/// Picking cells out of a list in reading order leaves them in reading order.
proof fn lemma_filter_keeps_order(s: Seq<(Point, char)>, pred: spec_fn((Point, char)) -> bool)
    requires
        in_reading_order(s),
    ensures
        in_reading_order(s.filter(pred)),
    decreases s.len(),
{
    reveal(Seq::filter);
    if s.len() > 0 {
        let front = s.drop_last();
        lemma_filter_keeps_order(front, pred);
        let kept = front.filter(pred);
        let all = s.filter(pred);
        assert forall|i: int, j: int| 0 <= i < j < all.len() implies reads_before(
            (#[trigger] all[i]).0,
            (#[trigger] all[j]).0,
        ) by {
            if j < kept.len() {
                assert(all[i] == kept[i] && all[j] == kept[j]);
            } else {
                assert(all[i] == kept[i] && all[j] == s.last());
                assert(kept.contains(kept[i]));
                front.lemma_filter_contains_rev(pred, kept[i]);
                let m = choose|m: int| 0 <= m < front.len() && front[m] == kept[i];
                assert(s[m] == kept[i] && s[s.len() - 1] == s.last());
            }
        }
    }
}

/// The corner candidates are the cells that pass the corner test, each
/// with its character, once, and in reading order.
pub proof fn lemma_top_lefts_exact(g: Grid)
    requires
        fits(g),
    ensures
        forall|i: int|
            0 <= i < top_lefts_of(g).len() ==> is_top_left(g, (#[trigger] top_lefts_of(g)[i]).0)
                && glyph_at(g, top_lefts_of(g)[i].0) == Some(top_lefts_of(g)[i].1),
        forall|p: Point|
            is_top_left(g, p) ==> top_lefts_of(g).contains(
                (p, (#[trigger] glyph_at(g, p)).unwrap()),
            ),
        in_reading_order(top_lefts_of(g)),
{
    let cells = cells_of(g);
    let test = corner_test(g);
    let found = top_lefts_of(g);
    lemma_cells_of(g);
    lemma_filter_keeps_order(cells, test);
    assert forall|i: int| 0 <= i < found.len() implies is_top_left(g, (#[trigger] found[i]).0)
        && glyph_at(g, found[i].0) == Some(found[i].1) by {
        cells.lemma_filter_pred(test, i);
        assert(found.contains(found[i]));
        cells.lemma_filter_contains_rev(test, found[i]);
        let m = choose|m: int| 0 <= m < cells.len() && cells[m] == found[i];
        assert(glyph_at(g, cells[m].0) == Some(cells[m].1));
    }
    assert forall|p: Point| is_top_left(g, p) implies found.contains(
        (p, (#[trigger] glyph_at(g, p)).unwrap()),
    ) by {
        let cell = (p, glyph_at(g, p).unwrap());
        let m = choose|m: int| 0 <= m < cells.len() && cells[m] == cell;
        assert(test(cells[m]));
        cells.lemma_filter_contains(test, m);
    }
}

/// Finds every cell that looks like the top-left corner of a box, in
/// reading order, each with its glyph.
pub fn top_lefts(lines: &Lines) -> (r: Vec<(Point, char)>)
    ensures
        r@ == top_lefts_of(lines@),
        forall|i: int|
            0 <= i < r@.len() ==> is_top_left(lines@, (#[trigger] r@[i]).0) && glyph_at(
                lines@,
                r@[i].0,
            ) == Some(r@[i].1),
        forall|p: Point|
            is_top_left(lines@, p) ==> r@.contains((p, (#[trigger] glyph_at(lines@, p)).unwrap())),
        in_reading_order(r@),
{
    let mut ret: Vec<(Point, char)> = Vec::new();
    let mut row: usize = 0;
    proof {
        reveal(Seq::filter);
    }
    while row < lines.0.len()
        invariant
            row <= lines.0.len(),
            ret@ == cells_upto(lines@, row as int).filter(corner_test(lines@)),
        decreases lines.0.len() - row,
    {
        let line = &lines.0[row];
        let ghost above = cells_upto(lines@, row as int);
        let mut col: usize = 0;
        assert(above + row_cells(lines@, row as int, 0) == above);
        while col < line.len()
            invariant
                row < lines.0.len(),
                line == lines.0[row as int],
                col <= line.len(),
                above == cells_upto(lines@, row as int),
                ret@ == (above + row_cells(lines@, row as int, col as int)).filter(
                    corner_test(lines@),
                ),
            decreases line.len() - col,
        {
            let c = line[col];
            let p = Point { row, col };
            let right_opens = match lines.in_dir(p, Direction::Rt) {
                Some((_, r)) => can_go(r, Direction::Lt),
                None => false,
            };
            let below_opens = match lines.in_dir(p, Direction::Dn) {
                Some((_, b)) => can_go(b, Direction::Up),
                None => false,
            };
            proof {
                let before = above + row_cells(lines@, row as int, col as int);
                assert(above + row_cells(lines@, row as int, col + 1) == before.push((p, c)));
                before.lemma_filter_push((p, c), corner_test(lines@));
            }
            if can_go(c, Direction::Dn) && can_go(c, Direction::Rt) && right_opens && below_opens {
                ret.push((p, c));
            }
            col += 1;
        }
        row += 1;
    }
    proof {
        lines.lemma_view_fits();
        lemma_top_lefts_exact(lines@);
    }
    ret
}

/// The box whose top-left corner is `tl`, if the outline closes: the run
/// right and then down from `tl` must end on the same cell as the run down
/// and then right.
pub open spec fn box_at(g: Grid, tl: Point) -> Option<TBox> {
    match scan_from(g, tl, Direction::Rt) {
        Some(tr) => match scan_from(g, tl, Direction::Dn) {
            Some(bl) => match scan_from(g, bl.0, Direction::Rt) {
                Some(br) => match scan_from(g, tr.0, Direction::Dn) {
                    Some(br2) => if br2 == br {
                        Some(TBox(tl, br.0))
                    } else {
                        None
                    },
                    None => None,
                },
                None => None,
            },
            None => None,
        },
        None => None,
    }
}

/// Maps a corner candidate to the box it closes, if any.
pub open spec fn box_test(g: Grid) -> spec_fn((Point, char)) -> Option<TBox> {
    |cell: (Point, char)| box_at(g, cell.0)
}

/// The boxes of `g`: one for each top-left corner whose outline closes, in
/// the reading order of those corners.
pub open spec fn boxes_of(g: Grid) -> Seq<TBox> {
    top_lefts_of(g).filter_map(box_test(g))
}

/// A box that closes is well formed: its second corner lies right of and
/// below its first, or on it.
pub proof fn lemma_box_at_wf(g: Grid, tl: Point)
    ensures
        box_at(g, tl) matches Some(b) ==> b.wf() && b.0 == tl && glyph_at(g, b.1) is Some,
{
    if let Some(tr) = scan_from(g, tl, Direction::Rt) {
        if let Some(bl) = scan_from(g, tl, Direction::Dn) {
            lemma_scan_from_ends(g, tl, Direction::Dn);
            lemma_scan_from_ends(g, bl.0, Direction::Rt);
        }
    }
}

/// The first corners of `bs` are in reading order, each strictly before the next.
pub open spec fn boxes_in_reading_order(bs: Seq<TBox>) -> bool {
    forall|i: int, j: int|
        0 <= i < j < bs.len() ==> reads_before((#[trigger] bs[i]).0, (#[trigger] bs[j]).0)
}

/// The boxes that close from a list of cells in reading order: each
/// starts on one of the cells, each cell whose outline closes gives one, and
/// they come in the order of the cells.
proof fn lemma_boxes_from(g: Grid, cells: Seq<(Point, char)>)
    requires
        in_reading_order(cells),
    ensures
        forall|i: int|
            0 <= i < cells.filter_map(box_test(g)).len() ==> box_at(
                g,
                (#[trigger] cells.filter_map(box_test(g))[i]).0,
            ) == Some(cells.filter_map(box_test(g))[i]) && exists|m: int|
                0 <= m < cells.len() && (#[trigger] cells[m]).0 == cells.filter_map(
                    box_test(g),
                )[i].0,
        forall|m: int|
            0 <= m < cells.len() && box_at(g, (#[trigger] cells[m]).0) is Some
                ==> cells.filter_map(box_test(g)).contains(box_at(g, cells[m].0).unwrap()),
        boxes_in_reading_order(cells.filter_map(box_test(g))),
    decreases cells.len(),
{
    let f = box_test(g);
    let all = cells.filter_map(f);
    if cells.len() > 0 {
        let front = cells.drop_last();
        let last = cells.last();
        lemma_boxes_from(g, front);
        lemma_box_at_wf(g, last.0);
        let kept = front.filter_map(f);
        assert forall|i: int| 0 <= i < all.len() implies box_at(g, (#[trigger] all[i]).0) == Some(
            all[i],
        ) && exists|m: int| 0 <= m < cells.len() && (#[trigger] cells[m]).0 == all[i].0 by {
            if i < kept.len() {
                assert(all[i] == kept[i]);
                let m = choose|m: int| 0 <= m < front.len() && (#[trigger] front[m]).0 == kept[i].0;
                assert(cells[m].0 == all[i].0);
            } else {
                assert(cells[cells.len() - 1].0 == all[i].0);
            }
        }
        assert forall|m: int|
            0 <= m < cells.len() && box_at(g, (#[trigger] cells[m]).0) is Some implies all.contains(
            box_at(g, cells[m].0).unwrap(),
        ) by {
            let b = box_at(g, cells[m].0).unwrap();
            if m < front.len() {
                assert(front[m] == cells[m]);
                let i = choose|i: int| 0 <= i < kept.len() && kept[i] == b;
                assert(all[i] == b);
            } else {
                assert(all[all.len() - 1] == b);
            }
        }
        assert forall|i: int, j: int| 0 <= i < j < all.len() implies reads_before(
            (#[trigger] all[i]).0,
            (#[trigger] all[j]).0,
        ) by {
            if j < kept.len() {
                assert(all[i] == kept[i] && all[j] == kept[j]);
            } else {
                assert(all[i] == kept[i]);
                let m = choose|m: int| 0 <= m < front.len() && (#[trigger] front[m]).0 == kept[i].0;
                assert(cells[m] == front[m] && cells[cells.len() - 1] == last);
            }
        }
    }
}

/// The boxes are the rectangles that close from a corner candidate: each
/// box starts on a candidate and is the one that closes from it, each
/// candidate whose outline closes gives a box, and the boxes come in the
/// reading order of their first corners.
pub proof fn lemma_boxes_exact(g: Grid)
    requires
        fits(g),
    ensures
        forall|i: int|
            0 <= i < boxes_of(g).len() ==> is_top_left(g, (#[trigger] boxes_of(g)[i]).0) && box_at(
                g,
                boxes_of(g)[i].0,
            ) == Some(boxes_of(g)[i]) && boxes_of(g)[i].wf(),
        forall|tl: Point|
            is_top_left(g, tl) && (#[trigger] box_at(g, tl)) is Some ==> boxes_of(g).contains(
                box_at(g, tl).unwrap(),
            ),
        boxes_in_reading_order(boxes_of(g)),
{
    let corners = top_lefts_of(g);
    let found = boxes_of(g);
    lemma_top_lefts_exact(g);
    lemma_boxes_from(g, corners);
    assert forall|i: int| 0 <= i < found.len() implies is_top_left(g, (#[trigger] found[i]).0)
        && box_at(g, found[i].0) == Some(found[i]) && found[i].wf() by {
        let m = choose|m: int| 0 <= m < corners.len() && (#[trigger] corners[m]).0 == found[i].0;
        lemma_box_at_wf(g, found[i].0);
    }
    assert forall|tl: Point| is_top_left(g, tl) && (#[trigger] box_at(g, tl)) is Some implies found.contains(
        box_at(g, tl).unwrap(),
    ) by {
        let cell = (tl, glyph_at(g, tl).unwrap());
        let m = choose|m: int| 0 <= m < corners.len() && corners[m] == cell;
        assert(corners[m].0 == tl);
    }
}

/// Finds the complete boxes of the diagram, in the reading order of their
/// top-left corners. Candidates whose outline does not close are left out.
pub fn boxes(lines: &Lines) -> (r: Vec<TBox>)
    ensures
        r@ == boxes_of(lines@),
        forall|i: int|
            0 <= i < r@.len() ==> is_top_left(lines@, (#[trigger] r@[i]).0) && box_at(
                lines@,
                r@[i].0,
            ) == Some(r@[i]) && r@[i].wf(),
        forall|tl: Point|
            is_top_left(lines@, tl) && (#[trigger] box_at(lines@, tl)) is Some ==> r@.contains(
                box_at(lines@, tl).unwrap(),
            ),
        boxes_in_reading_order(r@),
{
    let corners = top_lefts(lines);
    let mut out: Vec<TBox> = Vec::new();
    let mut i: usize = 0;
    while i < corners.len()
        invariant
            i <= corners.len(),
            corners@ == top_lefts_of(lines@),
            out@ == corners@.take(i as int).filter_map(box_test(lines@)),
        decreases corners.len() - i,
    {
        let tl = corners[i].0;
        proof {
            corners@.lemma_filter_map_take_succ(box_test(lines@), i as int);
        }
        if let Some(b) = close_box(lines, tl) {
            out.push(b);
        }
        i += 1;
    }
    proof {
        assert(corners@.take(corners@.len() as int) == corners@);
        lines.lemma_view_fits();
        lemma_boxes_exact(lines@);
    }
    out
}

/// Traces the outline that starts at the corner `tl` and returns the box
/// if the two ways round meet.
pub fn close_box(lines: &Lines, tl: Point) -> (r: Option<TBox>)
    ensures
        r == box_at(lines@, tl),
{
    let tr = match scan_dir(lines, tl, Direction::Rt) {
        Some(x) => x,
        None => { return None; },
    };
    let bl = match scan_dir(lines, tl, Direction::Dn) {
        Some(x) => x,
        None => { return None; },
    };
    let br = match scan_dir(lines, bl.0, Direction::Rt) {
        Some(x) => x,
        None => { return None; },
    };
    let br2 = match scan_dir(lines, tr.0, Direction::Dn) {
        Some(x) => x,
        None => { return None; },
    };
    if br2.0 == br.0 && br2.1 == br.1 {
        Some(TBox(tl, br.0))
    } else {
        None
    }
}

/// No cell of the grid holds one of the connecting glyphs.
pub open spec fn no_glyphs(g: Grid) -> bool {
    forall|p: Point| (#[trigger] glyph_at(g, p)) matches Some(c) ==> !is_glyph(c)
}

/// A grid of plain text has no corner candidates and no boxes.
pub proof fn lemma_plain_text_has_no_boxes(g: Grid)
    requires
        no_glyphs(g),
    ensures
        top_lefts_of(g) == Seq::<(Point, char)>::empty(),
        boxes_of(g) == Seq::<TBox>::empty(),
{
    let corners = top_lefts_of(g);
    if corners.len() > 0 {
        cells_of(g).lemma_filter_pred(corner_test(g), 0);
        let p = corners[0].0;
        assert(is_top_left(g, p));
        lemma_only_glyphs_connect(glyph_at(g, p).unwrap());
    }
    assert(corners =~= Seq::empty());
}

/// The boxes found depend on the characters of the grid alone: two grids
/// that hold the same characters have the same boxes in the same order.
pub proof fn lemma_boxes_repeatable(before: Lines, after: Lines)
    requires
        before@ == after@,
    ensures
        boxes_of(before@) == boxes_of(after@),
{
}

} // verus!
