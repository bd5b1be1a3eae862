//! Which style each cell of a diagram is drawn in, and the stream of
//! tokens that draws a whole diagram.

use vstd::prelude::*;
use crate::edges::polylines;
use crate::geometry::{on_path, path_contains, Point, TBox};
use crate::grid::{cells_of, cells_upto, row_cells, Grid, Lines};

verus! {

/// How a cell is drawn.
#[derive(Clone, Copy, Debug, PartialEq, Eq, Structural)]
pub enum Style {
    /// Not part of the diagram's structure.
    Plain,
    /// Inside a box or on its outline.
    Boxed,
    /// Inside the box that holds the cursor.
    Focus,
    /// On a connector.
    Edge,
}

/// `p` lies on one of the polylines.
pub open spec fn on_any_edge(edges: Seq<Seq<Point>>, p: Point) -> bool {
    exists|i: int| 0 <= i < edges.len() && on_path(#[trigger] edges[i], p)
}

/// `p` lies in one of the boxes.
pub open spec fn in_any_box(boxes: Seq<TBox>, p: Point) -> bool {
    exists|i: int| 0 <= i < boxes.len() && (#[trigger] boxes[i]).contains(p)
}

/// The style of the cell at `p`: a connector outranks the focused box,
/// which outranks any other box; a cell on none of them is plain.
pub open spec fn style_of(
    edges: Seq<Seq<Point>>,
    boxes: Seq<TBox>,
    focus: Option<TBox>,
    p: Point,
) -> Style {
    if on_any_edge(edges, p) {
        Style::Edge
    } else if focus matches Some(b) && b.contains(p) {
        Style::Focus
    } else if in_any_box(boxes, p) {
        Style::Boxed
    } else {
        Style::Plain
    }
}

/// Whether `p` lies on one of the connectors.
pub fn on_edge(edges: &Vec<Vec<Point>>, p: Point) -> (r: bool)
    ensures
        r == on_any_edge(polylines(edges@), p),
{
    let mut i: usize = 0;
    while i < edges.len()
        invariant
            i <= edges.len(),
            forall|j: int| 0 <= j < i ==> !on_path(#[trigger] polylines(edges@)[j], p),
        decreases edges.len() - i,
    {
        if path_contains(&edges[i], p) {
            assert(on_path(polylines(edges@)[i as int], p));
            return true;
        }
        i += 1;
    }
    false
}

/// Whether `p` lies in one of the boxes.
pub fn in_box(boxes: &Vec<TBox>, p: Point) -> (r: bool)
    ensures
        r == in_any_box(boxes@, p),
{
    let mut i: usize = 0;
    while i < boxes.len()
        invariant
            i <= boxes.len(),
            forall|j: int| 0 <= j < i ==> !(#[trigger] boxes@[j]).contains(p),
        decreases boxes.len() - i,
    {
        if boxes[i].contains(p) {
            return true;
        }
        i += 1;
    }
    false
}

/// Decides the style of the cell at `p`.
pub fn style_at(edges: &Vec<Vec<Point>>, boxes: &Vec<TBox>, focus: Option<TBox>, p: Point) -> (r:
    Style)
    ensures
        r == style_of(polylines(edges@), boxes@, focus, p),
{
    if on_edge(edges, p) {
        return Style::Edge;
    }
    if let Some(b) = focus {
        if b.contains(p) {
            return Style::Focus;
        }
    }
    if in_box(boxes, p) {
        Style::Boxed
    } else {
        Style::Plain
    }
}

/// One item of the stream that draws a diagram.
#[derive(Clone, Copy, Debug, PartialEq, Eq, Structural)]
pub enum Token {
    /// Switch to this style for what follows.
    Paint(Style),
    /// A character of the diagram.
    Glyph(char),
    /// The end of a row.
    NewLine,
}

/// What switches from style `cur` to style `next`: nothing where they are
/// the same.
pub open spec fn repaint(cur: Style, next: Style) -> Seq<Token> {
    if cur == next {
        Seq::empty()
    } else {
        seq![Token::Paint(next)]
    }
}

/// The tokens that draw the first `n` cells of row `r` when the style in
/// force is `cur`, and the style in force after them.
pub open spec fn draw_row(
    g: Grid,
    edges: Seq<Seq<Point>>,
    boxes: Seq<TBox>,
    r: int,
    n: int,
    cur: Style,
) -> (Seq<Token>, Style)
    decreases n,
{
    if n <= 0 {
        (Seq::empty(), cur)
    } else {
        let (before, style) = draw_row(g, edges, boxes, r, n - 1, cur);
        let next = style_of(edges, boxes, None, Point { row: r as usize, col: (n - 1) as usize });
        (before + repaint(style, next) + seq![Token::Glyph(g[r][n - 1])], next)
    }
}

/// The tokens that draw the first `k` rows, each closed by `NewLine`, and
/// the style in force after them. The stream begins in the plain style.
pub open spec fn draw_rows(g: Grid, edges: Seq<Seq<Point>>, boxes: Seq<TBox>, k: int) -> (
    Seq<Token>,
    Style,
)
    decreases k,
{
    if k <= 0 {
        (Seq::empty(), Style::Plain)
    } else {
        let (above, style) = draw_rows(g, edges, boxes, k - 1);
        let (row, next) = draw_row(g, edges, boxes, k - 1, g[k - 1].len() as int, style);
        (above + row + seq![Token::NewLine], next)
    }
}

/// The token stream of the whole diagram. A style is painted before the
/// first cell of each run of cells that share it, never again within the
/// run, and the stream ends in the plain style.
pub open spec fn drawing_of(g: Grid, edges: Seq<Seq<Point>>, boxes: Seq<TBox>) -> Seq<Token> {
    let (all, style) = draw_rows(g, edges, boxes, g.len() as int);
    all + repaint(style, Style::Plain)
}

/// The style in force after the tokens, when `start` was in force before them.
pub open spec fn style_after(tokens: Seq<Token>, start: Style) -> Style
    decreases tokens.len(),
{
    if tokens.len() == 0 {
        start
    } else {
        match tokens.last() {
            Token::Paint(s) => s,
            _ => style_after(tokens.drop_last(), start),
        }
    }
}

/// The characters that the tokens draw, each with the style in force
/// where it stands, when `start` was in force before the tokens.
pub open spec fn painted(tokens: Seq<Token>, start: Style) -> Seq<(char, Style)>
    decreases tokens.len(),
{
    if tokens.len() == 0 {
        Seq::empty()
    } else {
        let before = painted(tokens.drop_last(), start);
        match tokens.last() {
            Token::Glyph(c) => before.push((c, style_after(tokens.drop_last(), start))),
            _ => before,
        }
    }
}

/// No token paints the style that is in force already.
pub open spec fn thrifty(tokens: Seq<Token>, start: Style) -> bool {
    forall|i: int|
        0 <= i < tokens.len() ==> ((#[trigger] tokens[i]) matches Token::Paint(s) ==> style_after(
            tokens.take(i),
            start,
        ) != s)
}

/// Every character of the grid is a Unicode scalar value.
spec fn is_text(g: Grid) -> bool {
    forall|r: int, c: int|
        0 <= r < g.len() && 0 <= c < g[r].len() ==> 0 <= (#[trigger] g[r][c]) as int <= 0xD7FF
            || 0xE000 <= g[r][c] as int <= 0x10FFFF
}

/// Every `char` is a Unicode scalar value.
proof fn lemma_char_range(c: char)
    ensures
        0 <= c as int <= 0xD7FF || 0xE000 <= c as int <= 0x10FFFF,
{
}

/// Every grid holds Unicode scalar values only.
proof fn lemma_is_text(g: Grid)
    ensures
        is_text(g),
{
    assert forall|r: int, c: int| 0 <= r < g.len() && 0 <= c < g[r].len() implies 0 <= (
    #[trigger] g[r][c]) as int <= 0xD7FF || 0xE000 <= g[r][c] as int <= 0x10FFFF by {
        lemma_char_range(g[r][c]);
    }
}

/// Pairs a cell's character with the style the cell is drawn in.
pub open spec fn styled(edges: Seq<Seq<Point>>, boxes: Seq<TBox>) -> spec_fn((Point, char)) -> (
    char,
    Style,
) {
    |cell: (Point, char)| (cell.1, style_of(edges, boxes, None, cell.0))
}

/// What two runs of tokens draw one after the other is what each draws,
/// the second starting in the style the first ends in.
proof fn lemma_painted_add(a: Seq<Token>, b: Seq<Token>, start: Style)
    ensures
        style_after(a + b, start) == style_after(b, style_after(a, start)),
        painted(a + b, start) == painted(a, start) + painted(b, style_after(a, start)),
    decreases b.len(),
{
    if b.len() == 0 {
        assert(a + b == a);
    } else {
        lemma_painted_add(a, b.drop_last(), start);
        assert((a + b).drop_last() == a + b.drop_last());
        assert((a + b).last() == b.last());
    }
}

/// Two thrifty runs of tokens, the second starting in the style the first
/// ends in, make a thrifty run.
proof fn lemma_thrifty_add(a: Seq<Token>, b: Seq<Token>, start: Style)
    requires
        thrifty(a, start),
        thrifty(b, style_after(a, start)),
    ensures
        thrifty(a + b, start),
{
    let all = a + b;
    assert forall|i: int| 0 <= i < all.len() implies ((#[trigger] all[i]) matches Token::Paint(
        s,
    ) ==> style_after(all.take(i), start) != s) by {
        if i < a.len() {
            assert(all[i] == a[i]);
            assert(all.take(i) == a.take(i));
        } else {
            let j = i - a.len();
            assert(all[i] == b[j]);
            assert(all.take(i) == a + b.take(j));
            lemma_painted_add(a, b.take(j), start);
        }
    }
}

/// The tokens of a stretch of a row draw its characters in their styles,
/// end in the style of its last cell, and paint no style twice in a row.
proof fn lemma_draw_row_shows(
    g: Grid,
    edges: Seq<Seq<Point>>,
    boxes: Seq<TBox>,
    r: int,
    n: int,
    cur: Style,
)
    requires
        is_text(g),
        0 <= r < g.len(),
        0 <= n <= g[r].len(),
    ensures
        style_after(draw_row(g, edges, boxes, r, n, cur).0, cur) == draw_row(
            g,
            edges,
            boxes,
            r,
            n,
            cur,
        ).1,
        painted(draw_row(g, edges, boxes, r, n, cur).0, cur) == row_cells(g, r, n).map_values(
            styled(edges, boxes),
        ),
        thrifty(draw_row(g, edges, boxes, r, n, cur).0, cur),
    decreases n,
{
    if n > 0 {
        lemma_draw_row_shows(g, edges, boxes, r, n - 1, cur);
        let (before, style) = draw_row(g, edges, boxes, r, n - 1, cur);
        let cell = row_cells(g, r, n)[n - 1];
        assert(cell.1 == g[r][n - 1]);
        let next = style_of(edges, boxes, None, cell.0);
        let step = repaint(style, next) + seq![Token::Glyph(cell.1)];
        assert(draw_row(g, edges, boxes, r, n, cur).0 == before + step);
        assert(style_after(step, style) == next && painted(step, style) == seq![(cell.1, next)]
            && thrifty(step, style)) by {
            reveal_with_fuel(style_after, 3);
            reveal_with_fuel(painted, 3);
            if style == next {
                assert(step == seq![Token::Glyph(cell.1)]);
                assert(step.drop_last() == Seq::<Token>::empty());
            } else {
                let paint = seq![Token::Paint(next)];
                assert(step.drop_last() == paint);
                assert(paint.drop_last() == Seq::<Token>::empty());
                assert(step.take(0) == Seq::<Token>::empty());
            }
        }
        lemma_painted_add(before, step, cur);
        lemma_thrifty_add(before, step, cur);
        assert(row_cells(g, r, n).map_values(styled(edges, boxes)) == row_cells(
            g,
            r,
            n - 1,
        ).map_values(styled(edges, boxes)) + seq![(cell.1, next)]);
    }
}

/// The cells of the first `k` rows, each as its character in its style.
pub open spec fn styled_cells(g: Grid, edges: Seq<Seq<Point>>, boxes: Seq<TBox>, k: int) -> Seq<
    (char, Style),
> {
    cells_upto(g, k).map_values(styled(edges, boxes))
}

proof fn lemma_draw_rows_shows(g: Grid, edges: Seq<Seq<Point>>, boxes: Seq<TBox>, k: int)
    requires
        is_text(g),
        0 <= k <= g.len(),
    ensures
        style_after(draw_rows(g, edges, boxes, k).0, Style::Plain) == draw_rows(
            g,
            edges,
            boxes,
            k,
        ).1,
        painted(draw_rows(g, edges, boxes, k).0, Style::Plain) == styled_cells(g, edges, boxes, k),
        thrifty(draw_rows(g, edges, boxes, k).0, Style::Plain),
    decreases k,
{
    if k > 0 {
        lemma_draw_rows_shows(g, edges, boxes, k - 1);
        let (above, style) = draw_rows(g, edges, boxes, k - 1);
        let n = g[k - 1].len() as int;
        let (row, next) = draw_row(g, edges, boxes, k - 1, n, style);
        lemma_draw_row_shows(g, edges, boxes, k - 1, n, style);
        let end = seq![Token::NewLine];
        assert(style_after(end, next) == next && painted(end, next) == Seq::<(char, Style)>::empty()
            && thrifty(end, next)) by {
            reveal_with_fuel(style_after, 2);
            reveal_with_fuel(painted, 2);
            assert(end.drop_last() == Seq::<Token>::empty());
        }
        lemma_painted_add(above, row, Style::Plain);
        lemma_thrifty_add(above, row, Style::Plain);
        lemma_painted_add(above + row, end, Style::Plain);
        lemma_thrifty_add(above + row, end, Style::Plain);
        assert(styled_cells(g, edges, boxes, k) == styled_cells(g, edges, boxes, k - 1)
            + row_cells(g, k - 1, n).map_values(styled(edges, boxes)));
    }
}

/// What the token stream of a diagram means: it draws every character of
/// the grid in reading order, each in the style of its cell; it never
/// paints the style that is in force; and it ends in the plain style.
pub proof fn lemma_drawing_shows(g: Grid, edges: Seq<Seq<Point>>, boxes: Seq<TBox>)
    ensures
        painted(drawing_of(g, edges, boxes), Style::Plain) == cells_of(g).map_values(
            styled(edges, boxes),
        ),
        thrifty(drawing_of(g, edges, boxes), Style::Plain),
        style_after(drawing_of(g, edges, boxes), Style::Plain) == Style::Plain,
{
    let k = g.len() as int;
    lemma_is_text(g);
    lemma_draw_rows_shows(g, edges, boxes, k);
    let (all, style) = draw_rows(g, edges, boxes, k);
    let close = repaint(style, Style::Plain);
    assert(style_after(close, style) == Style::Plain && painted(close, style) == Seq::<
        (char, Style),
    >::empty() && thrifty(close, style)) by {
        reveal_with_fuel(style_after, 2);
        reveal_with_fuel(painted, 2);
        if style != Style::Plain {
            assert(close.drop_last() == Seq::<Token>::empty());
            assert(close.take(0) == Seq::<Token>::empty());
        }
    }
    lemma_painted_add(all, close, Style::Plain);
    lemma_thrifty_add(all, close, Style::Plain);
}

/// Appends what switches from `prev` to `next` and returns the style in force.
pub fn set_style(out: &mut Vec<Token>, prev: Style, next: Style) -> (r: Style)
    ensures
        r == next,
        final(out)@ == old(out)@ + repaint(prev, next),
{
    if prev == next {
        assert(out@ == out@ + Seq::<Token>::empty());
        return prev;
    }
    out.push(Token::Paint(next));
    assert(out@ == old(out)@ + seq![Token::Paint(next)]);
    next
}

/// Draws the diagram as a stream of tokens: its characters row by row,
/// with connectors in the `Edge` style and boxes in the `Boxed` style.
pub fn simp_draw(lines: &Lines, es: &Vec<Vec<Point>>, bs: &Vec<TBox>) -> (r: Vec<Token>)
    ensures
        r@ == drawing_of(lines@, polylines(es@), bs@),
        painted(r@, Style::Plain) == cells_of(lines@).map_values(styled(polylines(es@), bs@)),
        thrifty(r@, Style::Plain),
        style_after(r@, Style::Plain) == Style::Plain,
{
    let mut out: Vec<Token> = Vec::new();
    let mut style = Style::Plain;
    let mut r: usize = 0;
    while r < lines.0.len()
        invariant
            r <= lines.0.len(),
            (out@, style) == draw_rows(lines@, polylines(es@), bs@, r as int),
        decreases lines.0.len() - r,
    {
        let line = &lines.0[r];
        let ghost above = out@;
        let ghost before = style;
        let mut c: usize = 0;
        assert(out@ == above + Seq::<Token>::empty());
        while c < line.len()
            invariant
                r < lines.0.len(),
                line == lines.0[r as int],
                c <= line.len(),
                out@ == above + draw_row(lines@, polylines(es@), bs@, r as int, c as int, before).0,
                style == draw_row(lines@, polylines(es@), bs@, r as int, c as int, before).1,
            decreases line.len() - c,
        {
            let next = style_at(es, bs, None, Point::from((r, c)));
            let ghost so_far = draw_row(lines@, polylines(es@), bs@, r as int, c as int, before).0;
            let ghost switch = repaint(style, next);
            style = set_style(&mut out, style, next);
            out.push(Token::Glyph(line[c]));
            proof {
                lemma_char_range(line@[c as int]);
                assert(out@ == above + (so_far + switch + seq![Token::Glyph(line@[c as int])]));
            }
            c += 1;
        }
        out.push(Token::NewLine);
        assert(out@ == above + draw_row(
            lines@,
            polylines(es@),
            bs@,
            r as int,
            line@.len() as int,
            before,
        ).0 + seq![Token::NewLine]);
        r += 1;
    }
    let _ = set_style(&mut out, style, Style::Plain);
    proof {
        lemma_drawing_shows(lines@, polylines(es@), bs@);
    }
    out
}

} // verus!
