//! Collecting the connectors that leave the boxes of a diagram.

use vstd::prelude::*;
use crate::geometry::{border, border_of, Direction, Point, TBox};
use crate::grid::{can_go, glyph_at, lemma_only_glyphs_connect, Grid, Lines};
use crate::path::{path_from, scan_path};
use crate::scan::no_glyphs;

verus! {

/// The polylines held in `v`, each as a sequence of points.
pub open spec fn polylines(v: Seq<Vec<Point>>) -> Seq<Seq<Point>> {
    Seq::new(v.len(), |i: int| v[i]@)
}

/// Maps a box to its probe points.
pub open spec fn probes_at() -> spec_fn(TBox) -> Seq<(Point, Direction)> {
    |b: TBox| border_of(b)
}

/// The probe points of all the boxes, box after box.
pub open spec fn probes_of(boxes: Seq<TBox>) -> Seq<(Point, Direction)> {
    boxes.flat_map(probes_at())
}

/// Whether a connector starts at the probe: the glyph there is open
/// towards the box the probe belongs to.
pub open spec fn is_kept(g: Grid, probe: (Point, Direction)) -> bool {
    glyph_at(g, probe.0) matches Some(c) && can_go(c, probe.1.rev())
}

/// The polyline traced from the probe; empty where no connector starts there.
pub open spec fn probe_path(g: Grid, probe: (Point, Direction)) -> Seq<Point> {
    if is_kept(g, probe) {
        path_from(g, probe.0, probe.1)
    } else {
        Seq::empty()
    }
}

/// The collection after `path` was offered to it: an empty path and one
/// that the collection holds leave it as it is; of any other, the reverse is
/// added unless it is there already.
pub open spec fn take_up(acc: Seq<Seq<Point>>, path: Seq<Point>) -> Seq<Seq<Point>> {
    if path.len() == 0 || acc.contains(path) || acc.contains(path.reverse()) {
        acc
    } else {
        acc.push(path.reverse())
    }
}

/// The connectors found from the given probes, taken up one probe after
/// the other.
pub open spec fn collect(g: Grid, probes: Seq<(Point, Direction)>) -> Seq<Seq<Point>>
    decreases probes.len(),
{
    if probes.len() == 0 {
        Seq::empty()
    } else {
        take_up(collect(g, probes.drop_last()), probe_path(g, probes.last()))
    }
}

/// The connectors of the diagram: those found from the probe points of
/// `boxes`, in the order in which they were first met.
pub open spec fn edges_of(g: Grid, boxes: Seq<TBox>) -> Seq<Seq<Point>> {
    collect(g, probes_of(boxes))
}

/// Whether the two polylines list the same points.
pub fn same_points(a: &Vec<Point>, b: &Vec<Point>) -> (r: bool)
    ensures
        r == (a@ == b@),
{
    if a.len() != b.len() {
        return false;
    }
    let mut i: usize = 0;
    while i < a.len()
        invariant
            i <= a.len(),
            a.len() == b.len(),
            forall|j: int| 0 <= j < i ==> a@[j] == b@[j],
        decreases a.len() - i,
    {
        if a[i] != b[i] {
            return false;
        }
        i += 1;
    }
    assert(a@ =~= b@);
    true
}

/// Whether `set` holds the polyline `path`.
pub fn has_path(set: &Vec<Vec<Point>>, path: &Vec<Point>) -> (r: bool)
    ensures
        r == polylines(set@).contains(path@),
{
    let mut i: usize = 0;
    while i < set.len()
        invariant
            i <= set.len(),
            forall|j: int| 0 <= j < i ==> polylines(set@)[j] != path@,
        decreases set.len() - i,
    {
        if same_points(&set[i], path) {
            assert(polylines(set@)[i as int] == path@);
            return true;
        }
        i += 1;
    }
    false
}

/// The points of `path` in the opposite order.
pub fn reversed(path: &Vec<Point>) -> (r: Vec<Point>)
    ensures
        r@ == path@.reverse(),
{
    let mut out: Vec<Point> = Vec::new();
    let mut i: usize = path.len();
    while i > 0
        invariant
            i <= path.len(),
            out@.len() == path.len() - i,
            forall|j: int| 0 <= j < out@.len() ==> out@[j] == path@[path.len() - 1 - j],
        decreases i,
    {
        i -= 1;
        out.push(path[i]);
    }
    assert(out@ =~= path@.reverse());
    out
}

/// Offers `path` to the collection `set`, which holds no polyline twice.
fn offer(set: &mut Vec<Vec<Point>>, path: Vec<Point>)
    requires
        polylines(old(set)@).no_duplicates(),
    ensures
        polylines(final(set)@) == take_up(polylines(old(set)@), path@),
        polylines(final(set)@).no_duplicates(),
{
    if path.len() > 0 && !has_path(set, &path) {
        let back = reversed(&path);
        if !has_path(set, &back) {
            set.push(back);
            assert(polylines(set@) =~= polylines(old(set)@).push(back@));
        }
    }
}

/// Traces a connector from every probe point of every box and collects
/// the polylines found, each once. A polyline is stored reversed, so that the
/// same connector traced from its other end is recognised and not stored again.
pub fn edges(lines: &Lines, boxes: &Vec<TBox>) -> (r: Vec<Vec<Point>>)
    ensures
        polylines(r@) == edges_of(lines@, boxes@),
        polylines(r@).no_duplicates(),
        unique_up_to_reversal(polylines(r@)),
        forall|i: int| 0 <= i < r@.len() ==> (#[trigger] polylines(r@)[i]).len() > 0,
        forall|k: int|
            0 <= k < probes_of(boxes@).len() && probe_path(
                lines@,
                #[trigger] probes_of(boxes@)[k],
            ).len() > 0 ==> polylines(r@).contains(probe_path(lines@, probes_of(boxes@)[k]))
                || polylines(r@).contains(probe_path(lines@, probes_of(boxes@)[k]).reverse()),
{
    let mut out: Vec<Vec<Point>> = Vec::new();
    let mut i: usize = 0;
    assert(probes_of(boxes@.take(0)) =~= Seq::empty());
    while i < boxes.len()
        invariant
            i <= boxes.len(),
            polylines(out@) == collect(lines@, probes_of(boxes@.take(i as int))),
            polylines(out@).no_duplicates(),
        decreases boxes.len() - i,
    {
        let probes = border(boxes[i]);
        let ghost done = probes_of(boxes@.take(i as int));
        let mut j: usize = 0;
        assert(done + probes@.take(0) == done);
        while j < probes.len()
            invariant
                j <= probes.len(),
                polylines(out@) == collect(lines@, done + probes@.take(j as int)),
                polylines(out@).no_duplicates(),
            decreases probes.len() - j,
        {
            let (p, d) = probes[j];
            let kept = match lines.at(p) {
                Some(c) => can_go(c, d.rev()),
                None => false,
            };
            proof {
                let now = done + probes@.take(j + 1);
                assert(now.drop_last() == done + probes@.take(j as int));
                assert(now.last() == probes@[j as int]);
            }
            if kept {
                let path = scan_path(lines, p, d);
                offer(&mut out, path);
            }
            j += 1;
        }
        proof {
            assert(probes@.take(probes@.len() as int) == probes@);
            boxes@.lemma_flat_map_take_append(probes_at(), i as int);
        }
        i += 1;
    }
    proof {
        assert(boxes@.take(boxes@.len() as int) == boxes@);
        lemma_edges_stored_once(lines@, boxes@);
        assert forall|i: int| 0 <= i < out@.len() implies (#[trigger] polylines(out@)[i]).len()
            > 0 by {
            lemma_edges_are_reversed_paths(lines@, boxes@, i);
        }
        assert forall|k: int|
            0 <= k < probes_of(boxes@).len() && probe_path(
                lines@,
                #[trigger] probes_of(boxes@)[k],
            ).len() > 0 implies polylines(out@).contains(
            probe_path(lines@, probes_of(boxes@)[k]),
        ) || polylines(out@).contains(probe_path(lines@, probes_of(boxes@)[k]).reverse()) by {
            lemma_edges_hold_each_connector(lines@, boxes@, k);
        }
    }
    out
}

proof fn lemma_collect_nothing(g: Grid, probes: Seq<(Point, Direction)>)
    requires
        no_glyphs(g),
    ensures
        collect(g, probes) == Seq::<Seq<Point>>::empty(),
    decreases probes.len(),
{
    if probes.len() > 0 {
        lemma_collect_nothing(g, probes.drop_last());
        let probe = probes.last();
        if is_kept(g, probe) {
            lemma_only_glyphs_connect(glyph_at(g, probe.0).unwrap());
        }
    }
}

/// A grid of plain text has no connectors, whatever boxes are given.
pub proof fn lemma_plain_text_has_no_edges(g: Grid, boxes: Seq<TBox>)
    requires
        no_glyphs(g),
    ensures
        edges_of(g, boxes) == Seq::<Seq<Point>>::empty(),
{
    lemma_collect_nothing(g, probes_of(boxes));
}

/// A polyline that was taken up from the first `n` probes is still there
/// when all probes have been visited.
proof fn lemma_collect_keeps(g: Grid, probes: Seq<(Point, Direction)>, n: int, e: Seq<Point>)
    requires
        0 <= n <= probes.len(),
        collect(g, probes.take(n)).contains(e),
    ensures
        collect(g, probes).contains(e),
    decreases probes.len() - n,
{
    if n < probes.len() {
        let earlier = collect(g, probes.take(n));
        assert(probes.take(n + 1).drop_last() == probes.take(n));
        let i = choose|i: int| 0 <= i < earlier.len() && earlier[i] == e;
        assert(collect(g, probes.take(n + 1))[i] == e);
        lemma_collect_keeps(g, probes, n + 1, e);
    } else {
        assert(probes.take(n) == probes);
    }
}

/// Every connector that a probe finds is in the collection, as traced or
/// reversed.
pub proof fn lemma_edges_hold_each_connector(g: Grid, boxes: Seq<TBox>, k: int)
    requires
        0 <= k < probes_of(boxes).len(),
        probe_path(g, probes_of(boxes)[k]).len() > 0,
    ensures
        ({
            let path = probe_path(g, probes_of(boxes)[k]);
            edges_of(g, boxes).contains(path) || edges_of(g, boxes).contains(path.reverse())
        }),
{
    let probes = probes_of(boxes);
    let path = probe_path(g, probes[k]);
    let earlier = collect(g, probes.take(k));
    let now = collect(g, probes.take(k + 1));
    assert(probes.take(k + 1).drop_last() == probes.take(k));
    assert(now == take_up(earlier, path));
    if earlier.contains(path) {
        lemma_collect_keeps(g, probes, k, path);
    } else if earlier.contains(path.reverse()) {
        lemma_collect_keeps(g, probes, k, path.reverse());
    } else {
        assert(now[earlier.len() as int] == path.reverse());
        lemma_collect_keeps(g, probes, k + 1, path.reverse());
    }
}

proof fn lemma_collect_from_probes(g: Grid, probes: Seq<(Point, Direction)>, i: int)
    requires
        0 <= i < collect(g, probes).len(),
    ensures
        exists|k: int|
            0 <= k < probes.len() && probe_path(g, #[trigger] probes[k]).len() > 0 && collect(
                g,
                probes,
            )[i] == probe_path(g, probes[k]).reverse(),
    decreases probes.len(),
{
    let earlier = collect(g, probes.drop_last());
    let k = probes.len() - 1;
    if i < earlier.len() {
        lemma_collect_from_probes(g, probes.drop_last(), i);
        let j = choose|j: int|
            0 <= j < probes.drop_last().len() && probe_path(
                g,
                #[trigger] probes.drop_last()[j],
            ).len() > 0 && earlier[i] == probe_path(g, probes.drop_last()[j]).reverse();
        assert(probes[j] == probes.drop_last()[j]);
    } else {
        assert(probes[k] == probes.last());
    }
}

/// Every polyline in the collection is the reverse of a connector traced
/// from one of the probes, and is not empty.
pub proof fn lemma_edges_are_reversed_paths(g: Grid, boxes: Seq<TBox>, i: int)
    requires
        0 <= i < edges_of(g, boxes).len(),
    ensures
        edges_of(g, boxes)[i].len() > 0,
        exists|k: int|
            0 <= k < probes_of(boxes).len() && edges_of(g, boxes)[i] == probe_path(
                g,
                #[trigger] probes_of(boxes)[k],
            ).reverse(),
{
    lemma_collect_from_probes(g, probes_of(boxes), i);
}

/// No two polylines of a collection are equal or each other's reverse.
pub open spec fn unique_up_to_reversal(acc: Seq<Seq<Point>>) -> bool {
    forall|i: int, j: int|
        0 <= i < j < acc.len() ==> #[trigger] acc[i] != #[trigger] acc[j] && acc[i]
            != acc[j].reverse()
}

proof fn lemma_collect_unique(g: Grid, probes: Seq<(Point, Direction)>)
    ensures
        unique_up_to_reversal(collect(g, probes)),
    decreases probes.len(),
{
    if probes.len() > 0 {
        lemma_collect_unique(g, probes.drop_last());
        let earlier = collect(g, probes.drop_last());
        let path = probe_path(g, probes.last());
        let now = collect(g, probes);
        if now != earlier {
            let back = path.reverse();
            assert(back.reverse() =~= path);
            assert forall|i: int, j: int| 0 <= i < j < now.len() implies #[trigger] now[i]
                != #[trigger] now[j] && now[i] != now[j].reverse() by {
                if j == earlier.len() {
                    assert(earlier[i] == now[i]);
                    assert(!earlier.contains(path) && !earlier.contains(back));
                } else {
                    assert(earlier[i] == now[i] && earlier[j] == now[j]);
                }
            }
        }
    }
}

/// Each connector is stored once: no two polylines of the collection are
/// equal, and none is the reverse of another.
pub proof fn lemma_edges_stored_once(g: Grid, boxes: Seq<TBox>)
    ensures
        unique_up_to_reversal(edges_of(g, boxes)),
        edges_of(g, boxes).no_duplicates(),
{
    lemma_collect_unique(g, probes_of(boxes));
}

/// Every polyline of `a` is in `b`, as it is or reversed.
pub open spec fn same_up_to_reversal(a: Seq<Seq<Point>>, b: Seq<Seq<Point>>) -> bool {
    forall|i: int|
        0 <= i < a.len() ==> b.contains(#[trigger] a[i]) || b.contains(a[i].reverse())
}

/// The connectors found depend on the characters of the grid and on the
/// boxes alone. Two runs over the same characters and boxes yield the same
/// polylines, so each polyline of one run is a polyline of the other, or
/// the reverse of one.
pub proof fn lemma_edges_repeatable(before: Lines, after: Lines, boxes: Seq<TBox>)
    requires
        before@ == after@,
    ensures
        edges_of(before@, boxes) == edges_of(after@, boxes),
        same_up_to_reversal(edges_of(before@, boxes), edges_of(after@, boxes)),
{
    let a = edges_of(before@, boxes);
    let b = edges_of(after@, boxes);
    assert forall|i: int| 0 <= i < a.len() implies b.contains(#[trigger] a[i]) by {
        assert(b[i] == a[i]);
    }
}

} // verus!
