use boxdiagram::Direction::{Dn, Lt, Rt, Up};
use boxdiagram::{border, border_in_dir, can_go, path_contains, Direction, Lines, Point, TBox};

fn pt(row: usize, col: usize) -> Point {
    Point { row, col }
}

#[test]
fn rev_swaps_each_pair() {
    assert_eq!(Up.rev(), Dn);
    assert_eq!(Dn.rev(), Up);
    assert_eq!(Lt.rev(), Rt);
    assert_eq!(Rt.rev(), Lt);
}

#[test]
fn rev_twice_is_identity() {
    for d in [Up, Dn, Lt, Rt] {
        assert_eq!(d.rev().rev(), d);
        assert_ne!(d.rev(), d);
    }
}

#[test]
fn can_go_follows_the_table() {
    let table: [(char, [bool; 4]); 7] = [
        ('|', [true, true, false, false]),
        ('-', [false, false, true, true]),
        ('.', [false, true, true, false]),
        (',', [false, true, false, true]),
        ('\'', [true, false, true, true]),
        ('<', [false, false, false, true]),
        ('>', [false, false, true, false]),
    ];
    for (glyph, open) in table {
        assert_eq!(can_go(glyph, Up), open[0], "{:?} up", glyph);
        assert_eq!(can_go(glyph, Dn), open[1], "{:?} down", glyph);
        assert_eq!(can_go(glyph, Lt), open[2], "{:?} left", glyph);
        assert_eq!(can_go(glyph, Rt), open[3], "{:?} right", glyph);
    }
    assert_eq!(can_go('|', Lt), false);
    assert_eq!(can_go('<', Rt), true);
}

#[test]
fn can_go_rejects_every_other_character() {
    for c in [' ', 'x', '+', '^', 'v', '_', '/', '\\', '`', '0', '\u{2502}'] {
        for d in [Up, Dn, Lt, Rt] {
            assert_eq!(can_go(c, d), false, "{:?} {:?}", c, d);
        }
    }
}

#[test]
fn point_from_pair() {
    assert_eq!(Point::from((3, 7)), pt(3, 7));
    let p: Point = (2, 9).into();
    assert_eq!(p, pt(2, 9));
}

#[test]
fn point_in_dir_steps_one_cell() {
    let p = pt(4, 6);
    assert_eq!(p.in_dir(Up), Some(pt(3, 6)));
    assert_eq!(p.in_dir(Dn), Some(pt(5, 6)));
    assert_eq!(p.in_dir(Lt), Some(pt(4, 5)));
    assert_eq!(p.in_dir(Rt), Some(pt(4, 7)));
}

#[test]
fn point_in_dir_stops_at_the_edges() {
    assert_eq!(pt(0, 5).in_dir(Up), None);
    assert_eq!(pt(5, 0).in_dir(Lt), None);
    assert_eq!(pt(0, 0).in_dir(Dn), Some(pt(1, 0)));
    assert_eq!(pt(usize::MAX, 1).in_dir(Dn), None);
    assert_eq!(pt(1, usize::MAX).in_dir(Rt), None);
    assert_eq!(pt(usize::MAX, usize::MAX).in_dir(Up), Some(pt(usize::MAX - 1, usize::MAX)));
}

#[test]
fn tbox_from_orders_the_corners() {
    let want = TBox(pt(1, 2), pt(5, 9));
    assert_eq!(TBox::from((pt(1, 2), pt(5, 9))), want);
    assert_eq!(TBox::from((pt(5, 9), pt(1, 2))), want);
    assert_eq!(TBox::from((pt(5, 2), pt(1, 9))), want);
    assert_eq!(TBox::from((pt(1, 9), pt(5, 2))), want);
    assert_eq!(TBox::from((pt(3, 3), pt(3, 3))), TBox(pt(3, 3), pt(3, 3)));
}

#[test]
fn tbox_contains_is_inclusive() {
    let b = TBox(pt(2, 3), pt(4, 6));
    assert!(b.contains(pt(2, 3)));
    assert!(b.contains(pt(4, 6)));
    assert!(b.contains(pt(2, 6)));
    assert!(b.contains(pt(3, 4)));
    assert!(!b.contains(pt(1, 4)));
    assert!(!b.contains(pt(5, 4)));
    assert!(!b.contains(pt(3, 2)));
    assert!(!b.contains(pt(3, 7)));
}

#[test]
fn tbox_intersects_when_a_cell_is_shared() {
    let a = TBox(pt(2, 2), pt(4, 4));
    assert!(a.intersects(a));
    assert!(a.intersects(TBox(pt(4, 4), pt(6, 6))));
    assert!(a.intersects(TBox(pt(0, 0), pt(2, 2))));
    assert!(a.intersects(TBox(pt(3, 0), pt(3, 9))));
    assert!(a.intersects(TBox(pt(3, 3), pt(3, 3))));
    assert!(!a.intersects(TBox(pt(5, 2), pt(6, 4))));
    assert!(!a.intersects(TBox(pt(0, 2), pt(1, 4))));
    assert!(!a.intersects(TBox(pt(2, 5), pt(4, 6))));
    assert!(!a.intersects(TBox(pt(2, 0), pt(4, 1))));
}

#[test]
fn tbox_in_dir_shifts_both_corners() {
    let b = TBox(pt(1, 1), pt(2, 3));
    assert_eq!(b.in_dir(Up), Some(TBox(pt(0, 1), pt(1, 3))));
    assert_eq!(b.in_dir(Dn), Some(TBox(pt(2, 1), pt(3, 3))));
    assert_eq!(b.in_dir(Lt), Some(TBox(pt(1, 0), pt(2, 2))));
    assert_eq!(b.in_dir(Rt), Some(TBox(pt(1, 2), pt(2, 4))));
    let edge = TBox(pt(0, 0), pt(2, 3));
    assert_eq!(edge.in_dir(Up), None);
    assert_eq!(edge.in_dir(Lt), None);
    assert_eq!(TBox(pt(0, 0), pt(usize::MAX, 3)).in_dir(Dn), None);
}

#[test]
fn tbox_points_in_reading_order() {
    let b = TBox(pt(1, 2), pt(2, 4));
    assert_eq!(
        b.points(),
        vec![pt(1, 2), pt(1, 3), pt(1, 4), pt(2, 2), pt(2, 3), pt(2, 4)]
    );
    assert_eq!(TBox(pt(7, 7), pt(7, 7)).points(), vec![pt(7, 7)]);
    assert_eq!(
        TBox(pt(0, usize::MAX - 1), pt(0, usize::MAX)).points(),
        vec![pt(0, usize::MAX - 1), pt(0, usize::MAX)]
    );
}

#[test]
fn tbox_points_of_a_reversed_box_are_none() {
    assert_eq!(TBox(pt(3, 0), pt(1, 5)).points(), Vec::<Point>::new());
    assert_eq!(TBox(pt(1, 5), pt(3, 0)).points(), Vec::<Point>::new());
}

#[test]
fn border_in_dir_gives_each_side() {
    let b = TBox(pt(1, 2), pt(5, 9));
    assert_eq!(border_in_dir(b, Up), TBox(pt(1, 2), pt(1, 9)));
    assert_eq!(border_in_dir(b, Dn), TBox(pt(5, 2), pt(5, 9)));
    assert_eq!(border_in_dir(b, Lt), TBox(pt(1, 2), pt(5, 2)));
    assert_eq!(border_in_dir(b, Rt), TBox(pt(1, 9), pt(5, 9)));
}

#[test]
fn border_leaves_out_sides_at_the_edge() {
    let b = TBox(pt(0, 0), pt(1, 1));
    assert_eq!(
        border(b),
        vec![
            (pt(2, 0), Dn),
            (pt(2, 1), Dn),
            (pt(0, 2), Rt),
            (pt(1, 2), Rt),
        ]
    );
}

#[test]
fn border_points_lie_just_outside() {
    let b = TBox(pt(3, 4), pt(6, 8));
    let probes = border(b);
    assert_eq!(probes.len(), 2 * 5 + 2 * 4);
    for (p, d) in probes {
        assert!(!b.contains(p));
        let back = p.in_dir(d.rev()).unwrap();
        assert!(b.contains(back));
    }
}

#[test]
fn path_contains_listed_points() {
    let path = vec![pt(2, 6), pt(1, 6), pt(1, 18), pt(3, 18), pt(3, 12)];
    for p in path.iter() {
        assert!(path_contains(&path, *p));
    }
}

#[test]
fn path_contains_points_on_the_runs() {
    let path = vec![pt(2, 6), pt(1, 6), pt(1, 18), pt(3, 18), pt(3, 12)];
    for col in 6..=18 {
        assert!(path_contains(&path, pt(1, col)));
    }
    assert!(path_contains(&path, pt(2, 18)));
    for col in 12..=18 {
        assert!(path_contains(&path, pt(3, col)));
    }
    assert!(!path_contains(&path, pt(2, 7)));
    assert!(!path_contains(&path, pt(0, 6)));
    assert!(!path_contains(&path, pt(3, 11)));
    assert!(!path_contains(&path, pt(4, 18)));
    assert!(!path_contains(&path, pt(1, 19)));
}

#[test]
fn path_contains_on_short_paths() {
    assert!(!path_contains(&vec![], pt(0, 0)));
    let one = vec![pt(4, 4)];
    assert!(path_contains(&one, pt(4, 4)));
    assert!(!path_contains(&one, pt(4, 5)));
}

#[test]
fn lines_at_is_absent_past_any_bound() {
    let lines = Lines(vec![vec!['a', 'b', 'c'], vec![], vec!['d']]);
    assert_eq!(lines.at(pt(0, 0)), Some('a'));
    assert_eq!(lines.at(pt(0, 2)), Some('c'));
    assert_eq!(lines.at(pt(0, 3)), None);
    assert_eq!(lines.at(pt(1, 0)), None);
    assert_eq!(lines.at(pt(2, 0)), Some('d'));
    assert_eq!(lines.at(pt(2, 1)), None);
    assert_eq!(lines.at(pt(3, 0)), None);
    assert_eq!(lines.at(pt(usize::MAX, usize::MAX)), None);
    assert_eq!(Lines(vec![]).at(pt(0, 0)), None);
}

#[test]
fn lines_in_dir_finds_the_neighbour() {
    let lines = Lines(vec![vec!['a', 'b', 'c'], vec!['d'], vec!['e', 'f']]);
    assert_eq!(lines.in_dir(pt(0, 0), Rt), Some((pt(0, 1), 'b')));
    assert_eq!(lines.in_dir(pt(0, 0), Dn), Some((pt(1, 0), 'd')));
    assert_eq!(lines.in_dir(pt(0, 0), Up), None);
    assert_eq!(lines.in_dir(pt(0, 0), Lt), None);
    assert_eq!(lines.in_dir(pt(0, 1), Dn), None);
    assert_eq!(lines.in_dir(pt(1, 1), Dn), Some((pt(2, 1), 'f')));
    assert_eq!(lines.in_dir(pt(2, 1), Rt), None);
    assert_eq!(lines.in_dir(pt(2, 0), Dn), None);
    assert_eq!(lines.in_dir(pt(3, 0), Up), Some((pt(2, 0), 'e')));
}

#[test]
fn lines_cells_in_reading_order() {
    let lines = Lines(vec![vec!['a', 'b'], vec![], vec!['c']]);
    assert_eq!(
        lines.cells(),
        vec![(pt(0, 0), 'a'), (pt(0, 1), 'b'), (pt(2, 0), 'c')]
    );
    assert_eq!(Lines(vec![]).cells(), vec![]);
}

#[test]
fn lines_index_and_set() {
    let mut lines = Lines(vec![vec!['a', 'b'], vec!['c']]);
    assert_eq!(lines[pt(0, 1)], 'b');
    assert_eq!(lines[pt(1, 0)], 'c');
    lines.set(pt(0, 1), '|');
    assert_eq!(lines[pt(0, 1)], '|');
    assert_eq!(lines.0, vec![vec!['a', '|'], vec!['c']]);
}

#[test]
fn directions_are_distinct() {
    let all: [Direction; 4] = [Up, Dn, Lt, Rt];
    for i in 0..4 {
        for j in 0..4 {
            assert_eq!(all[i] == all[j], i == j);
        }
    }
}
