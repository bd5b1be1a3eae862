use boxdiagram::Direction::{Dn, Lt, Rt, Up};
use boxdiagram::viewer::{in_view, widest_line};
use boxdiagram::{
    command_for, find_box, move_inside, simp_draw, style_at, Command, Event, Lines, Point, Style,
    TBox, Token, Viewer,
};

fn pt(row: usize, col: usize) -> Point {
    Point { row, col }
}

fn grid(rows: &[&str]) -> Lines {
    Lines(rows.iter().map(|l| l.chars().collect()).collect())
}

fn page() -> Lines {
    // 10 rows of 20 characters each.
    Lines(vec![vec!['.'; 20]; 10])
}

fn key(code: char) -> Event {
    Event::Key {
        code,
        control: false,
    }
}

#[test]
fn move_inside_stays_within_outer() {
    let outer = TBox(pt(2, 2), pt(5, 6));
    for row in 2..=5 {
        for col in 2..=6 {
            let inner = TBox(pt(row, col), pt(row, col));
            assert_eq!(move_inside(inner, outer, Up).is_some(), row > 2);
            assert_eq!(move_inside(inner, outer, Dn).is_some(), row < 5);
            assert_eq!(move_inside(inner, outer, Lt).is_some(), col > 2);
            assert_eq!(move_inside(inner, outer, Rt).is_some(), col < 6);
            for d in [Up, Dn, Lt, Rt] {
                if let Some(moved) = move_inside(inner, outer, d) {
                    assert_eq!(Some(moved), inner.in_dir(d));
                    assert!(outer.contains(moved.0) && outer.contains(moved.1));
                }
            }
        }
    }
}

#[test]
fn move_inside_moves_a_whole_window() {
    let outer = TBox(pt(0, 0), pt(9, 20));
    let window = TBox(pt(0, 0), pt(2, 3));
    assert_eq!(move_inside(window, outer, Dn), Some(TBox(pt(1, 0), pt(3, 3))));
    assert_eq!(move_inside(window, outer, Up), None);
    let low = TBox(pt(7, 0), pt(9, 3));
    assert_eq!(move_inside(low, outer, Dn), None);
    assert_eq!(move_inside(low, outer, Up), Some(TBox(pt(6, 0), pt(8, 3))));
}

#[test]
fn key_bindings() {
    assert_eq!(command_for(key('q')), Command::Quit);
    assert_eq!(
        command_for(Event::Key {
            code: 'c',
            control: true
        }),
        Command::Quit
    );
    assert_eq!(command_for(key('j')), Command::Move(Dn));
    assert_eq!(command_for(key('k')), Command::Move(Up));
    assert_eq!(command_for(key('l')), Command::Move(Rt));
    assert_eq!(command_for(key('h')), Command::Move(Lt));
    assert_eq!(command_for(key('c')), Command::Nothing);
    assert_eq!(command_for(key('x')), Command::Nothing);
    assert_eq!(command_for(key('J')), Command::Nothing);
    for code in ['q', 'j', 'k', 'l', 'h'] {
        assert_eq!(
            command_for(Event::Key {
                code,
                control: true
            }),
            Command::Nothing
        );
    }
    assert_eq!(
        command_for(Event::Resize { cols: 80, rows: 24 }),
        Command::Resize { cols: 80, rows: 24 }
    );
    assert_eq!(command_for(Event::Other), Command::Nothing);
}

#[test]
fn new_viewer_starts_at_the_top_left() {
    let v = Viewer::new(80, 24);
    assert_eq!(
        v,
        Viewer {
            pr: 0,
            pc: 0,
            vr: 0,
            vc: 0,
            cols: 80,
            rows: 24,
            dirty: true,
            focus: None
        }
    );
    assert_eq!(v.cursor(), pt(0, 0));
}

#[test]
fn cursor_adds_the_viewport_offset() {
    let mut v = Viewer::new(80, 24);
    v.pr = 3;
    v.pc = 7;
    v.vr = 100;
    v.vc = 40;
    assert_eq!(v.cursor(), pt(103, 47));
    v.vr = usize::MAX;
    assert_eq!(v.cursor(), pt(usize::MAX, 47));
}

#[test]
fn cursor_moves_on_the_screen_first() {
    let lines = page();
    let mut v = Viewer::new(4, 3);
    v.dirty = false;
    v.move_cursor(&lines, Dn);
    assert_eq!((v.pr, v.pc, v.vr, v.vc, v.dirty), (1, 0, 0, 0, false));
    v.move_cursor(&lines, Rt);
    assert_eq!((v.pr, v.pc, v.vr, v.vc, v.dirty), (1, 1, 0, 0, false));
    v.move_cursor(&lines, Up);
    assert_eq!((v.pr, v.pc, v.vr, v.vc, v.dirty), (0, 1, 0, 0, false));
    v.move_cursor(&lines, Lt);
    assert_eq!((v.pr, v.pc, v.vr, v.vc, v.dirty), (0, 0, 0, 0, false));
}

#[test]
fn viewport_pans_at_the_side_of_the_screen() {
    let lines = page();
    let mut v = Viewer::new(4, 3);
    v.dirty = false;
    v.pr = 2;
    v.move_cursor(&lines, Dn);
    assert_eq!((v.pr, v.pc, v.vr, v.vc, v.dirty), (2, 0, 1, 0, true));
}

#[test]
fn viewport_stays_at_the_top_left_of_the_grid() {
    let lines = page();
    let mut v = Viewer::new(4, 3);
    v.dirty = false;
    v.move_cursor(&lines, Up);
    assert_eq!((v.pr, v.pc, v.vr, v.vc, v.dirty), (0, 0, 0, 0, false));
    v.move_cursor(&lines, Lt);
    assert_eq!((v.pr, v.pc, v.vr, v.vc, v.dirty), (0, 0, 0, 0, false));
}

#[test]
fn viewport_stops_at_the_last_row() {
    let lines = page();
    let mut v = Viewer::new(4, 3);
    v.pr = 2;
    for _ in 0..50 {
        v.move_cursor(&lines, Dn);
    }
    // The viewport shows rows 7 to 9, the last three of the grid.
    assert_eq!((v.pr, v.vr), (2, 7));
    assert_eq!(v.cursor(), pt(9, 0));
}

#[test]
fn resize_clamps_the_cursor() {
    let mut v = Viewer::new(80, 24);
    v.pr = 10;
    v.pc = 50;
    v.vr = 3;
    v.vc = 4;
    v.dirty = false;
    v.resize(20, 5);
    assert_eq!((v.cols, v.rows), (20, 5));
    assert_eq!((v.pr, v.pc), (4, 19));
    assert_eq!((v.vr, v.vc), (3, 4));
    assert!(v.dirty);
}

#[test]
fn resize_leaves_a_cursor_that_fits() {
    let mut v = Viewer::new(80, 24);
    v.pr = 2;
    v.pc = 3;
    v.resize(100, 40);
    assert_eq!((v.pr, v.pc, v.cols, v.rows), (2, 3, 100, 40));
    v.resize(4, 3);
    assert_eq!((v.pr, v.pc, v.cols, v.rows), (2, 3, 4, 3));
}

#[test]
fn resize_to_nothing_puts_the_cursor_first() {
    let mut v = Viewer::new(80, 24);
    v.pr = 2;
    v.pc = 3;
    v.resize(0, 0);
    assert_eq!((v.pr, v.pc, v.cols, v.rows), (0, 0, 0, 0));
}

#[test]
fn resize_never_moves_the_cursor_out_of_the_grid() {
    let lines = page();
    let bounds = TBox(pt(0, 0), pt(9, 19));
    for (cols, rows) in [(0, 0), (1, 1), (3, 9), (20, 10), (500, 500)] {
        let mut v = Viewer::new(20, 10);
        v.pr = 6;
        v.pc = 11;
        v.vr = 2;
        v.vc = 5;
        assert!(bounds.contains(v.cursor()));
        let before = v.cursor();
        v.handle(&lines, &vec![], Event::Resize { cols, rows });
        let after = v.cursor();
        assert!(bounds.contains(after));
        assert!(after.row <= before.row && after.col <= before.col);
        if rows > 0 {
            assert!(v.pr < rows);
        }
        if cols > 0 {
            assert!(v.pc < cols);
        }
    }
}

#[test]
fn focus_follows_the_cursor() {
    let lines = page();
    let bs = vec![TBox(pt(1, 0), pt(2, 5)), TBox(pt(0, 0), pt(9, 9))];
    let mut v = Viewer::new(20, 10);
    v.dirty = false;
    assert_eq!(v.handle(&lines, &bs, Event::Other), false);
    assert_eq!(v.focus, Some(bs[1]));
    assert!(v.dirty);
    v.dirty = false;
    assert_eq!(v.handle(&lines, &bs, key('j')), false);
    assert_eq!(v.pr, 1);
    assert_eq!(v.focus, Some(bs[0]));
    assert!(v.dirty);
    v.dirty = false;
    assert_eq!(v.handle(&lines, &bs, key('l')), false);
    assert_eq!(v.focus, Some(bs[0]));
    assert!(!v.dirty);
}

#[test]
fn quit_leaves_the_viewer_alone() {
    let lines = page();
    let bs = vec![TBox(pt(0, 0), pt(9, 9))];
    let mut v = Viewer::new(20, 10);
    v.dirty = false;
    let before = v;
    assert_eq!(v.handle(&lines, &bs, key('q')), true);
    assert_eq!(v, before);
    assert_eq!(
        v.handle(
            &lines,
            &bs,
            Event::Key {
                code: 'c',
                control: true
            }
        ),
        true
    );
    assert_eq!(v, before);
}

#[test]
fn find_box_takes_the_first() {
    let bs = vec![
        TBox(pt(5, 5), pt(6, 6)),
        TBox(pt(0, 0), pt(3, 3)),
        TBox(pt(1, 1), pt(2, 2)),
    ];
    assert_eq!(find_box(&bs, pt(1, 1)), Some(bs[1]));
    assert_eq!(find_box(&bs, pt(6, 5)), Some(bs[0]));
    assert_eq!(find_box(&bs, pt(4, 4)), None);
    assert_eq!(find_box(&vec![], pt(0, 0)), None);
}

#[test]
fn widest_line_in_a_window() {
    let lines = grid(&["a", "abcd", "ab", "", "abcdefg"]);
    assert_eq!(widest_line(&lines, 0, 1), 1);
    assert_eq!(widest_line(&lines, 0, 3), 4);
    assert_eq!(widest_line(&lines, 2, 2), 2);
    assert_eq!(widest_line(&lines, 3, 1), 0);
    assert_eq!(widest_line(&lines, 0, 100), 7);
    assert_eq!(widest_line(&lines, 4, 0), 0);
    assert_eq!(widest_line(&lines, 5, 3), 0);
    assert_eq!(widest_line(&lines, usize::MAX, 3), 0);
}

#[test]
fn in_view_counts_what_fits() {
    assert_eq!(in_view(10, 30, 0), 10);
    assert_eq!(in_view(10, 30, 25), 5);
    assert_eq!(in_view(10, 30, 30), 0);
    assert_eq!(in_view(10, 30, 31), 0);
    assert_eq!(in_view(10, 4, 0), 4);
    assert_eq!(in_view(0, 4, 0), 0);
    assert_eq!(in_view(10, 0, 0), 0);
}

#[test]
fn style_ranks_edge_over_focus_over_box() {
    let es = vec![vec![pt(0, 0), pt(0, 4)]];
    let bs = vec![TBox(pt(0, 2), pt(3, 6))];
    let focus = Some(TBox(pt(0, 3), pt(1, 5)));
    assert_eq!(style_at(&es, &bs, focus, pt(0, 3)), Style::Edge);
    assert_eq!(style_at(&es, &bs, focus, pt(0, 5)), Style::Focus);
    assert_eq!(style_at(&es, &bs, focus, pt(1, 3)), Style::Focus);
    assert_eq!(style_at(&es, &bs, focus, pt(0, 6)), Style::Boxed);
    assert_eq!(style_at(&es, &bs, focus, pt(2, 3)), Style::Boxed);
    assert_eq!(style_at(&es, &bs, focus, pt(4, 4)), Style::Plain);
    assert_eq!(style_at(&es, &bs, None, pt(0, 5)), Style::Boxed);
    assert_eq!(style_at(&es, &bs, None, pt(0, 1)), Style::Edge);
    assert_eq!(style_at(&vec![], &vec![], None, pt(0, 0)), Style::Plain);
}

#[test]
fn simp_draw_paints_each_run_once() {
    let lines = grid(&["a--b", "cd"]);
    let es = vec![vec![pt(0, 1), pt(0, 2)]];
    let bs = vec![TBox(pt(1, 0), pt(1, 0))];
    assert_eq!(
        simp_draw(&lines, &es, &bs),
        vec![
            Token::Glyph('a'),
            Token::Paint(Style::Edge),
            Token::Glyph('-'),
            Token::Glyph('-'),
            Token::Paint(Style::Plain),
            Token::Glyph('b'),
            Token::NewLine,
            Token::Paint(Style::Boxed),
            Token::Glyph('c'),
            Token::Paint(Style::Plain),
            Token::Glyph('d'),
            Token::NewLine,
        ]
    );
}

#[test]
fn simp_draw_carries_a_style_over_the_line_end() {
    let lines = grid(&["ab", "c"]);
    let bs = vec![TBox(pt(0, 1), pt(1, 0))];
    // The box is reversed on the column axis and holds nothing.
    assert_eq!(
        simp_draw(&lines, &vec![], &bs),
        vec![
            Token::Glyph('a'),
            Token::Glyph('b'),
            Token::NewLine,
            Token::Glyph('c'),
            Token::NewLine,
        ]
    );
    let bs = vec![TBox(pt(0, 0), pt(1, 1))];
    assert_eq!(
        simp_draw(&lines, &vec![], &bs),
        vec![
            Token::Paint(Style::Boxed),
            Token::Glyph('a'),
            Token::Glyph('b'),
            Token::NewLine,
            Token::Glyph('c'),
            Token::NewLine,
            Token::Paint(Style::Plain),
        ]
    );
}

#[test]
fn simp_draw_of_nothing() {
    assert_eq!(simp_draw(&Lines(vec![]), &vec![], &vec![]), vec![]);
    assert_eq!(
        simp_draw(&Lines(vec![vec![], vec![]]), &vec![], &vec![]),
        vec![Token::NewLine, Token::NewLine]
    );
}

#[test]
fn frame_shows_the_part_in_view() {
    let lines = grid(&["abcd", "efgh", "ij", "klmn"]);
    let es = vec![vec![pt(1, 1), pt(1, 2)]];
    let bs = vec![TBox(pt(2, 0), pt(3, 3))];
    let mut v = Viewer::new(2, 3);
    v.vr = 1;
    v.vc = 1;
    v.focus = Some(TBox(pt(3, 2), pt(3, 3)));
    assert_eq!(
        v.frame(&lines, &es, &bs),
        vec![
            vec![('f', Style::Edge), ('g', Style::Edge)],
            vec![('j', Style::Boxed)],
            vec![('l', Style::Boxed), ('m', Style::Focus)],
        ]
    );
}

#[test]
fn frame_is_empty_past_the_grid() {
    let lines = grid(&["abcd", "efgh"]);
    let mut v = Viewer::new(4, 4);
    v.vr = 2;
    assert_eq!(v.frame(&lines, &vec![], &vec![]), Vec::<Vec<(char, Style)>>::new());
    v.vr = 1;
    v.vc = 4;
    assert_eq!(v.frame(&lines, &vec![], &vec![]), vec![vec![]]);
    let none = Viewer::new(0, 0);
    assert_eq!(none.frame(&lines, &vec![], &vec![]), Vec::<Vec<(char, Style)>>::new());
}

#[test]
fn draw_hands_out_a_frame_once() {
    let lines = grid(&["ab"]);
    let mut v = Viewer::new(5, 5);
    let first = v.draw(&lines, &vec![], &vec![]);
    assert_eq!(
        first,
        Some(vec![vec![('a', Style::Plain), ('b', Style::Plain)]])
    );
    assert!(!v.dirty);
    assert_eq!(v.draw(&lines, &vec![], &vec![]), None);
    v.handle(&lines, &vec![], Event::Resize { cols: 1, rows: 1 });
    assert_eq!(
        v.draw(&lines, &vec![], &vec![]),
        Some(vec![vec![('a', Style::Plain)]])
    );
}
