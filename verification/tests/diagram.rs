use boxdiagram::Direction::{Dn, Lt, Rt, Up};
use boxdiagram::{
    border, boxes, move_inside, scan_dir, scan_path, top_lefts, Direction, Lines, Point, TBox,
};

fn lines() -> Lines {
    let lines: Vec<Vec<char>> = r#"
 ,---.,-----------.
 |   |',-.        |
 |   | | |  ,-----'
 '---' | |  |
       | |--'
       '-'
"#
    .lines()
    .map(|l| l.chars().collect())
    .collect();
    Lines(lines)
}

#[test]
fn test_top_lefts() {
    let lines = lines();
    assert_eq!(
        vec![
            (Point { row: 1, col: 1 }, ','),
            (Point { row: 1, col: 6 }, ','),
            (Point { row: 2, col: 7 }, ','),
            (Point { row: 3, col: 12 }, ','),
        ],
        top_lefts(&lines)
    );
}

#[test]
fn test_scan_dir() {
    let lines = lines();

    let tl = Point { row: 1, col: 1 };
    let tr = Point { row: 1, col: 5 };
    let bl = Point { row: 4, col: 1 };
    let br = Point { row: 4, col: 5 };
    assert_eq!(Some((tr, '.')), scan_dir(&lines, tl, Direction::Rt),);
    assert_eq!(Some((bl, '\'')), scan_dir(&lines, tl, Direction::Dn),);
    assert_eq!(Some((br, '\'')), scan_dir(&lines, bl, Direction::Rt),);

    assert_eq!(
        Some((Point { row: 1, col: 18 }, '.')),
        scan_dir(&lines, Point { row: 1, col: 6 }, Direction::Rt),
    );
    assert_eq!(
        Some((Point { row: 2, col: 6 }, '\'')),
        scan_dir(&lines, Point { row: 1, col: 6 }, Direction::Dn),
    );
    assert_eq!(
        Some((Point { row: 1, col: 6 }, ',')),
        scan_dir(&lines, Point { row: 1, col: 6 }, Direction::Lt),
    );
}

#[test]
fn test_boxes() {
    let lines = lines();
    assert_eq!(
        vec![
            TBox(Point { row: 1, col: 1 }, Point { row: 4, col: 5 }),
            TBox(Point { row: 2, col: 7 }, Point { row: 6, col: 9 }),
        ],
        boxes(&lines),
    );
}

#[test]
fn test_scan_path() {
    let lines = lines();

    let mut pth = vec![
        Point { row: 2, col: 6 },
        Point { row: 1, col: 6 },
        Point { row: 1, col: 18 },
        Point { row: 3, col: 18 },
        Point { row: 3, col: 12 },
        Point { row: 5, col: 12 },
        Point { row: 5, col: 10 },
    ];

    assert_eq!(pth, scan_path(&lines, pth[0], Direction::Rt),);
    // should work in reverse
    pth.reverse();
    assert_eq!(pth, scan_path(&lines, pth[0], Direction::Rt),);

    // |--' |--'
    //  ^     ^
    // instead of the beginning, start a little aways
    pth[0].col += 1;
    assert_eq!(pth, scan_path(&lines, pth[0], Direction::Rt),);
}

#[test]
fn test_box_contains() {
    let lb = TBox(Point { row: 1, col: 1 }, Point { row: 4, col: 5 });

    assert_eq!(true, lb.contains(lb.0) && lb.contains(lb.1));
    assert_eq!(false, lb.contains(Point { row: 5, col: 4 }),);
}

#[test]
fn test_border() {
    let b = TBox(Point { row: 1, col: 1 }, Point { row: 3, col: 4 });
    assert_eq!(
        vec![
            (Point { row: 0, col: 1 }, Up),
            (Point { row: 0, col: 2 }, Up),
            (Point { row: 0, col: 3 }, Up),
            (Point { row: 0, col: 4 }, Up),
            (Point { row: 4, col: 1 }, Dn),
            (Point { row: 4, col: 2 }, Dn),
            (Point { row: 4, col: 3 }, Dn),
            (Point { row: 4, col: 4 }, Dn),
            (Point { row: 1, col: 0 }, Lt),
            (Point { row: 2, col: 0 }, Lt),
            (Point { row: 3, col: 0 }, Lt),
            (Point { row: 1, col: 5 }, Rt),
            (Point { row: 2, col: 5 }, Rt),
            (Point { row: 3, col: 5 }, Rt),
        ],
        border(b)
    )
}

#[test]
fn test_move_inside() {
    let pbox = TBox(Point { row: 0, col: 0 }, Point { row: 0, col: 0 });
    let vbox = TBox(Point { row: 0, col: 0 }, Point { row: 1, col: 1 });

    assert_eq!(move_inside(pbox, vbox, Direction::Up), None);
    assert_eq!(move_inside(pbox, vbox, Direction::Lt), None);
    assert_eq!(
        move_inside(pbox, vbox, Direction::Rt),
        Some(TBox(Point { row: 0, col: 1 }, Point { row: 0, col: 1 }))
    );
    assert_eq!(
        move_inside(pbox, vbox, Direction::Dn),
        Some(TBox(Point { row: 1, col: 0 }, Point { row: 1, col: 0 }))
    );
    let pbox = move_inside(pbox, vbox, Direction::Dn).unwrap();
    assert_eq!(move_inside(pbox, vbox, Direction::Dn), None);
}
