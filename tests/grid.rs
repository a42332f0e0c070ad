use std::collections::BTreeSet;

use scrollback::damage::{DamageBuffer, DrawOp, Point};
use scrollback::escape::encode;

#[test]
fn point_order() {
    let mut points: BTreeSet<Point> = BTreeSet::new();
    points.insert(Point { x: 3, y: 5 });
    points.insert(Point { x: 4, y: 5 });
    points.insert(Point { x: 5, y: 5 });
    points.insert(Point { x: 7, y: 5 });
    points.insert(Point { x: 2, y: 5 });
    points.insert(Point { x: 1, y: 6 });

    let points_ord: Vec<Point> = points.into_iter().collect();
    assert_eq!(points_ord[0], Point { x: 2, y: 5 });
    assert_eq!(points_ord[1], Point { x: 3, y: 5 });
    assert_eq!(points_ord[2], Point { x: 4, y: 5 });
    assert_eq!(points_ord[3], Point { x: 5, y: 5 });
    assert_eq!(points_ord[4], Point { x: 7, y: 5 });
    assert_eq!(points_ord[5], Point { x: 1, y: 6 });
}

#[test]
fn new_grid_flushes_nothing() {
    let mut b = DamageBuffer::new(3, 2);
    assert_eq!(b.flush(), vec![]);
}

#[test]
fn same_glyph_is_not_damage() {
    let mut b = DamageBuffer::new(3, 2);
    b.write_string(Point { y: 0, x: 0 }, " ".to_string());
    assert_eq!(b.flush(), vec![]);
}

#[test]
fn different_glyph_is_damage_and_flush_forgets_it() {
    let mut b = DamageBuffer::new(3, 2);
    b.write_string(Point { y: 1, x: 2 }, "a".to_string());
    assert_eq!(b.flush(), vec![DrawOp::MoveTo { x: 2, y: 1 }, DrawOp::Glyph('a')]);
    assert_eq!(b.flush(), vec![]);
    b.write_string(Point { y: 1, x: 2 }, "a".to_string());
    assert_eq!(b.flush(), vec![]);
}

#[test]
fn contiguous_cells_share_one_move() {
    let mut b = DamageBuffer::new(3, 2);
    b.write_string(Point { y: 1, x: 0 }, "c".to_string());
    b.write_string(Point { y: 0, x: 0 }, "ab".to_string());
    assert_eq!(
        b.flush(),
        vec![
            DrawOp::MoveTo { x: 0, y: 0 },
            DrawOp::Glyph('a'),
            DrawOp::Glyph('b'),
            DrawOp::MoveTo { x: 0, y: 1 },
            DrawOp::Glyph('c'),
        ]
    );
}

#[test]
fn row_end_does_not_count_as_contiguous() {
    let mut b = DamageBuffer::new(2, 2);
    b.write_string(Point { y: 0, x: 1 }, "a".to_string());
    b.write_string(Point { y: 1, x: 0 }, "b".to_string());
    assert_eq!(
        b.flush(),
        vec![
            DrawOp::MoveTo { x: 1, y: 0 },
            DrawOp::Glyph('a'),
            DrawOp::MoveTo { x: 0, y: 1 },
            DrawOp::Glyph('b'),
        ]
    );
}

#[test]
fn writes_past_the_edge_are_dropped() {
    let mut b = DamageBuffer::new(3, 1);
    b.write_string(Point { y: 0, x: 1 }, "abcd".to_string());
    b.write_string(Point { y: 4, x: 0 }, "zz".to_string());
    b.write_string(Point { y: 0, x: 7 }, "zz".to_string());
    assert_eq!(
        b.flush(),
        vec![DrawOp::MoveTo { x: 1, y: 0 }, DrawOp::Glyph('a'), DrawOp::Glyph('b')]
    );
}

#[test]
fn resize_redraws_every_cell() {
    let mut b = DamageBuffer::new(2, 2);
    b.write_string(Point { y: 0, x: 0 }, "xy".to_string());
    b.resize(2, 1);
    assert_eq!(
        b.flush(),
        vec![DrawOp::MoveTo { x: 0, y: 0 }, DrawOp::Glyph(' '), DrawOp::Glyph(' ')]
    );
    assert_eq!(b.flush(), vec![]);
}

#[test]
fn clear_wipes_the_screen_first() {
    let mut b = DamageBuffer::new(1, 2);
    b.write_string(Point { y: 0, x: 0 }, "q".to_string());
    b.clear();
    assert_eq!(
        b.flush(),
        vec![
            DrawOp::ClearScreen,
            DrawOp::MoveTo { x: 0, y: 0 },
            DrawOp::Glyph(' '),
            DrawOp::MoveTo { x: 0, y: 1 },
            DrawOp::Glyph(' '),
        ]
    );
}

#[test]
fn encode_writes_escape_sequences() {
    let ops = vec![
        DrawOp::ClearScreen,
        DrawOp::MoveTo { x: 2, y: 4 },
        DrawOp::Glyph('z'),
        DrawOp::MoveTo { x: 0, y: 0 },
        DrawOp::MoveTo { x: 119, y: 9 },
    ];
    assert_eq!(encode(&ops), "\x1b[2J\x1b[5;3Hz\x1b[1;1H\x1b[10;120H");
}

#[test]
fn encode_of_nothing_is_empty() {
    assert_eq!(encode(&vec![]), "");
}
