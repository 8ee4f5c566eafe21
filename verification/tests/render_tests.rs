use molterm::canvas::Canvas;
use molterm::render::{
    draw_border, draw_connections, initial_model_index, next_model_index, render_scene, ViewPoint,
};

#[test]
fn bond_with_one_endpoint_outside_draws_nothing() {
    let pts = vec![
        ViewPoint { x: 0, y: 0, inside: true },
        ViewPoint { x: 8, y: 0, inside: false },
    ];
    let bonds = vec![true];
    let mut c = Canvas::new();
    draw_connections(&mut c, &pts, &bonds);
    assert_eq!(c.frame(), String::new());
}

#[test]
fn bond_with_both_endpoints_inside_draws_a_line() {
    let pts = vec![
        ViewPoint { x: 0, y: 0, inside: true },
        ViewPoint { x: 8, y: 0, inside: true },
    ];
    let bonds = vec![true];
    let mut c = Canvas::new();
    draw_connections(&mut c, &pts, &bonds);
    let mut d = Canvas::new();
    d.line(0, 0, 8, 0);
    assert_eq!(c.frame(), d.frame());
    assert!(!c.frame().is_empty());
}

#[test]
fn dropped_bond_same_frame_as_unflagged_bond() {
    let pts = vec![
        ViewPoint { x: -6, y: 2, inside: false },
        ViewPoint { x: 7, y: 5, inside: true },
        ViewPoint { x: 9, y: 9, inside: true },
    ];
    let with_flag = vec![true, true];
    let without_flag = vec![false, true];
    let a = render_scene(&mut Canvas::new(), -20, -20, 20, 20, &pts, &with_flag);
    let b = render_scene(&mut Canvas::new(), -20, -20, 20, 20, &pts, &without_flag);
    assert_eq!(a, b);
}

#[test]
fn render_scene_with_no_atoms_is_border_only() {
    let pts: Vec<ViewPoint> = Vec::new();
    let bonds: Vec<bool> = Vec::new();
    let out = render_scene(&mut Canvas::new(), -10, -10, 10, 10, &pts, &bonds);
    let mut c = Canvas::new();
    c.line(-10, -10, 10, -10);
    c.line(10, -10, 10, 10);
    c.line(10, 10, -10, 10);
    c.line(-10, 10, -10, -10);
    assert_eq!(out, c.frame());
    assert!(!out.is_empty());
}

#[test]
fn border_alone_matches_draw_border() {
    let mut a = Canvas::new();
    draw_border(&mut a, -4, -8, 5, 7);
    let mut b = Canvas::new();
    b.line(-4, -8, 5, -8);
    b.line(5, -8, 5, 7);
    b.line(5, 7, -4, 7);
    b.line(-4, 7, -4, -8);
    assert_eq!(a.frame(), b.frame());
}

#[test]
fn next_model_index_wraps() {
    assert_eq!(next_model_index(0, 3), 1);
    assert_eq!(next_model_index(1, 3), 2);
    assert_eq!(next_model_index(2, 3), 0);
    assert_eq!(next_model_index(0, 1), 0);
}

#[test]
fn initial_model_index_falls_back_to_first() {
    assert_eq!(initial_model_index(1, 5), 0);
    assert_eq!(initial_model_index(5, 5), 4);
    assert_eq!(initial_model_index(0, 5), 0);
    assert_eq!(initial_model_index(6, 5), 0);
}
