use molterm::canvas::Canvas;

fn braille(mask: u8) -> char {
    char::from_u32(0x2800 + mask as u32).unwrap()
}

#[test]
fn set_accumulates_bits_in_one_cell() {
    // Three dots in the cell at (0, 0): sub-positions (0,0), (1,1), (0,3).
    let mut c = Canvas::new();
    c.set(0, 0);
    c.set(1, 1);
    c.set(0, 3);
    let expected = format!("{}\r\n", braille(0x01 | 0x10 | 0x40));
    assert_eq!(c.frame(), expected);
}

#[test]
fn set_order_does_not_matter() {
    let mut a = Canvas::new();
    a.set(0, 0);
    a.set(1, 1);
    a.set(3, 2);
    let mut b = Canvas::new();
    b.set(3, 2);
    b.set(1, 1);
    b.set(0, 0);
    assert_eq!(a.frame(), b.frame());
}

#[test]
fn frame_of_new_canvas_is_empty() {
    let c = Canvas::new();
    assert_eq!(c.frame(), String::new());
}

#[test]
fn clear_then_frame_is_empty() {
    let mut c = Canvas::new();
    c.set(5, 7);
    c.line(-3, -2, 4, 9);
    assert!(!c.frame().is_empty());
    c.clear();
    assert_eq!(c.frame(), String::new());
}

#[test]
fn floor_division_maps_negative_columns() {
    // Sub-cell columns after rounding as the interactive pipeline rounds:
    // -1.0 -> -1, -0.4 -> 0, 0.0 -> 0, 0.4 -> 0, 1.0 -> 1, 1.9 -> 2, 2.0 -> 2.
    let samples: [(f32, i32); 7] = [
        (-1.0, -1),
        (-0.4, 0),
        (0.0, 0),
        (0.4, 0),
        (1.0, 0),
        (1.9, 1),
        (2.0, 1),
    ];
    for (x, expected_col) in samples {
        let ix = x.round() as i32;
        let mut c = Canvas::new();
        // A reference dot in column 2 so the frame width reveals the column.
        c.set(4, 0);
        c.set(ix, 0);
        let frame = c.frame();
        let line = frame.lines().next().unwrap();
        let width = line.chars().count();
        assert_eq!(width, (2 - expected_col + 1) as usize, "x = {}", x);
    }
}

#[test]
fn negative_column_is_left_of_zero_not_merged() {
    // Sub-cell x = -1 must land in cell column -1, not be truncated into
    // column 0.
    let mut c = Canvas::new();
    c.set(-1, 0);
    c.set(0, 0);
    let frame = c.frame();
    // Two separate cells: (-1, 0) holds sub-position (1, 0), (0, 0) holds
    // sub-position (0, 0).
    let expected = format!("{}{}\r\n", braille(0x08), braille(0x01));
    assert_eq!(frame, expected);
}

#[test]
fn degenerate_line_equals_single_set() {
    let mut a = Canvas::new();
    a.line(5, 7, 5, 7);
    let mut b = Canvas::new();
    b.set(5, 7);
    assert_eq!(a.frame(), b.frame());
}

#[test]
fn horizontal_line_swap_same_frame() {
    let mut a = Canvas::new();
    a.line(0, 0, 6, 0);
    let mut b = Canvas::new();
    b.line(6, 0, 0, 0);
    assert_eq!(a.frame(), b.frame());
}

#[test]
fn vertical_line_swap_same_frame() {
    let mut a = Canvas::new();
    a.line(2, -3, 2, 8);
    let mut b = Canvas::new();
    b.line(2, 8, 2, -3);
    assert_eq!(a.frame(), b.frame());
}

#[test]
fn diagonal_line_swap_same_frame() {
    let mut a = Canvas::new();
    a.line(0, 0, 5, 5);
    let mut b = Canvas::new();
    b.line(5, 5, 0, 0);
    assert_eq!(a.frame(), b.frame());
}

#[test]
fn bounding_rectangle_tracks_extremes() {
    // Dots in cells (-1, -1) and (1, 1): the frame must span 3 columns
    // and 3 rows, with blanks in the untouched cells.
    let mut c = Canvas::new();
    c.set(-2, -4);
    c.set(3, 7);
    let frame = c.frame();
    let rows: Vec<&str> = frame.lines().collect();
    assert_eq!(rows.len(), 3);
    for row in &rows {
        assert_eq!(row.chars().count(), 3);
    }
    assert_eq!(rows[0].chars().next().unwrap(), braille(0x01));
    assert_eq!(rows[0].chars().nth(1).unwrap(), ' ');
    assert!(rows[1].chars().all(|ch| ch == ' '));
    assert_eq!(rows[2].chars().nth(2).unwrap(), braille(0x80));
}

#[test]
fn line_covers_expected_cells() {
    // A shallow line from sub-cell (0,0) to (9,3) stays in cell row 0 and
    // spans cell columns 0 through 4.
    let mut c = Canvas::new();
    c.line(0, 0, 9, 3);
    let frame = c.frame();
    let rows: Vec<&str> = frame.lines().collect();
    assert_eq!(rows.len(), 1);
    assert_eq!(rows[0].chars().count(), 5);
    for ch in rows[0].chars() {
        assert_ne!(ch, ' ');
    }
}

#[test]
fn line_includes_both_endpoints() {
    let mut c = Canvas::new();
    c.line(0, 0, 9, 6);
    // Endpoint cells are (0, 0) and (4, 1): the first char of the first
    // row and the last char of the last row.
    let frame = c.frame();
    let rows: Vec<&str> = frame.lines().collect();
    assert_ne!(rows[0].chars().next().unwrap(), ' ');
    assert_ne!(rows.last().unwrap().chars().last().unwrap(), ' ');
}

#[test]
fn get_pixel_map_matches_documented_layout() {
    assert_eq!(Canvas::get_pixel_map(0, 0), ((0, 0), 0x01));
    assert_eq!(Canvas::get_pixel_map(0, 1), ((0, 0), 0x02));
    assert_eq!(Canvas::get_pixel_map(0, 2), ((0, 0), 0x04));
    assert_eq!(Canvas::get_pixel_map(0, 3), ((0, 0), 0x40));
    assert_eq!(Canvas::get_pixel_map(1, 0), ((0, 0), 0x08));
    assert_eq!(Canvas::get_pixel_map(1, 1), ((0, 0), 0x10));
    assert_eq!(Canvas::get_pixel_map(1, 2), ((0, 0), 0x20));
    assert_eq!(Canvas::get_pixel_map(1, 3), ((0, 0), 0x80));
    assert_eq!(Canvas::get_pixel_map(-1, -1), ((-1, -1), 0x80));
    assert_eq!(Canvas::get_pixel_map(-2, -4), ((-1, -1), 0x01));
    assert_eq!(Canvas::get_pixel_map(4, 8), ((2, 2), 0x01));
}
