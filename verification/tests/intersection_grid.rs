use anoto_dot_reader::intersection_grid::{
    arrow_for_dot, build_intersection_grid, col_kind_for_x, lines_with_synthetic, median_step,
    nearest_type_color, row_kind_for_y, ColKind, Color, DotCell, RowKind, TypePalette,
};

fn rgba(r: u8, g: u8, b: u8) -> Color {
    Color { r, g, b, a: 255 }
}

fn palette() -> TypePalette {
    TypePalette {
        green: rgba(0, 255, 0),
        orange: rgba(255, 165, 0),
        blue: rgba(0, 0, 255),
        magenta: rgba(255, 0, 255),
    }
}

fn dot(x: i32, y: i32, c: Color) -> DotCell {
    DotCell { x, y, type_color: c }
}

fn cells(rows: &[&[&str]]) -> Vec<Vec<String>> {
    rows.iter().map(|r| r.iter().map(|c| c.to_string()).collect()).collect()
}

#[test]
fn nearest_palette_color_and_arrow() {
    let p = palette();
    assert_eq!(nearest_type_color(rgba(10, 240, 20), &p), p.green);
    assert_eq!(nearest_type_color(rgba(250, 150, 10), &p), p.orange);
    assert_eq!(nearest_type_color(rgba(20, 20, 200), &p), p.blue);
    assert_eq!(nearest_type_color(rgba(240, 10, 250), &p), p.magenta);
    // A tie goes to the first of green, orange, blue, magenta.
    let same = TypePalette { green: rgba(1, 1, 1), orange: rgba(1, 1, 1), blue: rgba(9, 9, 9), magenta: rgba(9, 9, 9) };
    assert_eq!(nearest_type_color(rgba(1, 1, 1), &same), rgba(1, 1, 1));
    assert_eq!(arrow_for_dot(&dot(0, 0, rgba(0, 250, 0)), &p), Some('↑'));
    assert_eq!(arrow_for_dot(&dot(0, 0, rgba(255, 160, 0)), &p), Some('↓'));
    assert_eq!(arrow_for_dot(&dot(0, 0, rgba(0, 0, 250)), &p), Some('←'));
    assert_eq!(arrow_for_dot(&dot(0, 0, rgba(250, 0, 250)), &p), Some('→'));
}

#[test]
fn kinds_of_rows_and_columns() {
    let p = palette();
    let dots = vec![
        dot(10, 10, p.green),
        dot(20, 10, p.blue),
        dot(30, 10, p.green),
        dot(10, 20, p.orange),
        dot(20, 20, p.magenta),
        dot(30, 20, p.magenta),
    ];
    assert_eq!(row_kind_for_y(&dots, 10, &p), RowKind::Green);
    assert_eq!(row_kind_for_y(&dots, 20, &p), RowKind::Mid);
    assert_eq!(row_kind_for_y(&dots, 15, &p), RowKind::Unknown);
    assert_eq!(col_kind_for_x(&dots, 10, &p), ColKind::Vertical);
    assert_eq!(col_kind_for_x(&dots, 20, &p), ColKind::Blue);
    assert_eq!(col_kind_for_x(&dots, 30, &p), ColKind::Vertical);
    assert_eq!(col_kind_for_x(&dots, 99, &p), ColKind::Unknown);
    let oranges = vec![dot(5, 40, p.orange), dot(6, 40, p.orange), dot(7, 40, p.blue)];
    assert_eq!(row_kind_for_y(&oranges, 40, &p), RowKind::Orange);
    let magentas = vec![dot(8, 1, p.magenta), dot(8, 2, p.magenta), dot(8, 3, p.green)];
    assert_eq!(col_kind_for_x(&magentas, 8, &p), ColKind::Magenta);
}

#[test]
fn median_of_positive_steps() {
    assert_eq!(median_step(vec![3, -1, 5, 0, 4]), Some(4));
    assert_eq!(median_step(vec![10, 10, 30]), Some(10));
    assert_eq!(median_step(vec![7, 2]), Some(7));
    assert_eq!(median_step(vec![0, -3]), None);
    assert_eq!(median_step(Vec::new()), None);
}

#[test]
fn synthetic_rows_in_gaps() {
    let p = palette();
    // Phases green, mid, orange, then orange again: two rows missing, at the thirds.
    let dots = vec![
        dot(0, 0, p.green),
        dot(0, 10, p.blue),
        dot(0, 20, p.orange),
        dot(0, 50, p.orange),
    ];
    let (all, synth) = lines_with_synthetic(&dots, &p, true, None, false);
    assert_eq!(all, vec![0, 10, 20, 30, 40, 50]);
    assert_eq!(synth, vec![30, 40]);
    // Orange then mid: one row missing, at the midpoint.
    let dots = vec![
        dot(0, 0, p.green),
        dot(0, 10, p.blue),
        dot(0, 20, p.orange),
        dot(0, 50, p.blue),
    ];
    let (all, synth) = lines_with_synthetic(&dots, &p, true, None, false);
    assert_eq!(all, vec![0, 10, 20, 35, 50]);
    assert_eq!(synth, vec![35]);
    let (all, synth) = lines_with_synthetic(&dots, &p, true, Some((0, 30)), false);
    assert_eq!(all, vec![0, 10, 20, 50]);
    assert!(synth.is_empty());
}

#[test]
fn synthetic_leading_lines() {
    let p = palette();
    // The first row is orange: green and mid rows are missing before it.
    let dots = vec![dot(3, 5, p.orange), dot(3, 15, p.green)];
    let (all, synth) = lines_with_synthetic(&dots, &p, true, None, true);
    assert_eq!(all, vec![-15, -5, 5, 15]);
    assert_eq!(synth, vec![-15, -5]);
    let (all, synth) = lines_with_synthetic(&dots, &p, true, Some((0, 100)), true);
    assert_eq!(all, vec![5, 15]);
    assert!(synth.is_empty());
    let (all, synth) = lines_with_synthetic(&dots, &p, true, None, false);
    assert_eq!(all, vec![5, 15]);
    assert!(synth.is_empty());
    // The first column is vertical (green and orange dots): one blue column before it.
    let dots = vec![dot(10, 0, p.green), dot(10, 9, p.orange), dot(20, 0, p.blue)];
    let (all, synth) = lines_with_synthetic(&dots, &p, false, None, true);
    assert_eq!(all, vec![0, 10, 20]);
    assert_eq!(synth, vec![0]);
}

#[test]
fn fewer_than_two_lines() {
    let p = palette();
    let (all, synth) = lines_with_synthetic(&Vec::new(), &p, false, None, true);
    assert!(all.is_empty() && synth.is_empty());
    let dots = vec![dot(4, 4, p.orange), dot(4, 9, p.green)];
    let (all, synth) = lines_with_synthetic(&dots, &p, false, None, true);
    assert_eq!(all, vec![4]);
    assert!(synth.is_empty());
}

#[test]
fn grid_of_four_dots() {
    let p = palette();
    let dots = vec![
        dot(10, 10, p.green),
        dot(20, 10, p.blue),
        dot(10, 20, p.orange),
        dot(20, 20, p.magenta),
    ];
    let grid = build_intersection_grid(&dots, &p);
    assert_eq!(grid, cells(&[&[" ", "↑", "←"], &[" ", "↓", "→"]]));
}

#[test]
fn first_dot_at_an_intersection_wins() {
    let p = palette();
    let dots = vec![
        dot(10, 10, p.green),
        dot(10, 10, p.orange),
        dot(20, 10, p.magenta),
        dot(20, 10, p.blue),
        dot(10, 20, p.green),
    ];
    // The row at y = 10 is a mid row, so a green row is padded in before it.
    let grid = build_intersection_grid(&dots, &p);
    assert_eq!(grid, cells(&[&[" ", " ", " "], &[" ", "↑", "→"], &[" ", "↑", " "]]));
}

#[test]
fn no_dots_no_grid() {
    let p = palette();
    assert!(build_intersection_grid(&Vec::new(), &p).is_empty());
}
