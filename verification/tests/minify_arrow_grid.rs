use anoto_dot_reader::minify_arrow_grid::{
    extract_fully_filled_arrow_window, grid_from_arrow_text, minify_from_full_grid, write_grid_json_string,
};

fn grid(rows: &[&str]) -> Vec<Vec<String>> {
    rows.iter().map(|r| r.chars().map(|c| c.to_string()).collect()).collect()
}

#[test]
fn grid_from_text_pads_short_lines() {
    let g = grid_from_arrow_text("↑↓\n←\r\n→↑↓\n");
    assert_eq!(g.len(), 3);
    assert_eq!(g[0], vec!["↑", "↓", " "]);
    assert_eq!(g[1], vec!["←", " ", " "]);
    assert_eq!(g[2], vec!["→", "↑", "↓"]);
}

#[test]
fn grid_from_empty_text_is_empty() {
    assert!(grid_from_arrow_text("").is_empty());
    assert!(grid_from_arrow_text("\n\n").is_empty());
}

#[test]
fn json_of_grid() {
    let g = grid(&["↑↓", "←→"]);
    assert_eq!(write_grid_json_string(&g), "[\n  [\"↑\", \"↓\"],\n  [\"←\", \"→\"]\n]");
    let empty: Vec<Vec<String>> = Vec::new();
    assert_eq!(write_grid_json_string(&empty), "[\n]");
}

#[test]
fn extract_window_finds_first_full_window() {
    let g = grid(&["↑ ↓↓", "←→←→", "↑↓↑↓"]);
    let w = extract_fully_filled_arrow_window(&g, 2, 2).expect("window");
    assert_eq!(w, grid(&["↓↓", "←→"]));
}

#[test]
fn extract_window_none_cases() {
    let g = grid(&["↑ ", " ↓"]);
    assert_eq!(extract_fully_filled_arrow_window(&g, 2, 2), None);
    assert_eq!(extract_fully_filled_arrow_window(&g, 0, 1), None);
    assert_eq!(extract_fully_filled_arrow_window(&g, 3, 1), None);
    let ragged = vec![vec!["↑".to_string()], vec!["↑".to_string(), "↓".to_string()]];
    assert_eq!(extract_fully_filled_arrow_window(&ragged, 1, 1), None);
}

#[test]
fn minify_of_empty_or_arrowless_grid_is_empty() {
    let empty: Vec<Vec<String>> = Vec::new();
    assert!(minify_from_full_grid(&empty).is_empty());
    assert!(minify_from_full_grid(&grid(&["   ", "   "])).is_empty());
    let ragged = vec![vec!["↑".to_string()], vec![]];
    assert!(minify_from_full_grid(&ragged).is_empty());
}

#[test]
fn minify_takes_majority_of_each_block() {
    // Two 3x3 blocks side by side: the first mostly up, the second mostly right.
    let g = grid(&["↑↑↓→→→", "↑↑↑→→←", "↑↓↑→→→"]);
    let m = minify_from_full_grid(&g);
    assert_eq!(m, grid(&["↑→"]));
}

#[test]
fn minify_ties_go_to_the_last_arrow() {
    // One block with two up and two down arrows: the later rank (down) wins.
    let g = grid(&["↑↓ ", "↑↓ ", "   "]);
    let m = minify_from_full_grid(&g);
    assert_eq!(m, grid(&["↓"]));
}

#[test]
fn minify_trims_blocks_without_arrows() {
    let g = grid(&["↑↑↑      ", "↑↑↑      ", "↑↑↑      ", "         ", "         ", "         "]);
    let m = minify_from_full_grid(&g);
    assert_eq!(m, grid(&["↑"]));
}

#[test]
fn minify_crops_to_a_large_arrow_rectangle() {
    // A 7x7 grid of blocks, each block full of up arrows except the last block column of
    // the first block row, which is empty: the largest arrow rectangle is 7x6.
    let mut rows: Vec<String> = Vec::new();
    for r in 0..21 {
        let mut line = String::new();
        for c in 0..21 {
            if r < 3 && c >= 18 {
                line.push(' ');
            } else {
                line.push('↑');
            }
        }
        rows.push(line);
    }
    let refs: Vec<&str> = rows.iter().map(|s| s.as_str()).collect();
    let m = minify_from_full_grid(&grid(&refs));
    assert_eq!(m.len(), 7);
    assert!(m.iter().all(|r| r.len() == 6));
    assert!(m.iter().all(|r| r.iter().all(|c| c == "↑")));
}

#[test]
fn uniform_blocks_minify_to_their_arrows() {
    let m: Vec<Vec<String>> = vec![
        vec!["↑".to_string(), "→".to_string(), "↓".to_string()],
        vec!["←".to_string(), "↑".to_string(), "↑".to_string()],
    ];
    let expanded: Vec<Vec<String>> =
        (0..6).map(|r| (0..9).map(|c| m[r / 3][c / 3].clone()).collect()).collect();
    assert_eq!(minify_from_full_grid(&expanded), m);
}
