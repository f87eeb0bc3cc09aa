use anoto_dot_reader::anoto_decode::AnotoCodec;
use anoto_dot_reader::decimal::{decimal_string, parse_i32, parse_usize, signed_decimal_string};
use anoto_dot_reader::reader_tools::{
    decode_score, decoded_xy_rows_pretty, first_grid_mismatch, grid_json_or_empty, input_path,
    parse_generate_args, second_alignment_better, select_best_minified_for_decode, select_minified_for_writes,
    count_matching_windows, verify_rows_compact_text, GridBuilder,
};
use anoto_dot_reader::pattern_search::cell_count;
use anoto_dot_reader::section_name::{infer_section_from_path, output_base_name, section_asset_file_name};

fn grid(rows: &[&str]) -> Vec<Vec<String>> {
    rows.iter().map(|r| r.chars().map(|c| c.to_string()).collect()).collect()
}

fn cs(s: &str) -> Vec<char> {
    s.chars().collect()
}

fn patch_grid(x: i32, y: i32) -> Vec<Vec<String>> {
    let codec = AnotoCodec::anoto_6x6_a4_fixed();
    let patch = codec.encode_patch((x, y), (10, 10));
    patch
        .iter()
        .map(|row| {
            row.iter()
                .map(|b| match (b[0], b[1]) {
                    (0, 0) => "↑".to_string(),
                    (1, 0) => "←".to_string(),
                    (0, 1) => "→".to_string(),
                    _ => "↓".to_string(),
                })
                .collect()
        })
        .collect()
}

#[test]
fn decimal_text() {
    assert_eq!(decimal_string(0), "0");
    assert_eq!(decimal_string(7), "7");
    assert_eq!(decimal_string(10), "10");
    assert_eq!(decimal_string(18446744073709551615), "18446744073709551615");
    assert_eq!(signed_decimal_string(-42), "-42");
    assert_eq!(signed_decimal_string(i64::MIN), i64::MIN.to_string());
}

#[test]
fn parsing_integers() {
    assert_eq!(parse_usize(&cs("81")), Some(81));
    assert_eq!(parse_usize(&cs("+5")), Some(5));
    assert_eq!(parse_usize(&cs("+")), None);
    assert_eq!(parse_usize(&cs("")), None);
    assert_eq!(parse_usize(&cs("-1")), None);
    assert_eq!(parse_usize(&cs("12a")), None);
    assert_eq!(parse_usize(&cs("99999999999999999999999")), None);
    assert_eq!(parse_i32(&cs("-2147483648")), Some(i32::MIN));
    assert_eq!(parse_i32(&cs("2147483647")), Some(i32::MAX));
    assert_eq!(parse_i32(&cs("2147483648")), None);
    assert_eq!(parse_i32(&cs("-")), None);
    assert_eq!(parse_i32(&cs("-0")), Some(0));
    for s in ["0", "17", "-17", "+3", "x", "", "-", "+", "2147483648", "-2147483649"] {
        assert_eq!(parse_i32(&cs(s)), s.parse::<i32>().ok());
        assert_eq!(parse_usize(&cs(s)), s.parse::<usize>().ok());
    }
}

#[test]
fn sections_from_file_names() {
    assert_eq!(infer_section_from_path("GUI_G__81__56__10__10__Y.png"), Some((81, 56, 10, 10)));
    assert_eq!(infer_section_from_path("GUI_G__81__56__10__10__X.json"), Some((81, 56, 10, 10)));
    assert_eq!(infer_section_from_path("R__81__56__-3__10__GRID.json"), Some((81, 56, -3, 10)));
    assert_eq!(infer_section_from_path("R__81__56__10__10"), Some((81, 56, 10, 10)));
    assert_eq!(infer_section_from_path("X__81__56__10__10__Y.png"), None);
    assert_eq!(infer_section_from_path("R__81__56__10"), None);
    assert_eq!(infer_section_from_path("R__81__-56__10__10"), None);
    assert_eq!(infer_section_from_path("R___81__56__10__10"), None);
    assert_eq!(infer_section_from_path(""), None);
}

#[test]
fn output_base_names() {
    assert_eq!(
        output_base_name(Some("img.png"), Some("GUI_G__81__56__10__11__X.json"), None),
        "R__81__56__10__11"
    );
    assert_eq!(output_base_name(Some("GUI_G__5__6__7__8__Y.png"), Some("other.json"), None), "R__5__6__7__8");
    let g = grid(&["↑↓↓", "←→→"]);
    assert_eq!(output_base_name(Some("img.png"), None, Some(&g)), "R__2__3__10__10");
    assert_eq!(output_base_name(None, None, None), "R__0__0__10__10");
    let name = output_base_name(None, None, Some(&grid(&["↑"])));
    assert_eq!(infer_section_from_path(&name), Some((1, 1, 10, 10)));
    assert_eq!(section_asset_file_name(81, 56, 10, -10), "GUI_G__81__56__10__-10__X.json");
}

#[test]
fn generate_arguments() {
    assert_eq!(parse_generate_args(&[81, 56]), Ok((81, 56, 10, 10)));
    assert_eq!(parse_generate_args(&[81, 56, 3]), Ok((81, 56, 10, 10)));
    assert_eq!(parse_generate_args(&[81, 56, 3, 4]), Ok((81, 56, 3, 4)));
    assert_eq!(parse_generate_args(&[81]), Err("--generate expects 2 to 4 integers".to_string()));
    assert_eq!(
        parse_generate_args(&[1, 2, 3, 4, 5]),
        Err("--generate expects 2 to 4 integers".to_string())
    );
    assert_eq!(
        parse_generate_args(&[0, 56]),
        Err("--generate WIDTH and HEIGHT must be > 0".to_string())
    );
}

#[test]
fn input_path_choice() {
    assert_eq!(input_path(Some("d"), Some("i")), Ok("d"));
    assert_eq!(input_path(None, Some("i")), Ok("i"));
    assert_eq!(input_path::<&str>(None, None), Err("missing --input (or use --generate)".to_string()));
}

#[test]
fn grid_mismatches() {
    let a = grid(&["ab", "cd"]);
    assert_eq!(first_grid_mismatch(&a, &a), None);
    assert_eq!(
        first_grid_mismatch(&a, &grid(&["ab"])),
        Some((0, 0, "height 2".to_string(), "height 1".to_string()))
    );
    assert_eq!(
        first_grid_mismatch(&a, &grid(&["ab", "c"])),
        Some((1, 0, "width 2".to_string(), "width 1".to_string()))
    );
    assert_eq!(
        first_grid_mismatch(&a, &grid(&["ab", "cx"])),
        Some((1, 1, "d".to_string(), "x".to_string()))
    );
}

#[test]
fn report_texts() {
    assert_eq!(grid_json_or_empty(&Vec::new()), "[]");
    assert_eq!(grid_json_or_empty(&grid(&["↑"])), "[\n  [\"↑\"]\n]");
    let rows = vec![vec![[40, 0], [41, 0]], vec![[40, 1]]];
    assert_eq!(verify_rows_compact_text(&rows), "[\n  [[40,0],[41,0]],\n  [[40,1]]\n]\n");
    assert_eq!(verify_rows_compact_text(&[]), "[\n]\n");
    assert_eq!(verify_rows_compact_text(&[vec![[-1, -2]]]), "[\n  [[-1,-2]]\n]\n");
}

#[test]
fn decoded_rows_grouping() {
    let g = patch_grid(10, 10);
    assert_eq!(decoded_xy_rows_pretty(&g), vec![vec![[10, 10]]]);
    assert_eq!(decoded_xy_rows_pretty(&grid(&["↑"])), Vec::<Vec<[i32; 2]>>::new());
    assert_eq!(decode_score(&g), 1);
    let (which, chosen, score) = select_best_minified_for_decode(&grid(&["↑"]), &g);
    assert_eq!(which, GridBuilder::Phase);
    assert_eq!(chosen, g);
    assert_eq!(score, 1);
    let (which, _, score) = select_best_minified_for_decode(&g, &g);
    assert_eq!(which, GridBuilder::Observed);
    assert_eq!(score, 1);
}

#[test]
fn grid_written_is_the_fuller_one() {
    let g = patch_grid(10, 10);
    let sparse = grid(&["↑ ", " ↓"]);
    let full = grid(&["↑↑", "↓↓"]);
    assert_eq!(select_minified_for_writes(&sparse, &full), full);
    assert_eq!(select_minified_for_writes(&full, &sparse), full);
    // Same number of arrows: the one with more decodable windows, else the observed one.
    let ups: Vec<Vec<String>> = vec![vec!["↑".to_string(); 6]; 6];
    let expected = if decode_score(&g) > decode_score(&ups) { g.clone() } else { ups.clone() };
    assert_eq!(select_minified_for_writes(&ups, &g), expected);
    assert_eq!(select_minified_for_writes(&full, &full), full);
    assert_eq!(cell_count(&full), Some(4));
    assert_eq!(cell_count(&Vec::new()), Some(0));
}

#[test]
fn decoded_windows_checked_against_a_section() {
    let g = patch_grid(10, 10);
    let mut section: Vec<Vec<String>> = vec![vec!["↑".to_string(); 16]; 16];
    for r in 0..6 {
        for c in 0..6 {
            section[10 + r][10 + c] = g[r][c].clone();
        }
    }
    assert_eq!(count_matching_windows(&g, &section), (1, 1));
    let plain: Vec<Vec<String>> = vec![vec!["↑".to_string(); 16]; 16];
    let expect_plain = if g == plain[10..16].iter().map(|r| r[10..16].to_vec()).collect::<Vec<_>>() { 1 } else { 0 };
    assert_eq!(count_matching_windows(&g, &plain), (1, expect_plain));
    assert_eq!(count_matching_windows(&grid(&["↑"]), &section), (0, 0));
}

#[test]
fn alignment_ratios() {
    assert!(second_alignment_better((1, 2), (2, 3)));
    assert!(!second_alignment_better((2, 3), (1, 2)));
    assert!(!second_alignment_better((1, 2), (2, 4)));
    assert!(!second_alignment_better((0, 0), (1, 1)));
    assert!(!second_alignment_better((1, 1), (0, 0)));
}
