use anoto_dot_reader::arrow_perm::{
    all_arrow_perms, all_arrow_perms_chars, apply_arrow_perm, apply_arrow_perm_str, remap_arrow,
};
use anoto_dot_reader::expected_match::best_expected_match;
use anoto_dot_reader::grid_xform::{apply_xform, apply_xform_chars, GridXform};
use anoto_dot_reader::pattern_search::{
    arrow_count, best_align_against_expected, best_align_against_expected_with_xforms_and_perms,
    builtin_expected_pattern_8x7, expected, find_pattern_strict, find_pattern_with_xforms_and_perms, grid_dims,
    grid_to_chars, patch_matches_expected, score_window,
};

fn grid(rows: &[&str]) -> Vec<Vec<String>> {
    rows.iter().map(|r| r.chars().map(|c| c.to_string()).collect()).collect()
}

fn chars(rows: &[&str]) -> Vec<Vec<char>> {
    rows.iter().map(|r| r.chars().collect()).collect()
}

const ALL: [GridXform; 8] = [
    GridXform::Identity,
    GridXform::Rot90,
    GridXform::Rot180,
    GridXform::Rot270,
    GridXform::FlipH,
    GridXform::FlipV,
    GridXform::Transpose,
    GridXform::AntiTranspose,
];

fn inverse(t: GridXform) -> GridXform {
    match t {
        GridXform::Rot90 => GridXform::Rot270,
        GridXform::Rot270 => GridXform::Rot90,
        other => other,
    }
}

#[test]
fn dims_of_grids() {
    assert_eq!(grid_dims(&grid(&["abc", "def"])), Some((2, 3)));
    assert_eq!(grid_dims(&grid(&["abc", "de"])), None);
    assert_eq!(grid_dims(&Vec::<Vec<String>>::new()), None);
    assert_eq!(grid_dims(&vec![Vec::<String>::new()]), None);
}

#[test]
fn count_of_arrows() {
    assert_eq!(arrow_count(&grid(&["↑x↓", "  ←", "→"])), 4);
    let mut g = grid(&["↑"]);
    g[0][0] = "↑↑".to_string();
    assert_eq!(arrow_count(&g), 0);
}

#[test]
fn xforms_of_a_small_grid() {
    let g = grid(&["ab", "cd", "ef"]);
    assert_eq!(apply_xform(&g, GridXform::Identity), g);
    assert_eq!(apply_xform(&g, GridXform::Rot90), grid(&["eca", "fdb"]));
    assert_eq!(apply_xform(&g, GridXform::Rot180), grid(&["fe", "dc", "ba"]));
    assert_eq!(apply_xform(&g, GridXform::Rot270), grid(&["bdf", "ace"]));
    assert_eq!(apply_xform(&g, GridXform::FlipH), grid(&["ba", "dc", "fe"]));
    assert_eq!(apply_xform(&g, GridXform::FlipV), grid(&["ef", "cd", "ab"]));
    assert_eq!(apply_xform(&g, GridXform::Transpose), grid(&["ace", "bdf"]));
    assert_eq!(apply_xform(&g, GridXform::AntiTranspose), grid(&["fdb", "eca"]));
    let c = chars(&["ab", "cd", "ef"]);
    assert_eq!(apply_xform_chars(&c, GridXform::Rot90), chars(&["eca", "fdb"]));
    assert_eq!(apply_xform_chars(&c, GridXform::AntiTranspose), chars(&["fdb", "eca"]));
}

#[test]
fn each_xform_is_undone_by_its_inverse() {
    let g = grid(&["abc", "def"]);
    for t in ALL {
        assert_eq!(apply_xform(&apply_xform(&g, t), inverse(t)), g);
    }
    let mut r = g.clone();
    for _ in 0..4 {
        r = apply_xform(&r, GridXform::Rot90);
    }
    assert_eq!(r, g);
}

#[test]
fn perms_are_the_24_orderings_in_order() {
    let p = all_arrow_perms();
    assert_eq!(p.len(), 24);
    assert_eq!(p[0], ["↑", "↓", "←", "→"].map(|s| s.to_string()));
    assert_eq!(p[1], ["↑", "↓", "→", "←"].map(|s| s.to_string()));
    assert_eq!(p[23], ["→", "←", "↓", "↑"].map(|s| s.to_string()));
    let pc = all_arrow_perms_chars();
    assert_eq!(pc.len(), 24);
    assert_eq!(pc[6], ['↓', '↑', '←', '→']);
    for i in 0..24 {
        for j in (i + 1)..24 {
            assert_ne!(pc[i], pc[j]);
        }
    }
}

#[test]
fn perm_application() {
    let perm = ["→", "←", "↓", "↑"].map(|s| s.to_string());
    let g = grid(&["↑↓x", "←→ "]);
    let out = apply_arrow_perm_str(&g, &perm);
    assert_eq!(out, grid(&["→←x", "↓↑ "]));
    let undo = ["→", "←", "↓", "↑"].map(|s| s.to_string());
    assert_eq!(apply_arrow_perm_str(&out, &undo), g);
    let pc = ['→', '←', '↓', '↑'];
    assert_eq!(remap_arrow('↑', &pc), '→');
    assert_eq!(remap_arrow('z', &pc), 'z');
    assert_eq!(apply_arrow_perm(&chars(&["↑←", "a↓"]), &pc), chars(&["→↓", "a←"]));
}

#[test]
fn strict_pattern_search() {
    let g = grid(&["↑↓←", "→↑↓", "↑↓←"]);
    let p = grid(&["↑↓", "→↑"]);
    assert_eq!(find_pattern_strict(&g, &p), Some((0, 0)));
    let p2 = grid(&["↓←"]);
    assert_eq!(find_pattern_strict(&g, &p2), Some((0, 1)));
    let p3 = grid(&["←←"]);
    assert_eq!(find_pattern_strict(&g, &p3), None);
    // Blank cells never match, even against a blank pattern cell.
    let gb = grid(&["  ", "  "]);
    assert_eq!(find_pattern_strict(&gb, &grid(&[" "])), None);
    assert_eq!(find_pattern_strict(&g, &grid(&["↑↓←→"])), None);
    assert_eq!(find_pattern_strict(&Vec::new(), &p), None);
}

#[test]
fn pattern_search_under_symmetries() {
    let pattern = builtin_expected_pattern_8x7();
    // The pattern turned a quarter and with up and down swapped.
    let turned = apply_xform(&pattern, GridXform::Rot90);
    let swapped = apply_arrow_perm_str(&turned, &["↓", "↑", "←", "→"].map(|s| s.to_string()));
    let found = find_pattern_with_xforms_and_perms(&swapped, &pattern).expect("found");
    assert_eq!((found.0, found.1), (0, 0));
    let g1 = apply_xform(&swapped, found.2);
    let g2 = apply_arrow_perm_str(&g1, &found.3);
    assert_eq!(g2, pattern);
    assert_eq!(find_pattern_with_xforms_and_perms(&grid(&["  "]), &pattern), None);
}

#[test]
fn patch_comparison() {
    let rows: Vec<String> = (0..7).map(|r| (0..7).map(|c| if (r + c) % 2 == 0 { '↑' } else { '↓' }).collect()).collect();
    let refs: Vec<&str> = rows.iter().map(|s| s.as_str()).collect();
    let g = grid(&refs);
    assert!(patch_matches_expected(&g, 0, 0, &g, 0, 0));
    assert!(patch_matches_expected(&g, 1, 1, &g, 0, 0));
    assert!(!patch_matches_expected(&g, 0, 1, &g, 0, 0));
    assert!(!patch_matches_expected(&g, 2, 0, &g, 0, 0));
    assert!(!patch_matches_expected(&g, 0, 0, &g, -1, 0));
}

#[test]
fn alignment_against_expected() {
    let expected = grid(&["↑↓←→", "→←↓↑", "↑↑↓↓"]);
    let observed = grid(&["←→", "↓ "]);
    // Best place: top 0, left 2 matches ← → and ↓ (3 of 3 arrows).
    assert_eq!(best_align_against_expected(&observed, &expected), Some((0, 2, 3, 3)));
    assert_eq!(best_align_against_expected(&grid(&["  "]), &expected), None);
    assert_eq!(best_align_against_expected(&grid(&["↑↑↑↑↑"]), &expected), None);
    let best = best_align_against_expected_with_xforms_and_perms(&observed, &expected).expect("best");
    assert_eq!((best.4, best.5), (3, 3));
    assert_eq!(best.0, GridXform::Identity);
}

#[test]
fn character_grids() {
    let g = vec![vec!["↑x".to_string(), "".to_string()], vec!["a".to_string(), "↓".to_string()]];
    assert_eq!(grid_to_chars(&g), Some(chars(&["↑ ", "a↓"])));
    assert_eq!(grid_to_chars(&grid(&["ab", "c"])), None);
    let e = expected();
    assert_eq!(e.len(), 8);
    assert!(e.iter().all(|r| r.len() == 7));
    assert_eq!(score_window(&e, 0, 0, &e), 56);
    assert_eq!(score_window(&chars(&["↑↑↑", "↑↑↑"]), 0, 1, &chars(&["↑↓", "↓↑"])), 2);
}

#[test]
fn expected_match_finds_the_snippet() {
    let e = expected();
    let m = best_expected_match(&e, &e, None).expect("match");
    assert_eq!(m.0, 56);
    assert_eq!((m.3, m.4), (0, 0));
    assert_eq!(m.2, ['↑', '↓', '←', '→']);
    // Nothing beats a perfect score.
    assert_eq!(best_expected_match(&e, &e, Some(56)), None);
}
