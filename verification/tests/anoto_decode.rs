use anoto_dot_reader::anoto_decode::{
    arrow_to_bits, decode_all_windows_from_minified_arrows, AnotoCodec, DecodeError, DecodedWindow,
};
use anoto_dot_reader::modular::{extended_gcd, mod_inverse};

fn glyph_of_bits(b0: i8, b1: i8) -> &'static str {
    match (b0, b1) {
        (0, 0) => "↑",
        (1, 0) => "←",
        (0, 1) => "→",
        _ => "↓",
    }
}

fn arrows_of_patch(patch: &[[[i8; 2]; 6]; 6]) -> Vec<Vec<String>> {
    patch
        .iter()
        .map(|row| row.iter().map(|b| glyph_of_bits(b[0], b[1]).to_string()).collect())
        .collect()
}

#[test]
fn roundtrip_encode_decode_patch() {
    let codec = AnotoCodec::anoto_6x6_a4_fixed();
    let patch = codec.encode_patch((10, 10), (10, 10));
    let pos = codec.decode_position(&patch).expect("decode");
    assert_eq!(pos, (10, 10));
}

#[test]
fn arrow_mapping_matches_reference() {
    assert_eq!(arrow_to_bits('↑'), Some((0, 0)));
    assert_eq!(arrow_to_bits('←'), Some((1, 0)));
    assert_eq!(arrow_to_bits('→'), Some((0, 1)));
    assert_eq!(arrow_to_bits('↓'), Some((1, 1)));
}

#[test]
fn arrow_mapping_rejects_other_characters() {
    assert_eq!(arrow_to_bits('x'), None);
    assert_eq!(arrow_to_bits(' '), None);
}

#[test]
fn roundtrip_at_other_positions() {
    let codec = AnotoCodec::anoto_6x6_a4_fixed();
    for &(x, y) in &[(0, 0), (3, 17), (57, 2), (120, 300)] {
        let patch = codec.encode_patch((x, y), (10, 10));
        assert_eq!(codec.decode_position(&patch).expect("decode"), (x, y));
    }
}

#[test]
fn decode_all_windows_of_one_patch() {
    let codec = AnotoCodec::anoto_6x6_a4_fixed();
    let patch = codec.encode_patch((10, 10), (10, 10));
    let grid = arrows_of_patch(&patch);
    let windows = decode_all_windows_from_minified_arrows(&grid);
    assert_eq!(
        windows,
        vec![DecodedWindow { window_row: 0, window_col: 0, x: 10, y: 10 }]
    );
}

#[test]
fn decode_all_windows_of_too_small_grid_is_empty() {
    let grid = vec![vec!["↑".to_string(); 5]; 6];
    assert!(decode_all_windows_from_minified_arrows(&grid).is_empty());
    let empty: Vec<Vec<String>> = Vec::new();
    assert!(decode_all_windows_from_minified_arrows(&empty).is_empty());
}

#[test]
fn decode_all_windows_skips_windows_with_non_arrows() {
    let codec = AnotoCodec::anoto_6x6_a4_fixed();
    let patch = codec.encode_patch((10, 10), (10, 10));
    let mut grid = arrows_of_patch(&patch);
    grid[2][3] = " ".to_string();
    assert!(decode_all_windows_from_minified_arrows(&grid).is_empty());
}

#[test]
fn decode_error_is_reported_for_a_bad_patch() {
    let codec = AnotoCodec::anoto_6x6_a4_fixed();
    let patch = [[[0i8; 2]; 6]; 6];
    let r = codec.decode_position(&patch);
    assert!(r.is_err());
    let e: DecodeError = r.unwrap_err();
    let _ = format!("{:?}", e);
}

#[test]
fn extended_gcd_coefficients() {
    assert_eq!(extended_gcd(240, 46), (2, -9, 47));
    assert_eq!(extended_gcd(0, 7), (7, 0, 1));
    assert_eq!(mod_inverse(3, 7), Ok(5));
    assert_eq!(mod_inverse(2, 4), Err("modular inverse does not exist".to_string()));
}
