use anoto_dot_reader::binary_groups::{
    analyse_groups, binary_rgb, centroid_marks, edge_map, edge_overlay, group_anchor, group_centroid,
    group_pixel_lists, group_sums_fit_exec, invert_if_majority, label_groups, marker_color_of, paint_disc, rounded_mean, PixelGroup,
    MARK_RADIUS,
};
use anoto_dot_reader::foreground::binary_threshold;

const F: u8 = 255;

fn sample() -> Vec<u8> {
    vec![
        F, F, 0, F, //
        0, F, 0, F, //
        F, 0, 0, 0, //
    ]
}

#[test]
fn edges_of_groups() {
    let lone = vec![0, 0, 0, 0, F, 0, 0, 0, 0];
    assert_eq!(edge_map(&lone, 3, 3), lone);
    let full = vec![F; 9];
    assert_eq!(edge_map(&full, 3, 3), vec![0; 9]);
    let corner = vec![F, F, 0, F, F, 0, 0, 0, 0];
    assert_eq!(edge_map(&corner, 3, 3), vec![0, F, 0, F, F, 0, 0, 0, 0]);
}

#[test]
fn inversion_of_majority_foreground() {
    let mut b = vec![F, F, 0];
    assert!(invert_if_majority(&mut b));
    assert_eq!(b, vec![0, 0, F]);
    let mut b = vec![F, 0];
    assert!(!invert_if_majority(&mut b));
    assert_eq!(b, vec![F, 0]);
    let mut b: Vec<u8> = Vec::new();
    assert!(!invert_if_majority(&mut b));
}

#[test]
fn groups_are_numbered_by_first_pixel() {
    let (labels, groups) = label_groups(&sample(), 4, 3);
    assert_eq!(labels, vec![1, 1, 0, 2, 0, 1, 0, 2, 3, 0, 0, 0]);
    assert_eq!(
        groups,
        vec![
            PixelGroup { first: 0, count: 3, sum_x: 2, sum_y: 1 },
            PixelGroup { first: 3, count: 2, sum_x: 6, sum_y: 1 },
            PixelGroup { first: 8, count: 1, sum_x: 0, sum_y: 2 },
        ]
    );
    // Pixels joined only diagonally are separate groups.
    let diagonal = vec![F, 0, 0, F];
    let (labels, groups) = label_groups(&diagonal, 2, 2);
    assert_eq!(labels, vec![1, 0, 0, 2]);
    assert_eq!(groups.len(), 2);
    let (labels, groups) = label_groups(&vec![0; 6], 3, 2);
    assert_eq!(labels, vec![0; 6]);
    assert!(groups.is_empty());
}

#[test]
fn a_winding_group_is_one_group() {
    // A U shape: its two arms meet only through the bottom row.
    let u = vec![
        F, 0, F, //
        F, 0, F, //
        F, F, F, //
    ];
    let (labels, groups) = label_groups(&u, 3, 3);
    assert_eq!(labels, vec![1, 0, 1, 1, 0, 1, 1, 1, 1]);
    assert_eq!(groups, vec![PixelGroup { first: 0, count: 7, sum_x: 7, sum_y: 8 }]);
}

#[test]
fn rounded_means() {
    assert_eq!(rounded_mean(2, 3), 1);
    assert_eq!(rounded_mean(1, 2), 1);
    assert_eq!(rounded_mean(1, 3), 0);
    assert_eq!(rounded_mean(5, 2), 3);
    assert_eq!(rounded_mean(0, 1), 0);
    let g = PixelGroup { first: 0, count: 4, sum_x: 10, sum_y: 5 };
    assert_eq!(group_centroid(&g), (3, 1));
}

#[test]
fn anchors_are_nearest_pixels_of_the_group() {
    let (labels, _) = label_groups(&sample(), 4, 3);
    assert_eq!(group_anchor(&labels, 4, 3, 1, 3, 2), Some((1, 1)));
    assert_eq!(group_anchor(&labels, 4, 3, 1, 100, 100), Some((1, 1)));
    assert_eq!(group_anchor(&labels, 4, 3, 2, 3, 0), Some((3, 0)));
    assert_eq!(group_anchor(&labels, 4, 3, 3, 2, 2), Some((0, 2)));
    assert_eq!(group_anchor(&labels, 4, 3, 9, 0, 0), None);
    assert_eq!(group_anchor(&Vec::new(), 0, 0, 1, 0, 0), None);
}

#[test]
fn discs_are_painted_red() {
    let mut rgb = vec![0u8; 27];
    paint_disc(&mut rgb, 3, 3, 1, 1, 1);
    let red = [255u8, 0, 0];
    let black = [0u8, 0, 0];
    let expected: Vec<u8> = [black, red, black, red, red, red, black, red, black].concat();
    assert_eq!(rgb, expected);
    let mut rgb = vec![7u8; 12];
    paint_disc(&mut rgb, 2, 2, 0, 0, 0);
    assert_eq!(rgb, vec![255, 0, 0, 7, 7, 7, 7, 7, 7, 7, 7, 7]);
}

#[test]
fn marker_colors_and_centroid_picture() {
    assert_eq!(marker_color_of(0), (95, 1, 57));
    assert_eq!(marker_color_of(1), (108, 54, 166));
    assert_eq!(marker_color_of(2), (121, 107, 19));
    let (_, groups) = label_groups(&sample(), 4, 3);
    let pic = centroid_marks(&groups, 4, 3);
    let mut expected = vec![0u8; 36];
    expected[3..6].copy_from_slice(&[95, 1, 57]);
    expected[21..24].copy_from_slice(&[108, 54, 166]);
    expected[24..27].copy_from_slice(&[121, 107, 19]);
    assert_eq!(pic, expected);
}

#[test]
fn rgb_pictures() {
    assert_eq!(binary_rgb(&vec![0, 9]), vec![0, 0, 0, 255, 255, 255]);
    let gray = vec![10, 20];
    let edges = vec![0, 255];
    assert_eq!(edge_overlay(&gray, &edges), vec![10, 10, 10, 255, 0, 0]);
}

#[test]
fn fixed_threshold() {
    assert_eq!(binary_threshold(vec![0, 128, 129, 255], 2, 2, 128).expect("threshold"), vec![0, 0, 255, 255]);
    assert!(binary_threshold(vec![1, 2, 3], 2, 2, 128).is_err());
}

#[test]
fn whole_analysis() {
    // Mostly foreground: inverted, leaving one group at the center of a 13 x 13 image.
    let mut binary = vec![F; 169];
    binary[84] = 0;
    let gray = vec![100u8; 169];
    let res = analyse_groups(&gray, binary, 13, 13);
    assert!(res.inverted);
    let mut expected_bin = vec![0u8; 169];
    expected_bin[84] = F;
    assert_eq!(res.binary, expected_bin);
    assert_eq!(res.edges, expected_bin);
    assert_eq!(res.groups, vec![PixelGroup { first: 84, count: 1, sum_x: 6, sum_y: 6 }]);
    assert_eq!(res.anchors, vec![(6, 6)]);
    // A red disc of radius 5 around the center, on the gray picture and on the binary one.
    for p in 0..169 {
        let (x, y) = (p as i64 % 13, p as i64 / 13);
        let inside = (x - 6) * (x - 6) + (y - 6) * (y - 6) <= 25;
        let px = &res.overlay[3 * p..3 * p + 3];
        if inside {
            assert_eq!(px, &[255, 0, 0]);
        } else {
            assert_eq!(px, &[100, 100, 100]);
        }
        let px = &res.binary_with_dots[3 * p..3 * p + 3];
        if inside {
            assert_eq!(px, &[255, 0, 0]);
        } else {
            assert_eq!(px, &[0, 0, 0]);
        }
    }
    let mut expected_centroids = vec![0u8; 507];
    expected_centroids[252..255].copy_from_slice(&[95, 1, 57]);
    assert_eq!(res.centroids, expected_centroids);
    assert_eq!(MARK_RADIUS, 5);
}

#[test]
fn pixels_of_each_group() {
    let (labels, groups) = label_groups(&sample(), 4, 3);
    let lists = group_pixel_lists(&labels, groups.len());
    assert_eq!(lists, vec![vec![0, 1, 5], vec![3, 7], vec![8]]);
    assert_eq!(group_pixel_lists(&labels, 0), Vec::<Vec<usize>>::new());
}

#[test]
fn group_sums_fit_on_ordinary_images() {
    assert!(group_sums_fit_exec(&sample(), 4, 3));
    assert!(group_sums_fit_exec(&vec![0; 6], 3, 2));
    assert!(group_sums_fit_exec(&vec![255; 12], 4, 3));
}
