use anoto_dot_reader::dot_split::{component_mask, distance_peaks, distance_to_background};

#[test]
fn box_of_a_group() {
    let b = component_mask(&vec![12, 13, 22], 10, 10);
    assert_eq!((b.min_x, b.min_y, b.width, b.height), (2, 1, 2, 2));
    assert_eq!(b.mask, vec![1, 1, 1, 0]);
    let b = component_mask(&vec![5], 10, 10);
    assert_eq!((b.min_x, b.min_y, b.width, b.height), (5, 0, 1, 1));
    assert_eq!(b.mask, vec![1]);
}

#[test]
fn distances_to_background() {
    assert_eq!(distance_to_background(&vec![1, 1, 0, 1, 1], 5, 1), vec![2, 1, 0, 1, 2]);
    assert_eq!(distance_to_background(&vec![0, 1, 1, 1, 1, 1, 1, 1, 1], 3, 3), vec![0, 1, 2, 1, 2, 3, 2, 3, 4]);
    assert_eq!(distance_to_background(&vec![1, 1, 1, 1], 2, 2), vec![-1, -1, -1, -1]);
    assert_eq!(
        distance_to_background(&vec![0, 1, 1, 1, 1, 1, 1, 1, 0], 3, 3),
        vec![0, 1, 2, 1, 2, 1, 2, 1, 0]
    );
    assert!(distance_to_background(&Vec::new(), 0, 4).is_empty());
}

#[test]
fn peaks_by_decreasing_distance() {
    let mask = vec![1, 1, 0, 1, 1];
    let dist = distance_to_background(&mask, 5, 1);
    assert_eq!(distance_peaks(&mask, &dist, 5, 1), vec![(0, 0, 2), (4, 0, 2)]);
    let mask = vec![0, 1, 1, 1, 0, 1, 1, 1, 1];
    let dist = distance_to_background(&mask, 9, 1);
    assert_eq!(distance_peaks(&mask, &dist, 9, 1), vec![(8, 0, 4), (2, 0, 2)]);
    let mask = vec![1, 1, 1, 1];
    let dist = distance_to_background(&mask, 2, 2);
    assert!(distance_peaks(&mask, &dist, 2, 2).is_empty());
}
