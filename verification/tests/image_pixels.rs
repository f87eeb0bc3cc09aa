use anoto_dot_reader::foreground::{ensure_foreground_convention, foreground_mask, grayscale_pixels};
use anoto_dot_reader::test_image::{generate_test_image, TEST_IMAGE_HEIGHT, TEST_IMAGE_WIDTH};

#[test]
fn grayscale_of_rgb() {
    let rgb = vec![255, 255, 255, 0, 0, 0, 255, 0, 0, 10, 200, 30];
    let g = grayscale_pixels(rgb, 2, 2).expect("gray");
    assert_eq!(g, vec![255, 0, 76, 123]);
    assert!(grayscale_pixels(vec![1, 2, 3], 2, 2).is_err());
}

#[test]
fn foreground_convention() {
    let mut m = vec![0, 255, 0, 0];
    ensure_foreground_convention(&mut m);
    assert_eq!(m, vec![0, 255, 0, 0]);
    let mut m = vec![0, 255, 7, 0];
    ensure_foreground_convention(&mut m);
    assert_eq!(m, vec![255, 0, 0, 255]);
    let mut empty: Vec<u8> = Vec::new();
    ensure_foreground_convention(&mut empty);
    assert!(empty.is_empty());
}

#[test]
fn thresholded_mask() {
    let gray = vec![10, 200, 100, 101];
    assert_eq!(foreground_mask(gray, 2, 2, 100).expect("mask"), vec![255, 0, 255, 0]);
    let gray = vec![10, 200, 10, 10];
    assert_eq!(foreground_mask(gray, 2, 2, 100).expect("mask"), vec![0, 255, 0, 0]);
    assert!(foreground_mask(vec![1, 2, 3], 2, 2, 100).is_err());
}

#[test]
fn test_image_pixels() {
    let px = generate_test_image();
    let w = TEST_IMAGE_WIDTH as usize;
    let h = TEST_IMAGE_HEIGHT as usize;
    assert_eq!(px.len(), w * h * 4);
    let at = |x: usize, y: usize| px[(y * w + x) * 4..(y * w + x) * 4 + 4].to_vec();
    assert_eq!(at(0, 0), vec![255, 165, 0, 255]);
    assert_eq!(at(594, 841), vec![255, 165, 0, 255]);
    assert_eq!(at(297, 421), vec![255, 0, 0, 255]);
    assert_eq!(at(5, 421), vec![255, 0, 0, 255]);
    assert_eq!(at(10, 10), vec![255, 255, 255, 255]);
    assert_eq!(at(297, 100), vec![255, 255, 255, 255]);
}
