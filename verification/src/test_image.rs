//! The pixels of the test pattern image: an A4 page at 72 DPI, white, with an orange border and a
//! large red disc in the middle.
use vstd::prelude::*;

verus! {

/// Width of the test image in pixels (A4 at 72 DPI).
pub const TEST_IMAGE_WIDTH: u32 = 595;

/// Height of the test image in pixels (A4 at 72 DPI).
pub const TEST_IMAGE_HEIGHT: u32 = 842;

/// Width of the orange border in pixels.
pub const TEST_IMAGE_BORDER: u32 = 5;

/// Pixel `(x, y)` lies in the border.
pub open spec fn in_border(x: int, y: int) -> bool {
    x < TEST_IMAGE_BORDER || x >= TEST_IMAGE_WIDTH - TEST_IMAGE_BORDER || y < TEST_IMAGE_BORDER || y
        >= TEST_IMAGE_HEIGHT - TEST_IMAGE_BORDER
}

/// Pixel `(x, y)` lies in the disc of radius `width / 2` around the center of the image:
/// `(x - w/2)^2 + (y - h/2)^2 <= (w/2)^2`, scaled by 4 to stay in integers.
pub open spec fn in_disc(x: int, y: int) -> bool {
    (2 * x - TEST_IMAGE_WIDTH) * (2 * x - TEST_IMAGE_WIDTH) + (2 * y - TEST_IMAGE_HEIGHT) * (2 * y
        - TEST_IMAGE_HEIGHT) <= TEST_IMAGE_WIDTH * TEST_IMAGE_WIDTH
}

/// Channel `c` (red, green, blue, alpha) of pixel `(x, y)`: orange in the border, red in the
/// disc, white elsewhere.
pub open spec fn test_pixel_channel(x: int, y: int, c: int) -> u8 {
    if in_border(x, y) {
        if c == 0 {
            255u8
        } else if c == 1 {
            165u8
        } else if c == 2 {
            0u8
        } else {
            255u8
        }
    } else if in_disc(x, y) {
        if c == 0 || c == 3 {
            255u8
        } else {
            0u8
        }
    } else {
        255u8
    }
}

/// Byte `i` of the image in row-major RGBA order.
pub open spec fn test_image_byte(i: int) -> u8 {
    let p = i / 4;
    test_pixel_channel(p % TEST_IMAGE_WIDTH as int, p / TEST_IMAGE_WIDTH as int, i % 4)
}

fn pixel_channel(x: u32, y: u32, c: u32) -> (v: u8)
    requires
        x < TEST_IMAGE_WIDTH,
        y < TEST_IMAGE_HEIGHT,
        c < 4,
    ensures
        v == test_pixel_channel(x as int, y as int, c as int),
{
    let border = TEST_IMAGE_BORDER;
    let w = TEST_IMAGE_WIDTH;
    let h = TEST_IMAGE_HEIGHT;
    let is_border = x < border || x >= w - border || y < border || y >= h - border;
    if is_border {
        if c == 0 {
            255
        } else if c == 1 {
            165
        } else if c == 2 {
            0
        } else {
            255
        }
    } else {
        let dx: i64 = 2 * (x as i64) - w as i64;
        let dy: i64 = 2 * (y as i64) - h as i64;
        assert(-595 <= dx <= 595 && -842 <= dy <= 842);
        assert(0 <= dx * dx <= 595 * 595) by (nonlinear_arith)
            requires
                -595 <= dx <= 595,
        ;
        assert(0 <= dy * dy <= 842 * 842) by (nonlinear_arith)
            requires
                -842 <= dy <= 842,
        ;
        if dx * dx + dy * dy <= (w as i64) * (w as i64) {
            if c == 0 || c == 3 {
                255
            } else {
                0
            }
        } else {
            255
        }
    }
}

/// The pixels of the test image, row by row, four bytes (red, green, blue, alpha) per pixel:
/// orange (255, 165, 0) in a 5-pixel border, red inside the disc of radius `width / 2` around
/// the center, white elsewhere, all opaque.
pub fn generate_test_image() -> (out: Vec<u8>)
    ensures
        out@ == Seq::new((TEST_IMAGE_WIDTH * TEST_IMAGE_HEIGHT * 4) as nat, |i: int| test_image_byte(i)),
{
    let total: usize = (TEST_IMAGE_WIDTH as usize) * (TEST_IMAGE_HEIGHT as usize) * 4;
    let mut out: Vec<u8> = Vec::new();
    let mut i: usize = 0;
    while i < total
        invariant
            total == TEST_IMAGE_WIDTH * TEST_IMAGE_HEIGHT * 4,
            i <= total,
            out@ == Seq::new(i as nat, |k: int| test_image_byte(k)),
        decreases total - i,
    {
        let p = i / 4;
        assert(p < 595 * 842);
        assert(p / 595 < 842) by (nonlinear_arith)
            requires
                0 <= p < 595 * 842,
        ;
        let c = (i % 4) as u32;
        let x = (p % (TEST_IMAGE_WIDTH as usize)) as u32;
        let y = (p / (TEST_IMAGE_WIDTH as usize)) as u32;
        out.push(pixel_channel(x, y, c));
        i += 1;
        assert(out@ =~= Seq::new(i as nat, |k: int| test_image_byte(k)));
    }
    out
}

} // verus!
