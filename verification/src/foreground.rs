//! From RGB pixels to the foreground mask in which the dots are found: grayscale and binary
//! threshold (both computed by kornia), then the convention that the foreground is the minority.
use vstd::prelude::*;

use kornia::image::allocator::CpuAllocator;
use kornia::image::{Image, ImageError, ImageSize};
use kornia::imgproc;

verus! {

#[verifier::external_type_specification]
#[verifier::external_body]
pub struct ExImageError(ImageError);

/// Errors of the dot detection.
#[derive(Debug)]
pub enum DetectionError {
    /// An image operation of kornia failed.
    Kornia(ImageError),
}

/// Grayscale value of an RGB pixel: `(77 R + 150 G + 29 B) >> 8`.
pub open spec fn luma(r: u8, g: u8, b: u8) -> int {
    (77 * r + 150 * g + 29 * b) / 256
}

/// Grayscale of the pixels of an RGB image.
pub open spec fn gray_of(rgb: Seq<u8>, n: int) -> Seq<u8> {
    Seq::new(n as nat, |i: int| luma(rgb[3 * i], rgb[3 * i + 1], rgb[3 * i + 2]) as u8)
}

/// Binary threshold: `max_value` where a value is above `threshold`, 0 elsewhere.
pub open spec fn threshold_of(gray: Seq<u8>, threshold: u8, max_value: u8) -> Seq<u8> {
    Seq::new(gray.len(), |i: int| if gray[i] > threshold { max_value } else { 0u8 })
}

/// kornia's `gray_from_rgb_u8` on a `width` x `height` RGB image made of `rgb`
/// (`Image::new` refuses data of another length than `3 * width * height`; the grayscale image
/// comes from `Image::from_size_val`). Claimed: the result is an error exactly when the data has
/// another length, and otherwise each gray value is `(77 R + 150 G + 29 B) >> 8`, as kornia's
/// documentation of `rgb_to_gray_u8` states.
#[verifier::external_body]
fn kornia_gray_from_rgb(rgb: Vec<u8>, width: usize, height: usize) -> (r: Result<Vec<u8>, ImageError>)
    requires
        width * height * 3 <= usize::MAX,
    ensures
        r is Ok <==> rgb@.len() == width * height * 3,
        r matches Ok(g) ==> g@ == gray_of(rgb@, width * height),
{
    let size = ImageSize { width, height };
    let image = Image::<u8, 3, CpuAllocator>::new(size, rgb, CpuAllocator)?;
    let mut gray = Image::<u8, 1, CpuAllocator>::from_size_val(size, 0u8, CpuAllocator)?;
    imgproc::color::gray_from_rgb_u8(&image, &mut gray)?;
    Ok(gray.as_slice().to_vec())
}

/// kornia's `threshold_binary` on a `width` x `height` one-channel image made of `gray` (the
/// output image comes from `Image::from_size_val`). Claimed: an error exactly when `gray` has
/// another length than `width * height`, and otherwise each value is `max_value` where the input
/// is above `threshold` and 0 elsewhere, as the function's source shows. kornia splits the rows
/// into chunks of `16 * width` values for rayon, which panics on a chunk size of 0: an empty
/// image of width 0 (and a width whose chunk size would overflow) is left out.
#[verifier::external_body]
fn kornia_threshold_binary(gray: Vec<u8>, width: usize, height: usize, threshold: u8, max_value: u8) -> (r: Result<
    Vec<u8>,
    ImageError,
>)
    requires
        width * height <= usize::MAX,
        16 * width <= usize::MAX,
        width > 0 || gray@.len() > 0,
    ensures
        r is Ok <==> gray@.len() == width * height,
        r matches Ok(m) ==> m@ == threshold_of(gray@, threshold, max_value),
{
    let size = ImageSize { width, height };
    let src = Image::<u8, 1, CpuAllocator>::new(size, gray, CpuAllocator)?;
    let mut dst = Image::<u8, 1, CpuAllocator>::from_size_val(size, 0u8, CpuAllocator)?;
    imgproc::threshold::threshold_binary(&src, &mut dst, threshold, max_value)?;
    Ok(dst.as_slice().to_vec())
}

/// The grayscale pixels of a `width` x `height` RGB image given as `rgb` (three bytes per
/// pixel); an error when `rgb` has another length.
pub fn grayscale_pixels(rgb: Vec<u8>, width: usize, height: usize) -> (r: Result<Vec<u8>, DetectionError>)
    requires
        width * height * 3 <= usize::MAX,
    ensures
        r is Ok <==> rgb@.len() == width * height * 3,
        r matches Ok(g) ==> g@ == gray_of(rgb@, width * height),
{
    match kornia_gray_from_rgb(rgb, width, height) {
        Ok(g) => Ok(g),
        Err(e) => Err(DetectionError::Kornia(e)),
    }
}

/// Number of non-zero values among the first `n`.
pub open spec fn foreground_count(mask: Seq<u8>, n: int) -> int
    decreases n,
{
    if n <= 0 {
        0
    } else {
        foreground_count(mask, n - 1) + (if mask[n - 1] != 0 {
            1int
        } else {
            0int
        })
    }
}

/// The mask with foreground and background swapped: 0 becomes 255, anything else 0.
pub open spec fn inverted(mask: Seq<u8>) -> Seq<u8> {
    Seq::new(mask.len(), |i: int| if mask[i] == 0 { 255u8 } else { 0u8 })
}

/// The mask after the convention: unchanged when less than half of it is foreground,
/// inverted otherwise.
pub open spec fn with_foreground_convention(mask: Seq<u8>) -> Seq<u8> {
    if 2 * foreground_count(mask, mask.len() as int) < mask.len() {
        mask
    } else {
        inverted(mask)
    }
}

proof fn lemma_foreground_count_bound(mask: Seq<u8>, n: int)
    requires
        0 <= n <= mask.len(),
    ensures
        0 <= foreground_count(mask, n) <= n,
    decreases n,
{
    if n > 0 {
        lemma_foreground_count_bound(mask, n - 1);
    }
}

proof fn lemma_inverted_count(mask: Seq<u8>, n: int)
    requires
        0 <= n <= mask.len(),
    ensures
        foreground_count(inverted(mask), n) == n - foreground_count(mask, n),
    decreases n,
{
    if n > 0 {
        lemma_inverted_count(mask, n - 1);
    }
}

/// Makes the foreground the minority of the mask: when at least half of the values are
/// non-zero, zeros become 255 and all other values 0.
pub fn ensure_foreground_convention(mask: &mut Vec<u8>)
    ensures
        final(mask)@ == with_foreground_convention(old(mask)@),
{
    let ghost m0 = mask@;
    let n = mask.len();
    let mut foreground: usize = 0;
    for i in 0..n
        invariant
            mask@ == m0,
            n == m0.len(),
            foreground == foreground_count(m0, i as int),
            foreground <= i,
    {
        if mask[i] != 0 {
            foreground += 1;
        }
    }
    if foreground < n - foreground {
        return;
    }
    for i in 0..n
        invariant
            n == m0.len(),
            mask@.len() == n,
            forall|k: int| 0 <= k < i ==> mask@[k] == inverted(m0)[k],
            forall|k: int| i <= k < n ==> mask@[k] == m0[k],
    {
        let v = if mask[i] == 0 {
            255u8
        } else {
            0u8
        };
        mask.set(i, v);
    }
    assert(mask@ =~= inverted(m0));
}

/// After the convention, at most half of the mask is foreground.
pub proof fn lemma_foreground_is_minority(mask: Seq<u8>)
    ensures
        2 * foreground_count(with_foreground_convention(mask), mask.len() as int) <= mask.len(),
{
    if 2 * foreground_count(mask, mask.len() as int) >= mask.len() {
        lemma_inverted_count(mask, mask.len() as int);
    }
}

/// The foreground mask of a `width` x `height` grayscale image: 255 where a value is above
/// `threshold` and 0 elsewhere, then inverted when at least half of it is foreground; an error
/// when `gray` has another length. An empty image of width 0 is left out, as kornia's threshold
/// panics on it.
pub fn foreground_mask(gray: Vec<u8>, width: usize, height: usize, threshold: u8) -> (r: Result<Vec<u8>, DetectionError>)
    requires
        width * height <= usize::MAX,
        16 * width <= usize::MAX,
        width > 0 || gray@.len() > 0,
    ensures
        r is Ok <==> gray@.len() == width * height,
        r matches Ok(m) ==> m@ == with_foreground_convention(threshold_of(gray@, threshold, 255)),
{
    match kornia_threshold_binary(gray, width, height, threshold, 255) {
        Ok(mut mask) => {
            ensure_foreground_convention(&mut mask);
            Ok(mask)
        },
        Err(e) => Err(DetectionError::Kornia(e)),
    }
}

/// The binary image of a `width` x `height` grayscale image: 255 where a value is above
/// `threshold` and 0 elsewhere (kornia's binary threshold); an error when `gray` has another
/// length. An empty image of width 0 is left out, as kornia's threshold panics on it.
pub fn binary_threshold(gray: Vec<u8>, width: usize, height: usize, threshold: u8) -> (r: Result<Vec<u8>, DetectionError>)
    requires
        width * height <= usize::MAX,
        16 * width <= usize::MAX,
        width > 0 || gray@.len() > 0,
    ensures
        r is Ok <==> gray@.len() == width * height,
        r matches Ok(m) ==> m@ == threshold_of(gray@, threshold, 255),
{
    match kornia_threshold_binary(gray, width, height, threshold, 255) {
        Ok(m) => Ok(m),
        Err(e) => Err(DetectionError::Kornia(e)),
    }
}

} // verus!
