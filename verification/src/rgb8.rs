//! 8-bit RGB frames as decoded from disk, and their downscaling.
use vstd::prelude::*;

verus! {

/// The pixels that `image::imageops::resize` with the `Triangle` filter
/// produces from a `width` x `height` RGB8 buffer at `new_width` x
/// `new_height` (three bytes per pixel, row by row).
pub uninterp spec fn triangle_resize(raw: Seq<u8>, width: u32, height: u32, new_width: u32, new_height: u32) -> Seq<u8>;

/// Calls `image::imageops::resize` with `FilterType::Triangle` on the RGB8
/// buffer and returns the raw bytes of the result. Claimed: the result is
/// determined by the arguments alone ([`triangle_resize`]), holds three bytes
/// per target pixel, and is the input itself when the size does not change
/// (the crate then copies the pixels instead of resampling).
#[verifier::external_body]
fn resize_triangle(raw: Vec<u8>, width: u32, height: u32, new_width: u32, new_height: u32) -> (out: Vec<u8>)
    requires
        raw.len() == 3 * width * height,
        new_width >= 1,
        new_height >= 1,
        3 * new_width * new_height <= usize::MAX,
        4 * width * new_height <= usize::MAX,
    ensures
        out@ == triangle_resize(raw@, width, height, new_width, new_height),
        out.len() == 3 * new_width * new_height,
        (new_width == width && new_height == height) ==> out@ == raw@,
{
    let img = image::ImageBuffer::<image::Rgb<u8>, Vec<u8>>::from_raw(width, height, raw).unwrap();
    image::imageops::resize(&img, new_width, new_height, image::imageops::FilterType::Triangle).into_raw()
}

/// An 8-bit RGB frame, three bytes per pixel, row by row.
pub struct Rgb8Frame {
    pub width: u32,
    pub height: u32,
    pub raw: Vec<u8>,
}

impl Rgb8Frame {
    /// The buffer holds exactly three bytes per pixel.
    pub open spec fn wf(&self) -> bool {
        self.raw.len() == 3 * self.width * self.height
    }
}

/// Whether a frame of this size exceeds the largest side allowed.
pub open spec fn exceeds_max_side(width: u32, height: u32, max_side: Option<u32>) -> bool {
    match max_side {
        Some(m) => (if width > height {
            width
        } else {
            height
        }) > m,
        None => false,
    }
}

/// A frame is downscaled exactly when its width or its height is above the
/// largest side allowed, and never without a limit.
pub proof fn lemma_exceeds_max_side(width: u32, height: u32, max_side: Option<u32>)
    ensures
        exceeds_max_side(width, height, max_side) <==> (max_side is Some && (width > max_side->Some_0
            || height > max_side->Some_0)),
{
}

/// Downscales a frame whose larger side exceeds `max_side` to
/// `target_width` x `target_height` with the triangle filter; any other
/// frame comes back unchanged.
pub fn fit_to_max_side(frame: Rgb8Frame, max_side: Option<u32>, target_width: u32, target_height: u32) -> (out: Rgb8Frame)
    requires
        frame.wf(),
        target_width >= 1,
        target_height >= 1,
        3 * target_width * target_height <= usize::MAX,
        4 * frame.width * target_height <= usize::MAX,
    ensures
        out.wf(),
        exceeds_max_side(frame.width, frame.height, max_side) ==> out.width == target_width
            && out.height == target_height && out.raw@ == triangle_resize(
            frame.raw@,
            frame.width,
            frame.height,
            target_width,
            target_height,
        ),
        !exceeds_max_side(frame.width, frame.height, max_side) ==> out.width == frame.width
            && out.height == frame.height && out.raw@ == frame.raw@,
{
    let too_large = match max_side {
        Some(m) => {
            let larger = if frame.width > frame.height {
                frame.width
            } else {
                frame.height
            };
            larger > m
        },
        None => false,
    };
    if too_large {
        let Rgb8Frame { width, height, raw } = frame;
        let resized = resize_triangle(raw, width, height, target_width, target_height);
        Rgb8Frame { width: target_width, height: target_height, raw: resized }
    } else {
        frame
    }
}

} // verus!
