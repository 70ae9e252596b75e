//! Decoded images in the layout the network reads: one plane per colour channel.

use vstd::prelude::*;

use image::imageops::FilterType;
use image::ImageReader;
use std::io::Cursor;

verus! {

/// Side of the square images the network is trained on.
pub const IMAGE_SIDE: u32 = 224;

/// Colour channels per pixel (red, green, blue).
pub const CHANNELS: usize = 3;

/// The interleaved RGB bytes (row by row, three bytes per pixel) of the image that `bytes`
/// encode, in the built-in format that its first bytes announce, resized to `width` by
/// `height` with the triangle filter; none where no built-in format is recognised or the
/// bytes do not decode in it.
pub uninterp spec fn decoded_rgb(bytes: Seq<u8>, width: u32, height: u32) -> Option<Seq<u8>>;

/// Decodes an encoded image and resizes it exactly to `width` by `height` with the triangle
/// filter, as interleaved 8-bit RGB.
///
/// A chain of calls into `image`: `guess_format` on the bytes, `ImageReader::with_format`
/// over a `std::io::Cursor` with that built-in format, `decode`, then on the decoded image
/// `resize_exact` with `FilterType::Triangle` (fixed here, so absent from the name's
/// parameters), `to_rgb8` and `into_raw`. The built-in format path consults none of the
/// crate's process-wide format and decoding hooks, which is what lets the result be named by
/// the arguments alone.
///
/// Trusted: the result is `decoded_rgb` of the arguments, and an RGB buffer of the requested
/// size holds three bytes per pixel (`ImageBuffer::new(width, height)` in `resize`, kept by
/// `to_rgb8`). `ImageBuffer::new` panics where a buffer's length overflows `usize`; the
/// `requires` rules that out: on 64-bit targets the intermediate buffer (decoded width times
/// `height` times four) stays within `usize` under the decoder's allocation limit, and the
/// resized buffers are bounded by the second clause.
#[verifier::external_body]
fn decode_resized_rgb(bytes: &[u8], width: u32, height: u32) -> (pixels: Option<Vec<u8>>)
    requires
        usize::BITS == 64,
        (width as int) * (height as int) * 4 <= usize::MAX,
    ensures
        match pixels {
            Some(p) => decoded_rgb(bytes@, width, height) == Some(p@) && p@.len() == (width as int)
                * (height as int) * 3,
            None => decoded_rgb(bytes@, width, height) is None,
        },
{
    let format = image::guess_format(bytes).ok()?;
    let image = ImageReader::with_format(Cursor::new(bytes), format).decode().ok()?;
    Some(image.resize_exact(width, height, FilterType::Triangle).to_rgb8().into_raw())
}

/// Channel `c` of interleaved RGB bytes: byte `c` of every pixel, in pixel order.
pub open spec fn channel_plane(rgb: Seq<u8>, c: int) -> Seq<u8> {
    Seq::new(rgb.len() / 3, |p: int| rgb[3 * p + c])
}

/// Interleaved RGB bytes rearranged channel by channel: all red bytes, then all green,
/// then all blue, each plane in pixel order.
pub open spec fn planar_of(rgb: Seq<u8>) -> Seq<u8> {
    channel_plane(rgb, 0) + channel_plane(rgb, 1) + channel_plane(rgb, 2)
}

/// Rearranges interleaved RGB bytes into three planes, red, green, then blue.
pub fn planar_channels(rgb: &Vec<u8>) -> (planes: Vec<u8>)
    requires
        rgb@.len() % 3 == 0,
    ensures
        planes@ == planar_of(rgb@),
        planes@.len() == rgb@.len(),
{
    let pixels: usize = rgb.len() / 3;
    let mut planes: Vec<u8> = Vec::new();
    let mut c: usize = 0;
    while c < CHANNELS
        invariant
            pixels * 3 == rgb@.len(),
            rgb@.len() <= usize::MAX,
            c <= 3,
            c == 0 ==> planes@ == Seq::<u8>::empty(),
            c == 1 ==> planes@ == channel_plane(rgb@, 0),
            c == 2 ==> planes@ == channel_plane(rgb@, 0) + channel_plane(rgb@, 1),
            c == 3 ==> planes@ == planar_of(rgb@),
        decreases CHANNELS - c,
    {
        let ghost start = planes@;
        let mut p: usize = 0;
        while p < pixels
            invariant
                pixels * 3 == rgb@.len(),
                rgb@.len() <= usize::MAX,
                c < 3,
                p <= pixels,
                planes@ == start + channel_plane(rgb@, c as int).take(p as int),
            decreases pixels - p,
        {
            planes.push(rgb[3 * p + c]);
            proof {
                assert(channel_plane(rgb@, c as int).take(p + 1) =~= channel_plane(
                    rgb@,
                    c as int,
                ).take(p as int).push(rgb@[3 * p + c]));
            }
            p = p + 1;
        }
        proof {
            assert(channel_plane(rgb@, c as int).take(p as int) =~= channel_plane(rgb@, c as int));
            assert(Seq::<u8>::empty() + channel_plane(rgb@, 0) =~= channel_plane(rgb@, 0));
        }
        c = c + 1;
    }
    planes
}

/// The planar RGB bytes of the image that `bytes` encode, resized to the network's input
/// size: what `decoded_rgb` gives, rearranged by `planar_of`; none where the bytes do not
/// decode. Meant for 64-bit targets, where resizing cannot overflow a buffer's length.
pub fn decode_planar_rgb(bytes: &[u8]) -> (planes: Option<Vec<u8>>)
    requires
        usize::BITS == 64,
    ensures
        match planes {
            Some(p) => decoded_rgb(bytes@, IMAGE_SIDE, IMAGE_SIDE) matches Some(rgb) && rgb.len() == 3
                * (IMAGE_SIDE as int) * (IMAGE_SIDE as int) && p@ == planar_of(rgb) && p@.len() == 3
                * (IMAGE_SIDE as int) * (IMAGE_SIDE as int),
            None => decoded_rgb(bytes@, IMAGE_SIDE, IMAGE_SIDE) is None,
        },
{
    match decode_resized_rgb(bytes, IMAGE_SIDE, IMAGE_SIDE) {
        Some(rgb) => Some(planar_channels(&rgb)),
        None => None,
    }
}

} // verus!
