//! Writing a picture in a format, and telling what that format cannot hold.

use vstd::prelude::*;

use crate::images::model::{rgba8, ImageKind, JpegColor, Picture, PictureValue};
use crate::images::outside::{
    accept_profile, accepted_profile, bmp_file, declares, gif_file, holds_picture, holds_profile,
    jpeg_file, optional_bytes, png_file, rgba_picture, to_rgba8, webp_file, write_bmp, write_gif,
    write_jpeg, write_png, write_webp,
};
use crate::metadata::jpeg::is_bare_jpeg;
use crate::metadata::png::is_bare_png;
use crate::notices::{notice, notice_values, push_notice, with_notice, Notice, NoticeValue};
use crate::text::{joined, outcome};

verus! {

/// The JPEG container stores dimensions in 16 bits, so nothing wider or taller
/// than this can be written as a JPEG at all.
pub const MAX_JPEG_DIMENSION: u32 = 65_535;

/// One channel of a pixel on white, rounded to the nearest step.
pub open spec fn on_white(channel: u8, alpha: u8) -> u8 {
    ((channel * alpha + 255 * (255 - alpha) + 127) / 255) as u8
}

/// RGBA samples composited onto white, as tightly packed RGB samples.
pub open spec fn flattened(rgba: Seq<u8>) -> Seq<u8> {
    Seq::new(
        rgba.len() / 4 * 3,
        |i: int| on_white(rgba[i / 3 * 4 + i % 3], rgba[i / 3 * 4 + 3]),
    )
}

fn channel_on_white(channel: u8, alpha: u8) -> (flat: u8)
    ensures
        flat == on_white(channel, alpha),
{
    assert(channel * alpha + 255 * (255 - alpha) + 127 <= 65152) by (nonlinear_arith)
        requires
            0 <= channel <= 255,
            0 <= alpha <= 255,
    ;
    assert(0 <= channel * alpha) by (nonlinear_arith)
        requires
            0 <= channel,
            0 <= alpha,
    ;
    let sum: u32 = channel as u32 * alpha as u32 + 255 * (255 - alpha as u32) + 127;
    (sum / 255) as u8
}

/// Composite RGBA samples onto white.
pub fn flatten_alpha_onto_white(rgba: &[u8]) -> (rgb: Vec<u8>)
    ensures
        rgb@ == flattened(rgba@),
{
    let mut rgb: Vec<u8> = Vec::new();
    let mut i: usize = 0;
    while i < rgba.len() / 4
        invariant
            i <= rgba@.len() / 4,
            rgb@.len() == i * 3,
            forall|j: int| 0 <= j < i * 3 ==> #[trigger] rgb@[j] == flattened(rgba@)[j],
        decreases rgba.len() / 4 - i,
    {
        let at: usize = i * 4;
        let alpha: u8 = rgba[at + 3];
        rgb.push(channel_on_white(rgba[at], alpha));
        rgb.push(channel_on_white(rgba[at + 1], alpha));
        rgb.push(channel_on_white(rgba[at + 2], alpha));
        assert((i * 3) / 3 == i && (i * 3) % 3 == 0);
        assert((i * 3 + 1) / 3 == i && (i * 3 + 1) % 3 == 1);
        assert((i * 3 + 2) / 3 == i && (i * 3 + 2) % 3 == 2);
        i += 1;
    }
    assert(rgb@ =~= flattened(rgba@));
    rgb
}

/// That a format has no room for the colour profile.
pub open spec fn profile_dropped() -> NoticeValue {
    notice(
        "image-color-profile-dropped"@,
        "This image carried an embedded colour profile that the chosen output format cannot store, so its colours will be shown as plain sRGB and may look slightly different."@,
    )
}

/// Tell that a format has no room for the colour profile.
pub fn push_profile_dropped(notices: &mut Vec<Notice>)
    ensures
        notice_values(final(notices)@) == with_notice(
            notice_values(old(notices)@),
            profile_dropped(),
        ),
{
    push_notice(
        notices,
        Notice::new(
            "image-color-profile-dropped",
            "This image carried an embedded colour profile that the chosen output format cannot store, so its colours will be shown as plain sRGB and may look slightly different.",
        ),
    );
}

/// That a format holds fewer bits than the picture has.
pub open spec fn depth_reduced() -> NoticeValue {
    notice(
        "image-bit-depth-reduced"@,
        "This image stores 16 bits per colour channel; the chosen output format holds only 8, so fine tonal steps were rounded."@,
    )
}

/// Tell that a format holds fewer bits than the picture has.
pub fn push_depth_reduced(notices: &mut Vec<Notice>)
    ensures
        notice_values(final(notices)@) == with_notice(
            notice_values(old(notices)@),
            depth_reduced(),
        ),
{
    push_notice(
        notices,
        Notice::new(
            "image-bit-depth-reduced",
            "This image stores 16 bits per colour channel; the chosen output format holds only 8, so fine tonal steps were rounded.",
        ),
    );
}

/// The notices once a picture was encoded: what the format cannot carry across.
pub open spec fn encode_notices(
    picture: PictureValue,
    kind: ImageKind,
    profile: Option<Seq<u8>>,
    notices: Seq<NoticeValue>,
) -> Seq<NoticeValue> {
    let loses_profile = profile is Some && (kind == ImageKind::Gif || kind == ImageKind::Bmp);
    let loses_depth = picture.is_sixteen_bit() && kind != ImageKind::Png;
    let first = if loses_profile {
        with_notice(notices, profile_dropped())
    } else {
        notices
    };
    if loses_depth {
        with_notice(first, depth_reduced())
    } else {
        first
    }
}

/// A result with a sentence in front of its error.
pub open spec fn with_context(file: Result<Seq<u8>, Seq<char>>, context: Seq<char>) -> Result<
    Seq<u8>,
    Seq<char>,
> {
    match file {
        Ok(bytes) => Ok(bytes),
        Err(error) => Err(context + error),
    }
}

fn add_context(file: Result<Vec<u8>, String>, context: &str) -> (told: Result<Vec<u8>, String>)
    ensures
        outcome(told) == with_context(outcome(file), context@),
        file is Ok ==> told == file,
{
    match file {
        Ok(bytes) => Ok(bytes),
        Err(error) => Err(joined(context, error.as_str())),
    }
}

/// A picture as a JPEG: composited onto white, with its colour profile.
pub open spec fn encoded_jpeg(
    picture: PictureValue,
    quality: u8,
    profile: Option<Seq<u8>>,
) -> Result<Seq<u8>, Seq<char>> {
    if picture.width > MAX_JPEG_DIMENSION {
        Err("This image is too wide to encode as JPEG."@)
    } else if picture.height > MAX_JPEG_DIMENSION {
        Err("This image is too tall to encode as JPEG."@)
    } else {
        let accepted = match profile {
            Some(profile) => accepted_profile(profile),
            None => Ok(()),
        };
        match accepted {
            Err(error) => Err("Could not keep the colour profile: "@ + error),
            Ok(()) => with_context(
                jpeg_file(
                    flattened(rgba8(picture)),
                    picture.width as u16,
                    picture.height as u16,
                    JpegColor::Rgb,
                    quality,
                    profile,
                ),
                "Could not encode the JPEG image: "@,
            ),
        }
    }
}

/// A picture in a format, with its colour profile where the format holds one and
/// nothing else of the source. A PNG keeps the exact layout and bit depth, a JPEG
/// is composited onto white, and the others hold 8-bit RGBA.
pub open spec fn encoded_image(
    picture: PictureValue,
    kind: ImageKind,
    quality: u8,
    profile: Option<Seq<u8>>,
) -> Result<Seq<u8>, Seq<char>> {
    match kind {
        ImageKind::Jpeg => encoded_jpeg(picture, quality, profile),
        ImageKind::Png => with_context(
            png_file(picture, profile),
            "Could not encode the PNG image: "@,
        ),
        ImageKind::Gif => with_context(
            gif_file(rgba8(picture), picture.width, picture.height),
            "Could not encode the GIF image: "@,
        ),
        ImageKind::Bmp => with_context(
            bmp_file(rgba8(picture), picture.width, picture.height),
            "Could not encode the BMP image: "@,
        ),
        ImageKind::WebP => with_context(
            webp_file(rgba8(picture), picture.width, picture.height, profile),
            "Could not encode the WebP image: "@,
        ),
    }
}

/// Whether a written image is faithful to its picture. It declares the picture's
/// size. A PNG gives back the very pixels, a BMP or a WebP gives them back in 8-bit
/// RGBA, and a colour profile that is read again is the picture's. A JPEG or a PNG
/// carries nothing that would be reported as metadata.
pub open spec fn is_faithful(
    picture: PictureValue,
    kind: ImageKind,
    profile: Option<Seq<u8>>,
    file: Seq<u8>,
) -> bool {
    let eight_bit = rgba_picture(rgba8(picture), picture.width, picture.height);
    &&& declares(file, kind, picture.width, picture.height)
    &&& match kind {
        ImageKind::Jpeg => is_bare_jpeg(file) && holds_profile(file, kind, profile),
        ImageKind::Png => is_bare_png(file) && holds_picture(file, kind, picture)
            && holds_profile(file, kind, profile),
        ImageKind::Gif => true,
        ImageKind::Bmp => holds_picture(file, kind, eight_bit),
        ImageKind::WebP => file.len() <= u32::MAX ==> holds_picture(file, kind, eight_bit)
            && holds_profile(file, kind, profile),
    }
}

fn encode_jpeg(picture: &Picture, quality: u8, profile: Option<&[u8]>) -> (file: Result<
    Vec<u8>,
    String,
>)
    requires
        picture@.is_whole(),
    ensures
        outcome(file) == encoded_jpeg(picture@, quality, optional_bytes(profile)),
        match file {
            Ok(file) => is_faithful(picture@, ImageKind::Jpeg, optional_bytes(profile), file@),
            Err(_) => true,
        },
{
    if picture.width > MAX_JPEG_DIMENSION {
        return Err("This image is too wide to encode as JPEG.".to_owned());
    }
    if picture.height > MAX_JPEG_DIMENSION {
        return Err("This image is too tall to encode as JPEG.".to_owned());
    }
    let rgba = to_rgba8(picture);
    let rgb = flatten_alpha_onto_white(&rgba);
    proof {
        let pixels = picture@.pixels();
        assert(pixels * 4 / 4 * 3 == pixels * 3);
        assert(picture.width * picture.height * 3 == pixels * 3);
    }
    if let Some(profile) = profile {
        match accept_profile(profile) {
            Ok(()) => {},
            Err(error) => {
                return Err(joined("Could not keep the colour profile: ", error.as_str()));
            },
        }
    }
    add_context(
        write_jpeg(
            &rgb,
            picture.width as u16,
            picture.height as u16,
            JpegColor::Rgb,
            quality,
            profile,
        ),
        "Could not encode the JPEG image: ",
    )
}

/// Encode pixels plus the source colour profile, deliberately omitting EXIF, XMP,
/// and all other source metadata. What the format cannot carry across is told in
/// `notices`.
pub fn encode(
    picture: &Picture,
    kind: ImageKind,
    quality: u8,
    profile: Option<&[u8]>,
    notices: &mut Vec<Notice>,
) -> (file: Result<Vec<u8>, String>)
    requires
        picture@.is_whole(),
    ensures
        outcome(file) == encoded_image(picture@, kind, quality, optional_bytes(profile)),
        match file {
            Ok(file) => is_faithful(picture@, kind, optional_bytes(profile), file@),
            Err(_) => true,
        },
        notice_values(final(notices)@) == encode_notices(
            picture@,
            kind,
            optional_bytes(profile),
            notice_values(old(notices)@),
        ),
{
    match kind {
        ImageKind::Jpeg => {
            if picture.is_sixteen_bit() {
                push_depth_reduced(notices);
            }
            encode_jpeg(picture, quality, profile)
        },
        ImageKind::Png => add_context(
            write_png(picture, profile),
            "Could not encode the PNG image: ",
        ),
        ImageKind::Gif => {
            if profile.is_some() {
                push_profile_dropped(notices);
            }
            if picture.is_sixteen_bit() {
                push_depth_reduced(notices);
            }
            add_context(
                write_gif(&to_rgba8(picture), picture.width, picture.height),
                "Could not encode the GIF image: ",
            )
        },
        ImageKind::Bmp => {
            if profile.is_some() {
                push_profile_dropped(notices);
            }
            if picture.is_sixteen_bit() {
                push_depth_reduced(notices);
            }
            add_context(
                write_bmp(&to_rgba8(picture), picture.width, picture.height),
                "Could not encode the BMP image: ",
            )
        },
        ImageKind::WebP => {
            if picture.is_sixteen_bit() {
                push_depth_reduced(notices);
            }
            add_context(
                write_webp(&to_rgba8(picture), picture.width, picture.height, profile),
                "Could not encode the WebP image: ",
            )
        },
    }
}

/// An opaque channel stays as it is, and a transparent one becomes white.
pub proof fn flattening_keeps_opaque_channels(channel: u8)
    ensures
        on_white(channel, 255) == channel,
        on_white(channel, 0) == 255,
{
    assert(channel * 255 + 255 * (255 - 255) + 127 == 255 * channel + 127);
    assert((255 * channel + 127) / 255 == channel);
    assert(channel * 0 + 255 * (255 - 0) + 127 == 65152);
}

/// On white, a channel is within half a step of the exact blend, whatever its value and
/// however opaque it is.
pub proof fn blending_is_exact_to_half_a_step(channel: u8, alpha: u8)
    ensures
        -127 <= 255 * on_white(channel, alpha) - (channel * alpha + 255 * (255 - alpha)) <= 127,
{
    let exact = channel * alpha + 255 * (255 - alpha);
    assert(0 <= channel * alpha <= 255 * alpha) by (nonlinear_arith)
        requires
            0 <= channel <= 255,
            0 <= alpha,
    ;
    assert(0 <= (exact + 127) / 255 <= 255);
}

/// Whether one channel of a pixel was put onto white.
pub open spec fn is_blended(channel: u8, alpha: u8, flat: u8) -> bool {
    -127 <= 255 * flat - (channel * alpha + 255 * (255 - alpha)) <= 127
}

/// Compositing gives one RGB pixel for each RGBA pixel, in order, each channel of which is
/// the same channel of that pixel blended onto white.
pub proof fn flattening_blends_every_pixel(rgba: Seq<u8>, pixel: int)
    requires
        0 <= pixel < rgba.len() / 4,
    ensures
        flattened(rgba).len() == 3 * (rgba.len() / 4),
        is_blended(rgba[4 * pixel], rgba[4 * pixel + 3], flattened(rgba)[3 * pixel]),
        is_blended(rgba[4 * pixel + 1], rgba[4 * pixel + 3], flattened(rgba)[3 * pixel + 1]),
        is_blended(rgba[4 * pixel + 2], rgba[4 * pixel + 3], flattened(rgba)[3 * pixel + 2]),
{
    assert((3 * pixel) / 3 == pixel && (3 * pixel) % 3 == 0);
    assert((3 * pixel + 1) / 3 == pixel && (3 * pixel + 1) % 3 == 1);
    assert((3 * pixel + 2) / 3 == pixel && (3 * pixel + 2) % 3 == 2);
    blending_is_exact_to_half_a_step(rgba[4 * pixel], rgba[4 * pixel + 3]);
    blending_is_exact_to_half_a_step(rgba[4 * pixel + 1], rgba[4 * pixel + 3]);
    blending_is_exact_to_half_a_step(rgba[4 * pixel + 2], rgba[4 * pixel + 3]);
}

} // verus!
