//! The calls into the image codecs: `image`, `jpeg_encoder` and `zune_jpeg`.
//!
//! Every call takes plain values and hands plain values back. What converts
//! between a picture and `image::DynamicImage` moves values one for one.

use std::io::Cursor;

use image::codecs::bmp::BmpEncoder;
use image::codecs::gif::{GifDecoder, GifEncoder, Repeat};
use image::codecs::png::{CompressionType, FilterType, PngEncoder};
use image::codecs::webp::WebPEncoder;
use image::imageops::FilterType as ResizeFilter;
use image::metadata::Orientation;
use image::{
    AnimationDecoder, Delay, DynamicImage, ExtendedColorType, Frame, ImageBuffer, ImageDecoder,
    ImageEncoder, ImageFormat, ImageReader, Limits,
};
use jpeg_encoder::{ColorType, Encoder};
use vstd::prelude::*;
use zune_jpeg::zune_core::bytestream::ZCursor;
use zune_jpeg::zune_core::colorspace::ColorSpace;
use zune_jpeg::zune_core::options::DecoderOptions;
use zune_jpeg::JpegDecoder;

use crate::images::model::{
    are_frames, frame_values, has_size, have_size, oriented, rgb8, rgba8, AnimationFrame, FrameValue,
    ImageKind, JpegColor, Layout, Picture, PictureValue, Samples, SamplesValue,
};
use crate::metadata::jpeg::is_bare_jpeg;
use crate::metadata::png::is_bare_png;
use crate::text::{decimal, outcome};

verus! {

/// `image::DynamicImage`, carried without looking inside.
#[verifier::external_type_specification]
#[verifier::external_body]
pub struct ExDynamicImage(DynamicImage);

/// `image::ImageFormat`, carried without looking inside.
#[verifier::external_type_specification]
#[verifier::external_body]
pub struct ExImageFormat(ImageFormat);

/// `image::Limits`, carried without looking inside.
#[verifier::external_type_specification]
#[verifier::external_body]
pub struct ExLimits(Limits);

/// `image::Frame`, carried without looking inside.
#[verifier::external_type_specification]
#[verifier::external_body]
pub struct ExFrame(Frame);

/// Converts a format into an `image::ImageFormat`, variant by variant.
#[verifier::external_body]
fn outside_kind(kind: ImageKind) -> ImageFormat {
    match kind {
        ImageKind::Jpeg => ImageFormat::Jpeg,
        ImageKind::Png => ImageFormat::Png,
        ImageKind::Gif => ImageFormat::Gif,
        ImageKind::Bmp => ImageFormat::Bmp,
        ImageKind::WebP => ImageFormat::WebP,
    }
}

/// Converts a memory bound into `image::Limits` with the crate's own bounds
/// otherwise.
#[verifier::external_body]
fn outside_limits(max_alloc: u64) -> Limits {
    let mut limits = Limits::default();
    limits.max_alloc = Some(max_alloc);
    limits
}

/// Reads the channel layout of an `image::DynamicImage`, variant by variant.
#[verifier::external_body]
fn plain_layout(image: &DynamicImage) -> Layout {
    match image.color() {
        image::ColorType::L8 | image::ColorType::L16 => Layout::Luma,
        image::ColorType::La8 | image::ColorType::La16 => Layout::LumaAlpha,
        image::ColorType::Rgb8 | image::ColorType::Rgb16 => Layout::Rgb,
        _ => Layout::Rgba,
    }
}

/// Takes the samples out of an `image::DynamicImage`, variant by variant. The
/// variants in floating point, which none of the formats read here decode to,
/// become 8-bit RGBA.
#[verifier::external_body]
fn plain_samples(image: DynamicImage) -> Samples {
    match image {
        DynamicImage::ImageLuma8(buffer) => Samples::Eight(buffer.into_raw()),
        DynamicImage::ImageLumaA8(buffer) => Samples::Eight(buffer.into_raw()),
        DynamicImage::ImageRgb8(buffer) => Samples::Eight(buffer.into_raw()),
        DynamicImage::ImageRgba8(buffer) => Samples::Eight(buffer.into_raw()),
        DynamicImage::ImageLuma16(buffer) => Samples::Sixteen(buffer.into_raw()),
        DynamicImage::ImageLumaA16(buffer) => Samples::Sixteen(buffer.into_raw()),
        DynamicImage::ImageRgb16(buffer) => Samples::Sixteen(buffer.into_raw()),
        DynamicImage::ImageRgba16(buffer) => Samples::Sixteen(buffer.into_raw()),
        other => Samples::Eight(other.into_rgba8().into_raw()),
    }
}

/// Converts an `image::DynamicImage`, part by part.
#[verifier::external_body]
fn plain_picture(image: DynamicImage) -> Picture {
    let (width, height, layout) = (image.width(), image.height(), plain_layout(&image));
    Picture { width, height, layout, samples: plain_samples(image) }
}

/// Converts 8-bit samples into an `image::DynamicImage`, layout by layout.
#[verifier::external_body]
fn outside_eight(width: u32, height: u32, layout: Layout, samples: Vec<u8>) -> Option<DynamicImage> {
    match layout {
        Layout::Luma => ImageBuffer::from_raw(width, height, samples).map(DynamicImage::ImageLuma8),
        Layout::LumaAlpha => ImageBuffer::from_raw(width, height, samples).map(DynamicImage::ImageLumaA8),
        Layout::Rgb => ImageBuffer::from_raw(width, height, samples).map(DynamicImage::ImageRgb8),
        Layout::Rgba => ImageBuffer::from_raw(width, height, samples).map(DynamicImage::ImageRgba8),
    }
}

/// Converts 16-bit samples into an `image::DynamicImage`, layout by layout.
#[verifier::external_body]
fn outside_sixteen(width: u32, height: u32, layout: Layout, samples: Vec<u16>) -> Option<DynamicImage> {
    match layout {
        Layout::Luma => ImageBuffer::from_raw(width, height, samples).map(DynamicImage::ImageLuma16),
        Layout::LumaAlpha => ImageBuffer::from_raw(width, height, samples).map(DynamicImage::ImageLumaA16),
        Layout::Rgb => ImageBuffer::from_raw(width, height, samples).map(DynamicImage::ImageRgb16),
        Layout::Rgba => ImageBuffer::from_raw(width, height, samples).map(DynamicImage::ImageRgba16),
    }
}

/// Converts a whole picture into an `image::DynamicImage`.
#[verifier::external_body]
fn outside_picture(picture: &Picture) -> DynamicImage
    requires
        picture@.is_whole(),
{
    let made = match &picture.samples {
        Samples::Eight(samples) => outside_eight(picture.width, picture.height, picture.layout, samples.clone()),
        Samples::Sixteen(samples) => outside_sixteen(picture.width, picture.height, picture.layout, samples.clone()),
    };
    made.expect("a whole picture has a sample for each channel of each pixel")
}

/// Converts an `image::Frame`, field by field.
#[verifier::external_body]
fn plain_frame(frame: Frame) -> AnimationFrame {
    let delay = frame.delay().numer_denom_ms();
    let picture = plain_picture(DynamicImage::ImageRgba8(frame.into_buffer()));
    AnimationFrame { picture, delay }
}

/// Converts a frame into an `image::Frame` at the canvas origin.
#[verifier::external_body]
fn outside_frame(frame: &AnimationFrame) -> Frame
    requires
        frame@.picture.is_whole(),
        frame.delay.1 > 0,
{
    let delay = Delay::from_numer_denom_ms(frame.delay.0, frame.delay.1);
    Frame::from_parts(outside_picture(&frame.picture).into_rgba8(), 0, 0, delay)
}

/// The format that the first bytes of a file show: `None` for a known format
/// that is not handled here.
pub uninterp spec fn guessed_kind(bytes: Seq<u8>) -> Result<Option<ImageKind>, Seq<char>>;

/// A format guess by its value.
pub open spec fn kind_outcome(guess: Result<Option<ImageKind>, String>) -> Result<
    Option<ImageKind>,
    Seq<char>,
> {
    match guess {
        Ok(kind) => Ok(kind),
        Err(error) => Err(error@),
    }
}

/// `image::guess_format`: the format that a file's magic bytes show, or the
/// error's text where they show none.
#[verifier::external_body]
pub(crate) fn guess_kind(bytes: &[u8]) -> (guess: Result<Option<ImageKind>, String>)
    ensures
        kind_outcome(guess) == guessed_kind(bytes@),
{
    match image::guess_format(bytes).map_err(|error| error.to_string())? {
        ImageFormat::Jpeg => Ok(Some(ImageKind::Jpeg)),
        ImageFormat::Png => Ok(Some(ImageKind::Png)),
        ImageFormat::Gif => Ok(Some(ImageKind::Gif)),
        ImageFormat::Bmp => Ok(Some(ImageKind::Bmp)),
        ImageFormat::WebP => Ok(Some(ImageKind::WebP)),
        _ => Ok(None),
    }
}

/// The size that an image file declares.
pub uninterp spec fn declared_size(bytes: Seq<u8>, kind: ImageKind) -> Result<
    (u32, u32),
    Seq<char>,
>;

/// A size by its value.
pub open spec fn size_outcome(size: Result<(u32, u32), String>) -> Result<(u32, u32), Seq<char>> {
    match size {
        Ok(size) => Ok(size),
        Err(error) => Err(error@),
    }
}

/// `image::ImageReader::into_dimensions`: the width and the height that a file of
/// this format declares, or the error's text.
#[verifier::external_body]
pub(crate) fn read_size(bytes: &[u8], kind: ImageKind) -> (size: Result<(u32, u32), String>)
    ensures
        size_outcome(size) == declared_size(bytes@, kind),
{
    ImageReader::with_format(Cursor::new(bytes), outside_kind(kind))
        .into_dimensions()
        .map_err(|error| error.to_string())
}

/// Whether a decoder opens a file within a memory bound.
pub uninterp spec fn opened(bytes: Seq<u8>, kind: ImageKind, max_alloc: u64) -> Result<
    (),
    Seq<char>,
>;

/// `image::ImageReader::into_decoder` within a memory bound: nothing, or the
/// error's text.
#[verifier::external_body]
pub(crate) fn open_decoder(bytes: &[u8], kind: ImageKind, max_alloc: u64) -> (result: Result<
    (),
    String,
>)
    ensures
        outcome(result) == opened(bytes@, kind, max_alloc),
{
    let mut reader = ImageReader::with_format(Cursor::new(bytes), outside_kind(kind));
    reader.limits(outside_limits(max_alloc));
    reader.into_decoder().map(|_| ()).map_err(|error| error.to_string())
}

/// The colour profile that a file carries.
pub uninterp spec fn stored_profile(bytes: Seq<u8>, kind: ImageKind, max_alloc: u64) -> Option<
    Seq<u8>,
>;

/// `image::ImageDecoder::icc_profile` on the decoder of a file: its colour
/// profile, or `None` where there is none or it cannot be read.
#[verifier::external_body]
pub(crate) fn read_profile(bytes: &[u8], kind: ImageKind, max_alloc: u64) -> (profile: Option<
    Vec<u8>,
>)
    ensures
        match profile {
            Some(profile) => stored_profile(bytes@, kind, max_alloc) == Some(profile@),
            None => stored_profile(bytes@, kind, max_alloc) is None,
        },
{
    let mut reader = ImageReader::with_format(Cursor::new(bytes), outside_kind(kind));
    reader.limits(outside_limits(max_alloc));
    reader.into_decoder().ok()?.icc_profile().ok().flatten()
}

/// The orientation that a file records, as its EXIF number.
pub uninterp spec fn stored_orientation(
    bytes: Seq<u8>,
    kind: ImageKind,
    max_alloc: u64,
) -> Option<u8>;

/// `image::ImageDecoder::orientation` on the decoder of a file: the EXIF number
/// of its orientation, or `None` where it cannot be read.
#[verifier::external_body]
pub(crate) fn read_orientation(bytes: &[u8], kind: ImageKind, max_alloc: u64) -> (found: Option<u8>)
    ensures
        found == stored_orientation(bytes@, kind, max_alloc),
        found matches Some(number) ==> 1 <= number <= 8,
{
    let mut reader = ImageReader::with_format(Cursor::new(bytes), outside_kind(kind));
    reader.limits(outside_limits(max_alloc));
    reader.into_decoder().ok()?.orientation().ok().map(Orientation::to_exif)
}

/// The pixels that the decoder of a file gives.
pub uninterp spec fn decoded_pixels(bytes: Seq<u8>, kind: ImageKind, max_alloc: u64) -> Result<
    PictureValue,
    Seq<char>,
>;

/// `image::DynamicImage::from_decoder` on the decoder of a file: its pixels, in
/// the size that the file declares, or the error's text. The vectorised and the
/// plain code of the decoders give the same bits.
#[verifier::external_body]
pub(crate) fn decode_pixels(bytes: &[u8], kind: ImageKind, max_alloc: u64) -> (picture: Result<
    Picture,
    String,
>)
    ensures
        outcome(picture) == decoded_pixels(bytes@, kind, max_alloc),
        match picture {
            Ok(picture) => picture@.is_whole() && (match declared_size(bytes@, kind) {
                Ok(size) => has_size(picture@, size),
                Err(_) => true,
            }),
            Err(_) => true,
        },
{
    let mut reader = ImageReader::with_format(Cursor::new(bytes), outside_kind(kind));
    reader.limits(outside_limits(max_alloc));
    let decoder = reader.into_decoder().map_err(|error| error.to_string())?;
    DynamicImage::from_decoder(decoder).map(plain_picture).map_err(|error| error.to_string())
}

/// The picture that reading a file in one go gives.
pub uninterp spec fn read_in_full(bytes: Seq<u8>, kind: ImageKind, max_alloc: u64) -> Result<
    PictureValue,
    Seq<char>,
>;

/// `image::ImageReader::decode` within a memory bound that the pixels count
/// against: the picture, or the error's text.
#[verifier::external_body]
pub(crate) fn read_picture(bytes: &[u8], kind: ImageKind, max_alloc: u64) -> (picture: Result<
    Picture,
    String,
>)
    ensures
        outcome(picture) == read_in_full(bytes@, kind, max_alloc),
        picture matches Ok(picture) ==> picture@.is_whole(),
{
    let mut reader = ImageReader::with_format(Cursor::new(bytes), outside_kind(kind));
    reader.limits(outside_limits(max_alloc));
    reader.decode().map(plain_picture).map_err(|error| error.to_string())
}

/// Whether a file of this format decodes.
pub uninterp spec fn loaded(bytes: Seq<u8>, kind: ImageKind) -> Result<(), Seq<char>>;

/// `image::load_from_memory_with_format`: nothing, or the error's text.
#[verifier::external_body]
pub(crate) fn load_image(bytes: &[u8], kind: ImageKind) -> (result: Result<(), String>)
    ensures
        outcome(result) == loaded(bytes@, kind),
{
    image::load_from_memory_with_format(bytes, outside_kind(kind))
        .map(|_| ())
        .map_err(|error| error.to_string())
}

/// `image::DynamicImage::apply_orientation`: the picture turned and mirrored as
/// an EXIF orientation says.
#[verifier::external_body]
pub(crate) fn apply_orientation(picture: &Picture, orientation: u8) -> (turned: Picture)
    requires
        picture@.is_whole(),
        1 <= orientation <= 8,
    ensures
        turned@ == oriented(picture@, orientation),
{
    let mut image = outside_picture(picture);
    image.apply_orientation(Orientation::from_exif(orientation).unwrap_or(Orientation::NoTransforms));
    plain_picture(image)
}

/// `image::DynamicImage::to_rgba8`: four 8-bit samples for each pixel.
#[verifier::external_body]
pub(crate) fn to_rgba8(picture: &Picture) -> (samples: Vec<u8>)
    requires
        picture@.is_whole(),
    ensures
        samples@ == rgba8(picture@),
{
    outside_picture(picture).to_rgba8().into_raw()
}

/// `image::DynamicImage::into_rgb8`: three 8-bit samples for each pixel.
#[verifier::external_body]
pub(crate) fn to_rgb8(picture: &Picture) -> (samples: Vec<u8>)
    requires
        picture@.is_whole(),
    ensures
        samples@ == rgb8(picture@),
{
    outside_picture(picture).into_rgb8().into_raw()
}

/// The size that a picture takes once it is scaled into a box with its shape kept.
pub uninterp spec fn fitted_size(width: u32, height: u32, box_width: u32, box_height: u32) -> (
    u32,
    u32,
);

/// Whether a size fills a box in one direction and, in the other, keeps the shape
/// of a picture to within a pixel.
pub open spec fn keeps_shape(width: u32, height: u32, bound: (u32, u32), size: (u32, u32)) -> bool {
    if bound.0 * height <= bound.1 * width {
        size.0 == bound.0 && -width < size.1 * width - height * bound.0 < width
    } else {
        size.1 == bound.1 && -height < size.0 * height - width * bound.1 < height
    }
}

/// Whether a picture may come out so once it is scaled: into a box with its shape
/// kept, or to this very size. The samples are computed in floating point with a sine
/// that differs between machines, so this is a relation: more than one outcome may
/// be possible.
pub uninterp spec fn may_shrink(
    picture: PictureValue,
    width: u32,
    height: u32,
    keep_aspect: bool,
    shrunk: PictureValue,
) -> bool;

/// `image::DynamicImage::resize` with the Lanczos filter: the picture scaled to
/// the largest size that keeps its shape and fits into a box no larger than it.
/// That size is a function of the two sizes, and a box of the picture's own size
/// leaves it as it is. The samples are one of the outcomes that are possible for this
/// picture and this box.
#[verifier::external_body]
pub(crate) fn shrink_to_fit(picture: &Picture, width: u32, height: u32) -> (shrunk: Picture)
    requires
        picture@.is_whole(),
        0 < width <= picture.width,
        0 < height <= picture.height,
    ensures
        shrunk@.is_whole(),
        shrunk.layout == picture.layout,
        shrunk@.is_sixteen_bit() == picture@.is_sixteen_bit(),
        (shrunk.width, shrunk.height) == fitted_size(
            picture.width,
            picture.height,
            width,
            height,
        ),
        keeps_shape(
            picture.width,
            picture.height,
            (width, height),
            (shrunk.width, shrunk.height),
        ),
        0 < shrunk.width <= width,
        0 < shrunk.height <= height,
        width == picture.width && height == picture.height ==> shrunk@ == picture@,
        may_shrink(picture@, width, height, true, shrunk@),
{
    plain_picture(outside_picture(picture).resize(width, height, ResizeFilter::Lanczos3))
}

/// `image::DynamicImage::resize_exact` with the Lanczos filter: the picture scaled
/// to this very size, no larger than it. Its own size leaves it as it is. The
/// samples are one of the outcomes that are possible for this picture and this size.
#[verifier::external_body]
pub(crate) fn shrink_exactly(picture: &Picture, width: u32, height: u32) -> (shrunk: Picture)
    requires
        picture@.is_whole(),
        0 < width <= picture.width,
        0 < height <= picture.height,
    ensures
        shrunk@.is_whole(),
        shrunk.layout == picture.layout,
        shrunk@.is_sixteen_bit() == picture@.is_sixteen_bit(),
        shrunk.width == width,
        shrunk.height == height,
        width == picture.width && height == picture.height ==> shrunk@ == picture@,
        may_shrink(picture@, width, height, false, shrunk@),
{
    plain_picture(outside_picture(picture).resize_exact(width, height, ResizeFilter::Lanczos3))
}

/// Whether a file opens as a GIF.
pub uninterp spec fn opened_gif(bytes: Seq<u8>) -> Result<(), Seq<char>>;

/// `image::codecs::gif::GifDecoder::new`: nothing, or the error's text.
#[verifier::external_body]
pub(crate) fn open_gif(bytes: &[u8]) -> (result: Result<(), String>)
    ensures
        outcome(result) == opened_gif(bytes@),
{
    GifDecoder::new(Cursor::new(bytes)).map(|_| ()).map_err(|error| error.to_string())
}

/// Whether a GIF keeps to a memory bound.
pub uninterp spec fn limited_gif(bytes: Seq<u8>, max_alloc: u64) -> Result<(), Seq<char>>;

/// `image::ImageDecoder::set_limits` on the decoder of a GIF: nothing, or the
/// error's text.
#[verifier::external_body]
pub(crate) fn limit_gif(bytes: &[u8], max_alloc: u64) -> (result: Result<(), String>)
    ensures
        outcome(result) == limited_gif(bytes@, max_alloc),
{
    let mut decoder = GifDecoder::new(Cursor::new(bytes)).map_err(|error| error.to_string())?;
    decoder.set_limits(outside_limits(max_alloc)).map_err(|error| error.to_string())
}

/// The first frames of a GIF, no more than `most` of them.
pub uninterp spec fn gif_frames(bytes: Seq<u8>, max_alloc: u64, most: usize) -> Result<
    Seq<FrameValue>,
    Seq<char>,
>;

/// Frames by their values, or why there are none.
pub open spec fn frames_outcome(frames: Result<Vec<AnimationFrame>, String>) -> Result<
    Seq<FrameValue>,
    Seq<char>,
> {
    match frames {
        Ok(frames) => Ok(frame_values(frames@)),
        Err(error) => Err(error@),
    }
}

/// `image::AnimationDecoder::into_frames` on the decoder of a GIF: its first
/// frames, no more than `most` of them, or the first error's text. Each is an
/// 8-bit RGBA picture of the whole canvas, which has the size that the file
/// declares.
#[verifier::external_body]
pub(crate) fn read_gif_frames(bytes: &[u8], max_alloc: u64, most: usize) -> (frames: Result<
    Vec<AnimationFrame>,
    String,
>)
    ensures
        frames_outcome(frames) == gif_frames(bytes@, max_alloc, most),
        match frames {
            Ok(frames) => frames@.len() <= most && are_frames(frame_values(frames@)) && (
            match declared_size(bytes@, ImageKind::Gif) {
                Ok(size) => have_size(frame_values(frames@), size),
                Err(_) => true,
            }),
            Err(_) => true,
        },
{
    let mut decoder = GifDecoder::new(Cursor::new(bytes)).map_err(|error| error.to_string())?;
    decoder.set_limits(outside_limits(max_alloc)).map_err(|error| error.to_string())?;
    let frames = decoder.into_frames().take(most).map(|frame| frame.map(plain_frame));
    frames.collect::<Result<Vec<AnimationFrame>, _>>().map_err(|error| error.to_string())
}

/// Whether the reader of a format takes this size for what it is: there are pixels,
/// and no side of a WebP has 16,384 of them, which its reader takes for none.
pub open spec fn is_read_back(kind: ImageKind, width: u32, height: u32) -> bool {
    &&& 0 < width
    &&& 0 < height
    &&& kind == ImageKind::WebP ==> width < 16_384 && height < 16_384
}

/// Whether a written file that can be read declares this size.
pub open spec fn declares(file: Seq<u8>, kind: ImageKind, width: u32, height: u32) -> bool {
    is_read_back(kind, width, height) ==> match declared_size(file, kind) {
        Ok(size) => size == (width, height),
        Err(_) => true,
    }
}

/// Whether a written animation that can be read has this many frames of this size.
pub open spec fn shows_frames(file: Seq<u8>, frames: Seq<FrameValue>) -> bool {
    &&& frames.len() > 0 ==> declares(
        file,
        ImageKind::Gif,
        frames[0].picture.width,
        frames[0].picture.height,
    )
    &&& forall|max_alloc: u64, most: usize|
        match #[trigger] gif_frames(file, max_alloc, most) {
            Ok(read) => read.len() == if frames.len() < most {
                frames.len()
            } else {
                most as nat
            },
            Err(_) => true,
        }
}

/// Whether a written file that can be read holds exactly this picture.
pub open spec fn holds_picture(file: Seq<u8>, kind: ImageKind, picture: PictureValue) -> bool {
    is_read_back(kind, picture.width, picture.height) ==> forall|max_alloc: u64|
        match #[trigger] decoded_pixels(file, kind, max_alloc) {
            Ok(read) => read == picture,
            Err(_) => true,
        }
}

/// Whether a colour profile that is read from a written file is the one that was
/// written.
pub open spec fn holds_profile(file: Seq<u8>, kind: ImageKind, profile: Option<Seq<u8>>) -> bool {
    forall|max_alloc: u64|
        match #[trigger] stored_profile(file, kind, max_alloc) {
            Some(read) => profile == Some(read),
            None => true,
        }
}

/// An animated GIF that repeats without end.
pub uninterp spec fn gif_animation(frames: Seq<FrameValue>) -> Result<Seq<u8>, Seq<char>>;

/// `image::codecs::gif::GifEncoder::encode_frames` on an encoder set to repeat
/// without end: the file, or the error's text. The file declares the size of the
/// first frame and holds one frame for each. What its pixels are is not said: the
/// encoder selects 256 colours.
#[verifier::external_body]
pub(crate) fn write_gif_frames(frames: &Vec<AnimationFrame>) -> (file: Result<Vec<u8>, String>)
    requires
        are_frames(frame_values(frames@)),
    ensures
        outcome(file) == gif_animation(frame_values(frames@)),
        match file {
            Ok(file) => shows_frames(file@, frame_values(frames@)),
            Err(_) => true,
        },
{
    let mut encoded = Vec::new();
    let mut encoder = GifEncoder::new(&mut encoded);
    encoder.set_repeat(Repeat::Infinite).map_err(|error| error.to_string())?;
    encoder.encode_frames(frames.iter().map(outside_frame)).map_err(|error| error.to_string())?;
    drop(encoder);
    Ok(encoded)
}

/// A PNG file with the best compression and adaptive filters.
pub uninterp spec fn png_file(picture: PictureValue, profile: Option<Seq<u8>>) -> Result<
    Seq<u8>,
    Seq<char>,
>;

/// Optional bytes by their value.
pub open spec fn optional_bytes(bytes: Option<&[u8]>) -> Option<Seq<u8>> {
    match bytes {
        Some(bytes) => Some(bytes@),
        None => None,
    }
}

/// `image::codecs::png::PngEncoder::write_image` with the best compression,
/// adaptive filters and this colour profile, which that encoder never refuses:
/// the file, or the error's text. The format is lossless, so a file that can be
/// read gives back its size, its pixels and its profile. Its chunks are the header,
/// the profile, the image data and the end, so there is nothing to strip.
#[verifier::external_body]
pub(crate) fn write_png(picture: &Picture, profile: Option<&[u8]>) -> (file: Result<Vec<u8>, String>)
    requires
        picture@.is_whole(),
    ensures
        outcome(file) == png_file(picture@, optional_bytes(profile)),
        match file {
            Ok(file) => is_bare_png(file@) && declares(
                file@,
                ImageKind::Png,
                picture.width,
                picture.height,
            ) && holds_picture(file@, ImageKind::Png, picture@) && holds_profile(
                file@,
                ImageKind::Png,
                optional_bytes(profile),
            ),
            Err(_) => true,
        },
{
    let mut encoded = Vec::new();
    let mut encoder =
        PngEncoder::new_with_quality(&mut encoded, CompressionType::Best, FilterType::Adaptive);
    profile.map(|profile| encoder.set_icc_profile(profile.to_vec()));
    let image = outside_picture(picture);
    encoder
        .write_image(image.as_bytes(), picture.width, picture.height, image.color().into())
        .map_err(|error| error.to_string())?;
    Ok(encoded)
}

/// A GIF file with one frame.
pub uninterp spec fn gif_file(rgba: Seq<u8>, width: u32, height: u32) -> Result<
    Seq<u8>,
    Seq<char>,
>;

/// `image::codecs::gif::GifEncoder::encode` on 8-bit RGBA samples: the file, which
/// declares their size, or the error's text.
#[verifier::external_body]
pub(crate) fn write_gif(rgba: &[u8], width: u32, height: u32) -> (file: Result<Vec<u8>, String>)
    requires
        rgba@.len() == width * height * 4,
    ensures
        outcome(file) == gif_file(rgba@, width, height),
        match file {
            Ok(file) => declares(file@, ImageKind::Gif, width, height),
            Err(_) => true,
        },
{
    let mut encoded = Vec::new();
    GifEncoder::new(&mut encoded)
        .encode(rgba, width, height, ExtendedColorType::Rgba8)
        .map_err(|error| error.to_string())?;
    Ok(encoded)
}

/// A BMP file.
pub uninterp spec fn bmp_file(rgba: Seq<u8>, width: u32, height: u32) -> Result<
    Seq<u8>,
    Seq<char>,
>;

/// A picture of 8-bit RGBA samples.
pub open spec fn rgba_picture(rgba: Seq<u8>, width: u32, height: u32) -> PictureValue {
    PictureValue { width, height, layout: Layout::Rgba, samples: SamplesValue::Eight(rgba) }
}

/// `image::codecs::bmp::BmpEncoder::encode` on 8-bit RGBA samples: the file, which
/// declares their size and gives them back as they are, or the error's text.
#[verifier::external_body]
pub(crate) fn write_bmp(rgba: &[u8], width: u32, height: u32) -> (file: Result<Vec<u8>, String>)
    requires
        rgba@.len() == width * height * 4,
    ensures
        outcome(file) == bmp_file(rgba@, width, height),
        match file {
            Ok(file) => declares(file@, ImageKind::Bmp, width, height) && holds_picture(
                file@,
                ImageKind::Bmp,
                rgba_picture(rgba@, width, height),
            ),
            Err(_) => true,
        },
{
    let mut encoded = Vec::new();
    BmpEncoder::new(&mut encoded)
        .encode(rgba, width, height, ExtendedColorType::Rgba8)
        .map_err(|error| error.to_string())?;
    Ok(encoded)
}

/// A lossless WebP file.
pub uninterp spec fn webp_file(
    rgba: Seq<u8>,
    width: u32,
    height: u32,
    profile: Option<Seq<u8>>,
) -> Result<Seq<u8>, Seq<char>>;

/// `image::codecs::webp::WebPEncoder::write_image`, lossless, on 8-bit RGBA samples
/// and with this colour profile, which that encoder never refuses: the file, which
/// declares their size, or the error's text. A file within the 32-bit sizes of the
/// format gives back the samples and the profile as they are.
#[verifier::external_body]
pub(crate) fn write_webp(
    rgba: &[u8],
    width: u32,
    height: u32,
    profile: Option<&[u8]>,
) -> (file: Result<Vec<u8>, String>)
    requires
        rgba@.len() == width * height * 4,
    ensures
        outcome(file) == webp_file(rgba@, width, height, optional_bytes(profile)),
        match file {
            Ok(file) => declares(file@, ImageKind::WebP, width, height) && (file@.len()
                <= u32::MAX ==> holds_picture(
                file@,
                ImageKind::WebP,
                rgba_picture(rgba@, width, height),
            ) && holds_profile(file@, ImageKind::WebP, optional_bytes(profile))),
            Err(_) => true,
        },
{
    let mut encoded = Vec::new();
    let mut encoder = WebPEncoder::new_lossless(&mut encoded);
    profile.map(|profile| encoder.set_icc_profile(profile.to_vec()));
    encoder
        .write_image(rgba, width, height, ExtendedColorType::Rgba8)
        .map_err(|error| error.to_string())?;
    Ok(encoded)
}

/// The most bytes of colour profile that a JPEG takes: 254 segments of 65,519.
pub const MAX_JPEG_PROFILE_BYTES: usize = 16_641_826;

/// Whether a JPEG has room for a colour profile.
pub open spec fn accepted_profile(profile: Seq<u8>) -> Result<(), Seq<char>> {
    if profile.len() <= MAX_JPEG_PROFILE_BYTES {
        Ok(())
    } else {
        Err("ICC profile exceeds maximum allowed data length: "@ + decimal(profile.len()))
    }
}

/// `jpeg_encoder::Encoder::add_icc_profile`: nothing, or the error's text where
/// the profile takes more than 254 segments.
#[verifier::external_body]
pub(crate) fn accept_profile(profile: &[u8]) -> (result: Result<(), String>)
    ensures
        outcome(result) == accepted_profile(profile@),
{
    let mut encoded = Vec::new();
    Encoder::new(&mut encoded, 1).add_icc_profile(profile).map_err(|error| error.to_string())
}

/// A JPEG file.
pub uninterp spec fn jpeg_file(
    pixels: Seq<u8>,
    width: u16,
    height: u16,
    color: JpegColor,
    quality: u8,
    profile: Option<Seq<u8>>,
) -> Result<Seq<u8>, Seq<char>>;

/// `jpeg_encoder::Encoder::encode` at a quality, with a colour profile that it
/// has room for: the file, which declares the size, or the error's text. Besides
/// tables, headers and the scan it writes the JFIF segment and the profile's
/// segments alone, so there is nothing to strip, and a profile that is read again is
/// the one that was written. The pixels are lossy.
#[verifier::external_body]
pub(crate) fn write_jpeg(
    pixels: &[u8],
    width: u16,
    height: u16,
    color: JpegColor,
    quality: u8,
    profile: Option<&[u8]>,
) -> (file: Result<Vec<u8>, String>)
    requires
        pixels@.len() == width * height * color.channels(),
    ensures
        outcome(file) == jpeg_file(pixels@, width, height, color, quality, optional_bytes(profile)),
        match file {
            Ok(file) => is_bare_jpeg(file@) && declares(
                file@,
                ImageKind::Jpeg,
                width as u32,
                height as u32,
            ) && holds_profile(file@, ImageKind::Jpeg, optional_bytes(profile)),
            Err(_) => true,
        },
{
    let mut encoded = Vec::new();
    let mut encoder = Encoder::new(&mut encoded, quality);
    profile.map(|profile| encoder.add_icc_profile(profile));
    let color = match color {
        JpegColor::Gray => ColorType::Luma,
        JpegColor::Rgb => ColorType::Rgb,
    };
    encoder.encode(pixels, width, height, color).map_err(|error| error.to_string())?;
    Ok(encoded)
}

/// The pixels of a JPEG in one of two colour spaces, and its size.
pub uninterp spec fn jpeg_pixels(bytes: Seq<u8>, color: JpegColor) -> Option<(Seq<u8>, u16, u16)>;

/// Decoded pixels by their value.
pub open spec fn pixels_value(decoded: Option<(Vec<u8>, u16, u16)>) -> Option<
    (Seq<u8>, u16, u16),
> {
    match decoded {
        Some((pixels, width, height)) => Some((pixels@, width, height)),
        None => None,
    }
}

/// `zune_jpeg::JpegDecoder::decode` and `info`: the pixels of a JPEG in this
/// colour space, and its width and height, or `None` where it does not decode. The
/// vectorised and the plain code of that decoder give the same bits: both transforms
/// wrap. Coefficients are scaled in front of them by a plain product, which wraps in a
/// release build, and this is said of such a build.
#[verifier::external_body]
pub(crate) fn decode_jpeg(bytes: &[u8], color: JpegColor) -> (decoded: Option<(Vec<u8>, u16, u16)>)
    ensures
        pixels_value(decoded) == jpeg_pixels(bytes@, color),
{
    let space = match color {
        JpegColor::Gray => ColorSpace::Luma,
        JpegColor::Rgb => ColorSpace::RGB,
    };
    let options = DecoderOptions::default().jpeg_set_out_colorspace(space);
    let mut decoder = JpegDecoder::new_with_options(ZCursor::new(bytes), options);
    let pixels = decoder.decode().ok()?;
    decoder.info().map(|info| (pixels, info.width, info.height))
}

} // verus!
