//! Pictures as plain values: a size, a channel layout and the samples.

use vstd::prelude::*;

verus! {

/// The largest number of pixels that is decoded.
pub const MAX_DECODED_PIXELS: u64 = 64_000_000;

/// The most memory that a decoder may use: eight bytes for each pixel.
pub const MAX_DECODER_BYTES: u64 = 512_000_000;

/// The image formats that are read and written.
#[derive(Clone, Copy, Debug, PartialEq, Eq, Structural)]
pub enum ImageKind {
    Jpeg,
    Png,
    Gif,
    Bmp,
    WebP,
}

/// The channels of each pixel.
#[derive(Clone, Copy, Debug, PartialEq, Eq, Structural)]
pub enum Layout {
    Luma,
    LumaAlpha,
    Rgb,
    Rgba,
}

impl Layout {
    /// How many samples a pixel has.
    pub open spec fn channels(self) -> nat {
        match self {
            Layout::Luma => 1,
            Layout::LumaAlpha => 2,
            Layout::Rgb => 3,
            Layout::Rgba => 4,
        }
    }
}

/// The samples of a picture, row by row, in the order of its layout.
pub enum Samples {
    Eight(Vec<u8>),
    Sixteen(Vec<u16>),
}

/// A decoded picture.
pub struct Picture {
    pub width: u32,
    pub height: u32,
    pub layout: Layout,
    pub samples: Samples,
}

/// The samples of a picture.
pub enum SamplesValue {
    Eight(Seq<u8>),
    Sixteen(Seq<u16>),
}

/// The value of a picture.
pub struct PictureValue {
    pub width: u32,
    pub height: u32,
    pub layout: Layout,
    pub samples: SamplesValue,
}

impl View for Samples {
    type V = SamplesValue;

    open spec fn view(&self) -> SamplesValue {
        match self {
            Samples::Eight(samples) => SamplesValue::Eight(samples@),
            Samples::Sixteen(samples) => SamplesValue::Sixteen(samples@),
        }
    }
}

impl View for Picture {
    type V = PictureValue;

    open spec fn view(&self) -> PictureValue {
        PictureValue {
            width: self.width,
            height: self.height,
            layout: self.layout,
            samples: self.samples@,
        }
    }
}

impl SamplesValue {
    /// How many samples there are.
    pub open spec fn len(self) -> nat {
        match self {
            SamplesValue::Eight(samples) => samples.len(),
            SamplesValue::Sixteen(samples) => samples.len(),
        }
    }
}

impl PictureValue {
    /// How many pixels there are.
    pub open spec fn pixels(self) -> nat {
        (self.width * self.height) as nat
    }

    /// Whether there is a sample for each channel of each pixel.
    pub open spec fn is_whole(self) -> bool {
        self.samples.len() == self.pixels() * self.layout.channels()
    }

    /// Whether the samples carry more precision than an 8-bit format can hold.
    pub open spec fn is_sixteen_bit(self) -> bool {
        self.samples is Sixteen
    }
}

impl Picture {
    /// Whether the samples carry more precision than an 8-bit format can hold.
    pub fn is_sixteen_bit(&self) -> (deep: bool)
        ensures
            deep == self@.is_sixteen_bit(),
    {
        match &self.samples {
            Samples::Eight(_) => false,
            Samples::Sixteen(_) => true,
        }
    }
}

/// A sample as 8 bits: of 16 bits, the nearest step.
pub open spec fn eight_bits(samples: SamplesValue, at: int) -> u8 {
    match samples {
        SamplesValue::Eight(samples) => samples[at],
        SamplesValue::Sixteen(samples) => ((samples[at] + 128) / 257) as u8,
    }
}

/// One of the channels red, green, blue and alpha of a pixel, in 8 bits. Grey is the
/// same in all three colours, and a pixel without alpha is opaque.
pub open spec fn rgba_channel(picture: PictureValue, pixel: int, channel: int) -> u8 {
    match picture.layout {
        Layout::Luma => if channel == 3 {
            255
        } else {
            eight_bits(picture.samples, pixel)
        },
        Layout::LumaAlpha => if channel == 3 {
            eight_bits(picture.samples, pixel * 2 + 1)
        } else {
            eight_bits(picture.samples, pixel * 2)
        },
        Layout::Rgb => if channel == 3 {
            255
        } else {
            eight_bits(picture.samples, pixel * 3 + channel)
        },
        Layout::Rgba => eight_bits(picture.samples, pixel * 4 + channel),
    }
}

/// The 8-bit RGBA samples of a picture.
pub open spec fn rgba8(picture: PictureValue) -> Seq<u8> {
    Seq::new(picture.pixels() * 4, |i: int| rgba_channel(picture, i / 4, i % 4))
}

/// The 8-bit RGB samples of a picture.
pub open spec fn rgb8(picture: PictureValue) -> Seq<u8> {
    Seq::new(picture.pixels() * 3, |i: int| rgba_channel(picture, i / 3, i % 3))
}

/// Where a pixel of a turned picture stood before: EXIF orientations 2 to 4 mirror
/// and turn by half, 5 and 7 mirror along a diagonal, 6 turns clockwise and 8
/// counterclockwise by a quarter.
pub open spec fn turned_from(width: int, height: int, orientation: u8, x: int, y: int) -> (
    int,
    int,
) {
    if orientation == 2 {
        (width - 1 - x, y)
    } else if orientation == 3 {
        (width - 1 - x, height - 1 - y)
    } else if orientation == 4 {
        (x, height - 1 - y)
    } else if orientation == 5 {
        (y, x)
    } else if orientation == 6 {
        (y, height - 1 - x)
    } else if orientation == 7 {
        (width - 1 - y, height - 1 - x)
    } else if orientation == 8 {
        (width - 1 - y, x)
    } else {
        (x, y)
    }
}

/// The samples of a turned picture: each pixel keeps its channels.
pub open spec fn turned_samples<T>(
    samples: Seq<T>,
    width: int,
    height: int,
    channels: int,
    orientation: u8,
) -> Seq<T> {
    let row = if orientation <= 4 {
        width
    } else {
        height
    };
    Seq::new(
        samples.len(),
        |i: int|
            {
                let (x, y) = turned_from(
                    width,
                    height,
                    orientation,
                    i / channels % row,
                    i / channels / row,
                );
                samples[(y * width + x) * channels + i % channels]
            },
    )
}

/// A picture turned as an EXIF orientation says. The four orientations that lie on
/// their side swap width and height.
pub open spec fn oriented(picture: PictureValue, orientation: u8) -> PictureValue {
    let (width, height) = (picture.width as int, picture.height as int);
    let channels = picture.layout.channels() as int;
    PictureValue {
        width: if orientation <= 4 {
            picture.width
        } else {
            picture.height
        },
        height: if orientation <= 4 {
            picture.height
        } else {
            picture.width
        },
        layout: picture.layout,
        samples: match picture.samples {
            SamplesValue::Eight(samples) => SamplesValue::Eight(
                turned_samples(samples, width, height, channels, orientation),
            ),
            SamplesValue::Sixteen(samples) => SamplesValue::Sixteen(
                turned_samples(samples, width, height, channels, orientation),
            ),
        },
    }
}

/// A turned picture is whole, and has the layout and the bit depth that it had.
pub proof fn turning_keeps_a_picture_whole(picture: PictureValue, orientation: u8)
    requires
        picture.is_whole(),
    ensures
        oriented(picture, orientation).is_whole(),
        oriented(picture, orientation).pixels() == picture.pixels(),
        oriented(picture, orientation).layout == picture.layout,
        oriented(picture, orientation).is_sixteen_bit() == picture.is_sixteen_bit(),
{
    assert(picture.width * picture.height == picture.height * picture.width) by (nonlinear_arith);
}

proof fn lemma_place(i: int, width: int, channels: int)
    requires
        0 <= i,
        0 < width,
        0 < channels,
    ensures
        (i / channels / width * width + i / channels % width) * channels + i % channels == i,
{
    vstd::arithmetic::div_mod::lemma_fundamental_div_mod(i, channels);
    vstd::arithmetic::div_mod::lemma_fundamental_div_mod(i / channels, width);
    let pixel = i / channels;
    assert(pixel / width * width + pixel % width == pixel) by (nonlinear_arith)
        requires
            pixel == width * (pixel / width) + pixel % width,
    ;
    assert(pixel * channels + i % channels == i) by (nonlinear_arith)
        requires
            i == channels * pixel + i % channels,
    ;
}

proof fn lemma_unturned<T>(samples: Seq<T>, width: int, height: int, channels: int)
    requires
        0 <= width,
        0 <= height,
        0 < channels,
        samples.len() == width * height * channels,
    ensures
        turned_samples(samples, width, height, channels, 1) == samples,
{
    let turned = turned_samples(samples, width, height, channels, 1);
    assert forall|i: int| 0 <= i < samples.len() implies #[trigger] turned[i] == samples[i] by {
        assert(width > 0) by (nonlinear_arith)
            requires
                0 <= i < width * height * channels,
                0 <= width,
                0 <= height,
                0 < channels,
        ;
        lemma_place(i, width, channels);
    }
    assert(turned =~= samples);
}

/// The first orientation leaves a picture as it is.
pub proof fn upright_picture_is_left_alone(picture: PictureValue)
    requires
        picture.is_whole(),
    ensures
        oriented(picture, 1) == picture,
{
    let (width, height) = (picture.width as int, picture.height as int);
    let channels = picture.layout.channels() as int;
    assert(0 <= width * height) by (nonlinear_arith)
        requires
            0 <= width,
            0 <= height,
    ;
    match picture.samples {
        SamplesValue::Eight(samples) => {
            lemma_unturned(samples, width, height, channels);
        },
        SamplesValue::Sixteen(samples) => {
            lemma_unturned(samples, width, height, channels);
        },
    }
}

/// One frame of an animation, composited on the canvas, and how long it is shown:
/// a number of milliseconds as a fraction.
pub struct AnimationFrame {
    pub picture: Picture,
    pub delay: (u32, u32),
}

/// The value of a frame.
pub struct FrameValue {
    pub picture: PictureValue,
    pub delay: (u32, u32),
}

impl View for AnimationFrame {
    type V = FrameValue;

    open spec fn view(&self) -> FrameValue {
        FrameValue { picture: self.picture@, delay: self.delay }
    }
}

/// Frames by their values.
pub open spec fn frame_values(frames: Seq<AnimationFrame>) -> Seq<FrameValue> {
    frames.map_values(|frame: AnimationFrame| frame@)
}

/// Whether a frame is a whole 8-bit RGBA picture that is shown for a time.
pub open spec fn is_frame(frame: FrameValue) -> bool {
    frame.picture.is_whole() && frame.picture.layout is Rgba && frame.picture.samples is Eight
        && frame.delay.1 > 0
}

/// Whether each of these is a whole 8-bit RGBA picture that is shown for a time.
pub open spec fn are_frames(frames: Seq<FrameValue>) -> bool {
    forall|i: int| 0 <= i < frames.len() ==> is_frame(#[trigger] frames[i])
}

/// Whether a picture has this width and height.
pub open spec fn has_size(picture: PictureValue, size: (u32, u32)) -> bool {
    picture.width == size.0 && picture.height == size.1
}

/// Whether each frame has this width and height.
pub open spec fn have_size(frames: Seq<FrameValue>, size: (u32, u32)) -> bool {
    forall|i: int| 0 <= i < frames.len() ==> has_size((#[trigger] frames[i]).picture, size)
}

/// How a JPEG stores its pixels.
#[derive(Clone, Copy, Debug, PartialEq, Eq, Structural)]
pub enum JpegColor {
    Gray,
    Rgb,
}

impl JpegColor {
    /// How many bytes a pixel has.
    pub open spec fn channels(self) -> nat {
        match self {
            JpegColor::Gray => 1,
            JpegColor::Rgb => 3,
        }
    }
}

} // verus!
