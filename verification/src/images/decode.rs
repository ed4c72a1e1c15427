//! Reading an image together with everything that a transform has to carry
//! across.

use vstd::prelude::*;

use crate::bytes::{be32, has_at, le32, occurs_at, read_be32, read_le32, utf8};
use crate::images::model::{
    are_frames, frame_values, have_size, oriented, turning_keeps_a_picture_whole, AnimationFrame,
    FrameValue, ImageKind, Picture, PictureValue, MAX_DECODED_PIXELS, MAX_DECODER_BYTES,
};
use crate::images::outside::{
    apply_orientation, decode_pixels, declared_size, decoded_pixels, frames_outcome, gif_frames,
    guess_kind, guessed_kind, kind_outcome, limit_gif, limited_gif, open_decoder, open_gif, opened,
    opened_gif, read_gif_frames, read_orientation, read_profile, read_size, size_outcome,
    stored_orientation, stored_profile,
};
use crate::text::{joined, outcome};

verus! {

/// A guard on animated input: frames are decoded fully, so the whole animation
/// has to fit the same pixel budget as a still image.
pub const MAX_ANIMATION_FRAMES: usize = 1_024;

/// Everything read from a file that a transform has to carry across, beside the
/// pixels themselves.
pub struct SourceImage {
    pub kind: ImageKind,
    pub picture: Picture,
    pub profile: Option<Vec<u8>>,
    /// The EXIF number of the orientation that the picture was turned by.
    pub orientation: u8,
    /// Every decoded frame, present only for animations that can be rebuilt.
    pub frames: Option<Vec<AnimationFrame>>,
    /// Whether the file holds more than one frame, whether or not the animation
    /// can be rebuilt.
    pub animated: bool,
}

/// The value of a source image.
pub struct SourceValue {
    pub kind: ImageKind,
    pub picture: PictureValue,
    pub profile: Option<Seq<u8>>,
    pub orientation: u8,
    pub frames: Option<Seq<FrameValue>>,
    pub animated: bool,
}

impl View for SourceImage {
    type V = SourceValue;

    open spec fn view(&self) -> SourceValue {
        SourceValue {
            kind: self.kind,
            picture: self.picture@,
            profile: match self.profile {
                Some(profile) => Some(profile@),
                None => None,
            },
            orientation: self.orientation,
            frames: match self.frames {
                Some(frames) => Some(frame_values(frames@)),
                None => None,
            },
            animated: self.animated,
        }
    }
}

impl SourceValue {
    /// The size of the canvas before it was turned.
    pub open spec fn canvas(self) -> (u32, u32) {
        if self.orientation <= 4 {
            (self.picture.width, self.picture.height)
        } else {
            (self.picture.height, self.picture.width)
        }
    }

    /// Whether the parts of a source fit together: a picture with pixels, a known
    /// orientation, and frames that span the canvas.
    pub open spec fn is_sound(self) -> bool {
        &&& self.picture.is_whole()
        &&& self.picture.width > 0
        &&& self.picture.height > 0
        &&& 1 <= self.orientation <= 8
        &&& match self.frames {
            Some(frames) => are_frames(frames) && have_size(frames, self.canvas()),
            None => true,
        }
    }
}

/// The format of a file, when it is one that is handled.
pub open spec fn accepted_kind(guess: Result<Option<ImageKind>, Seq<char>>) -> Result<
    ImageKind,
    Seq<char>,
> {
    match guess {
        Err(error) => Err("Could not determine this image's format: "@ + error),
        Ok(None) => Err("This image format is unsupported; use JPEG, PNG, GIF, BMP, or WebP."@),
        Ok(Some(kind)) => Ok(kind),
    }
}

/// The format that a guess gives, when it is one that is handled.
pub fn accept_kind(guess: Result<Option<ImageKind>, String>) -> (kind: Result<ImageKind, String>)
    ensures
        match kind {
            Ok(kind) => accepted_kind(kind_outcome(guess)) == Ok::<ImageKind, Seq<char>>(kind),
            Err(error) => accepted_kind(kind_outcome(guess)) == Err::<ImageKind, Seq<char>>(
                error@,
            ),
        },
{
    match guess {
        Err(error) => Err(joined("Could not determine this image's format: ", error.as_str())),
        Ok(None) => Err(
            "This image format is unsupported; use JPEG, PNG, GIF, BMP, or WebP.".to_owned(),
        ),
        Ok(Some(kind)) => Ok(kind),
    }
}

/// Whether a picture of this size may be decoded.
pub open spec fn guarded_size(width: u32, height: u32) -> Result<(), Seq<char>> {
    if width == 0 || height == 0 {
        Err("This image has invalid zero-sized dimensions."@)
    } else if width * height > MAX_DECODED_PIXELS {
        Err("This image is too large to decode (maximum 64000000 pixels)."@)
    } else {
        Ok(())
    }
}

/// Refuse a picture without pixels, and one with more than are decoded.
pub fn guard_decoded_dimensions(width: u32, height: u32) -> (result: Result<(), String>)
    ensures
        outcome(result) == guarded_size(width, height),
{
    if width == 0 || height == 0 {
        return Err("This image has invalid zero-sized dimensions.".to_owned());
    }
    assert(width * height <= u32::MAX * u32::MAX) by (nonlinear_arith)
        requires
            width <= u32::MAX,
            height <= u32::MAX,
    ;
    if width as u64 * height as u64 > MAX_DECODED_PIXELS {
        return Err("This image is too large to decode (maximum 64000000 pixels).".to_owned());
    }
    Ok(())
}

/// The size that a file declares, when it may be decoded.
pub open spec fn checked_size(size: Result<(u32, u32), Seq<char>>) -> Result<
    (u32, u32),
    Seq<char>,
> {
    match size {
        Err(error) => Err("Could not read this image's dimensions: "@ + error),
        Ok((width, height)) => match guarded_size(width, height) {
            Err(error) => Err(error),
            Ok(()) => Ok((width, height)),
        },
    }
}

/// The size that a file declares, when it may be decoded.
pub fn check_size(size: Result<(u32, u32), String>) -> (checked: Result<(u32, u32), String>)
    ensures
        size_outcome(checked) == checked_size(size_outcome(size)),
{
    match size {
        Err(error) => Err(joined("Could not read this image's dimensions: ", error.as_str())),
        Ok((width, height)) => match guard_decoded_dimensions(width, height) {
            Err(error) => Err(error),
            Ok(()) => Ok((width, height)),
        },
    }
}

/// Whether the chunks from `at` on declare an animation before the image data.
pub open spec fn animation_declared_from(bytes: Seq<u8>, at: int) -> bool
    decreases bytes.len() - at,
{
    if at < 0 || at + 8 > bytes.len() {
        false
    } else if occurs_at(bytes, utf8("acTL"@), at + 4) {
        true
    } else if occurs_at(bytes, utf8("IDAT"@), at + 4) || occurs_at(
        bytes,
        utf8("IEND"@),
        at + 4,
    ) || at + 12 + be32(bytes, at) > bytes.len() {
        false
    } else {
        animation_declared_from(bytes, at + 12 + be32(bytes, at))
    }
}

/// Whether a PNG declares an animation control chunk, which makes it an APNG
/// whose extra frames a still decode would silently drop.
pub open spec fn declares_animation(bytes: Seq<u8>) -> bool {
    animation_declared_from(bytes, 8)
}

/// Whether a PNG declares an animation control chunk.
pub fn png_is_animated(bytes: &[u8]) -> (animated: bool)
    ensures
        animated == declares_animation(bytes@),
{
    let mut position: usize = 8;
    while position <= bytes.len() && bytes.len() - position >= 8
        invariant
            declares_animation(bytes@) == animation_declared_from(bytes@, position as int),
        decreases bytes.len() + 1 - position,
    {
        assert(position + 8 <= bytes@.len());
        let length: u32 = read_be32(bytes, position);
        if has_at(bytes, "acTL".as_bytes(), position + 4) {
            return true;
        }
        if has_at(bytes, "IDAT".as_bytes(), position + 4) || has_at(
            bytes,
            "IEND".as_bytes(),
            position + 4,
        ) {
            return false;
        }
        if length as usize > bytes.len() - position {
            return false;
        }
        let rest: usize = bytes.len() - position - length as usize;
        if rest < 12 {
            return false;
        }
        position = position + length as usize + 12;
    }
    false
}

/// How many animation frames the chunks of a WebP file from `at` on hold. A chunk
/// of odd length is padded.
pub open spec fn webp_frames_from(bytes: Seq<u8>, at: int) -> nat
    decreases bytes.len() - at,
{
    if at < 0 || at + 8 > bytes.len() {
        0
    } else {
        let length = le32(bytes, at + 4);
        let end = at + 8 + length + length % 2;
        let rest = if end > bytes.len() {
            0
        } else {
            webp_frames_from(bytes, end)
        };
        if occurs_at(bytes, utf8("ANMF"@), at) {
            rest + 1
        } else {
            rest
        }
    }
}

/// Whether a WebP file says that it is animated and holds more than one frame, of
/// which a still decode would silently drop all but the first.
pub open spec fn declares_webp_animation(bytes: Seq<u8>) -> bool {
    &&& occurs_at(bytes, utf8("RIFF"@), 0)
    &&& occurs_at(bytes, utf8("WEBPVP8X"@), 8)
    &&& bytes.len() > 20
    &&& (bytes[20] / 2) % 2 == 1
    &&& webp_frames_from(bytes, 12) > 1
}

/// Whether a WebP file says that it is animated and holds more than one frame.
pub fn webp_is_animated(bytes: &[u8]) -> (animated: bool)
    ensures
        animated == declares_webp_animation(bytes@),
{
    if !has_at(bytes, "RIFF".as_bytes(), 0) || !has_at(bytes, "WEBPVP8X".as_bytes(), 8) {
        return false;
    }
    if bytes.len() <= 20 || (bytes[20] / 2) % 2 != 1 {
        return false;
    }
    let mut position: usize = 12;
    let mut frames: u64 = 0;
    while position <= bytes.len() && bytes.len() - position >= 8
        invariant
            frames <= 1,
            webp_frames_from(bytes@, 12) == frames + webp_frames_from(bytes@, position as int),
            occurs_at(bytes@, utf8("RIFF"@), 0),
            occurs_at(bytes@, utf8("WEBPVP8X"@), 8),
            bytes.len() > 20,
            (bytes@[20] / 2) % 2 == 1,
        decreases bytes.len() + 1 - position,
    {
        assert(position + 8 <= bytes@.len());
        let length: u32 = read_le32(bytes, position + 4);
        let padded: u64 = length as u64 + length as u64 % 2;
        if has_at(bytes, "ANMF".as_bytes(), position) {
            frames += 1;
            if frames > 1 {
                return true;
            }
        }
        if padded > (bytes.len() - position - 8) as u64 {
            return false;
        }
        position = position + 8 + padded as usize;
    }
    false
}

/// How many frames of this size may be decoded.
pub open spec fn frame_limit(width: u32, height: u32) -> nat {
    let pixels = if width * height == 0 {
        1
    } else {
        width * height
    };
    let budget = MAX_DECODED_PIXELS as int / pixels;
    if budget < 1 {
        1
    } else if budget > MAX_ANIMATION_FRAMES {
        MAX_ANIMATION_FRAMES as nat
    } else {
        budget as nat
    }
}

fn most_frames(width: u32, height: u32) -> (most: usize)
    ensures
        most == frame_limit(width, height),
        most <= MAX_ANIMATION_FRAMES,
{
    assert(0 <= width * height <= u32::MAX * u32::MAX) by (nonlinear_arith)
        requires
            0 <= width <= u32::MAX,
            0 <= height <= u32::MAX,
    ;
    let product: u64 = width as u64 * height as u64;
    let pixels: u64 = if product == 0 {
        1
    } else {
        product
    };
    let budget: u64 = MAX_DECODED_PIXELS / pixels;
    if budget < 1 {
        1
    } else if budget > MAX_ANIMATION_FRAMES as u64 {
        MAX_ANIMATION_FRAMES
    } else {
        budget as usize
    }
}

/// The frames that were read, when there are not too many of them.
pub open spec fn accepted_frames(
    frames: Result<Seq<FrameValue>, Seq<char>>,
    most: nat,
) -> Result<Seq<FrameValue>, Seq<char>> {
    match frames {
        Err(error) => Err("Could not decode a GIF frame: "@ + error),
        Ok(frames) => if frames.len() > most {
            Err("This animation has too many frames to process safely."@)
        } else {
            Ok(frames)
        },
    }
}

/// The frames of a GIF, bounded by the same pixel budget a still image gets.
pub open spec fn animation_frames(bytes: Seq<u8>, width: u32, height: u32) -> Result<
    Seq<FrameValue>,
    Seq<char>,
> {
    let most = frame_limit(width, height);
    match opened_gif(bytes) {
        Err(error) => Err("Could not read this GIF: "@ + error),
        Ok(()) => match limited_gif(bytes, MAX_DECODER_BYTES) {
            Err(error) => Err("Could not read this GIF safely: "@ + error),
            Ok(()) => accepted_frames(
                gif_frames(bytes, MAX_DECODER_BYTES, (most + 1) as usize),
                most,
            ),
        },
    }
}

/// The frames that were read, when there are not too many of them.
pub fn accept_frames(frames: Result<Vec<AnimationFrame>, String>, most: usize) -> (accepted: Result<
    Vec<AnimationFrame>,
    String,
>)
    ensures
        frames_outcome(accepted) == accepted_frames(frames_outcome(frames), most as nat),
{
    match frames {
        Err(error) => Err(joined("Could not decode a GIF frame: ", error.as_str())),
        Ok(frames) => {
            if frames.len() > most {
                Err("This animation has too many frames to process safely.".to_owned())
            } else {
                Ok(frames)
            }
        },
    }
}

/// Decode every frame of an animated GIF, bounded by the same pixel budget a
/// still image gets.
pub fn decode_gif_frames(bytes: &[u8], width: u32, height: u32) -> (frames: Result<
    Vec<AnimationFrame>,
    String,
>)
    ensures
        frames_outcome(frames) == animation_frames(bytes@, width, height),
        match frames {
            Ok(frames) => are_frames(frame_values(frames@)) && (match declared_size(
                bytes@,
                ImageKind::Gif,
            ) {
                Ok(size) => have_size(frame_values(frames@), size),
                Err(_) => true,
            }),
            Err(_) => true,
        },
{
    match open_gif(bytes) {
        Err(error) => {
            return Err(joined("Could not read this GIF: ", error.as_str()));
        },
        Ok(()) => {},
    }
    match limit_gif(bytes, MAX_DECODER_BYTES) {
        Err(error) => {
            return Err(joined("Could not read this GIF safely: ", error.as_str()));
        },
        Ok(()) => {},
    }
    let most: usize = most_frames(width, height);
    accept_frames(read_gif_frames(bytes, MAX_DECODER_BYTES, most + 1), most)
}

/// A profile that holds something.
pub open spec fn nonempty_profile(profile: Option<Seq<u8>>) -> Option<Seq<u8>> {
    match profile {
        Some(profile) => if profile.len() == 0 {
            None
        } else {
            Some(profile)
        },
        None => None,
    }
}

/// An orientation, or the first one where none could be read.
pub open spec fn orientation_or_upright(orientation: Option<u8>) -> u8 {
    match orientation {
        Some(number) => number,
        None => 1,
    }
}

/// The pixels of a file, once they were decoded: a second guard on their size.
pub open spec fn checked_pixels(picture: Result<PictureValue, Seq<char>>) -> Result<
    PictureValue,
    Seq<char>,
> {
    match picture {
        Err(error) => Err("Could not decode this image: "@ + error),
        Ok(picture) => match guarded_size(picture.width, picture.height) {
            Err(error) => Err(error),
            Ok(()) => Ok(picture),
        },
    }
}

/// The pixels of a file, once they were decoded.
pub fn check_pixels(picture: Result<Picture, String>) -> (checked: Result<Picture, String>)
    ensures
        outcome(checked) == checked_pixels(outcome(picture)),
{
    match picture {
        Err(error) => Err(joined("Could not decode this image: ", error.as_str())),
        Ok(picture) => match guard_decoded_dimensions(picture.width, picture.height) {
            Err(error) => Err(error),
            Ok(()) => Ok(picture),
        },
    }
}

/// A source put together from its parts: the picture turned upright, and the
/// frames when there is more than one.
pub open spec fn source_from_parts(
    bytes: Seq<u8>,
    kind: ImageKind,
    picture: PictureValue,
    profile: Option<Seq<u8>>,
    orientation: u8,
    frames: Seq<FrameValue>,
) -> SourceValue {
    let kept = if frames.len() > 1 {
        Some(frames)
    } else {
        None
    };
    SourceValue {
        kind,
        picture: oriented(picture, orientation),
        profile: nonempty_profile(profile),
        orientation,
        frames: kept,
        animated: kept is Some || (kind == ImageKind::Png && declares_animation(bytes)) || (kind
            == ImageKind::WebP && declares_webp_animation(bytes)),
    }
}

/// Everything that a transform carries across, or why the file cannot be read.
/// The size is inspected before the pixels are decoded.
pub open spec fn decoded_source(bytes: Seq<u8>) -> Result<SourceValue, Seq<char>> {
    match accepted_kind(guessed_kind(bytes)) {
        Err(error) => Err(error),
        Ok(kind) => match checked_size(declared_size(bytes, kind)) {
            Err(error) => Err(error),
            Ok((width, height)) => match opened(bytes, kind, MAX_DECODER_BYTES) {
                Err(error) => Err("Could not read this image: "@ + error),
                Ok(()) => match checked_pixels(decoded_pixels(bytes, kind, MAX_DECODER_BYTES)) {
                    Err(error) => Err(error),
                    Ok(picture) => {
                        let profile = stored_profile(bytes, kind, MAX_DECODER_BYTES);
                        let orientation = orientation_or_upright(
                            stored_orientation(bytes, kind, MAX_DECODER_BYTES),
                        );
                        if kind == ImageKind::Gif {
                            match animation_frames(bytes, width, height) {
                                Err(error) => Err(error),
                                Ok(frames) => Ok(
                                    source_from_parts(
                                        bytes,
                                        kind,
                                        picture,
                                        profile,
                                        orientation,
                                        frames,
                                    ),
                                ),
                            }
                        } else {
                            Ok(
                                source_from_parts(
                                    bytes,
                                    kind,
                                    picture,
                                    profile,
                                    orientation,
                                    Seq::empty(),
                                ),
                            )
                        }
                    },
                },
            },
        },
    }
}

fn join_parts(
    bytes: &[u8],
    kind: ImageKind,
    picture: &Picture,
    profile: Option<Vec<u8>>,
    orientation: u8,
    frames: Vec<AnimationFrame>,
) -> (source: SourceImage)
    requires
        picture@.is_whole(),
        picture.width > 0,
        picture.height > 0,
        1 <= orientation <= 8,
        are_frames(frame_values(frames@)),
        have_size(frame_values(frames@), (picture.width, picture.height)),
    ensures
        source@ == source_from_parts(
            bytes@,
            kind,
            picture@,
            match profile {
                Some(profile) => Some(profile@),
                None => None,
            },
            orientation,
            frame_values(frames@),
        ),
        source@.is_sound(),
{
    let turned = apply_orientation(picture, orientation);
    proof {
        turning_keeps_a_picture_whole(picture@, orientation);
    }
    let profile = match profile {
        Some(profile) => if profile.len() == 0 {
            None
        } else {
            Some(profile)
        },
        None => None,
    };
    let frames = if frames.len() > 1 {
        Some(frames)
    } else {
        None
    };
    let animated = frames.is_some() || (kind == ImageKind::Png && png_is_animated(bytes)) || (kind
        == ImageKind::WebP && webp_is_animated(bytes));
    SourceImage { kind, picture: turned, profile, orientation, frames, animated }
}

/// Inspect the size before allocating the decoded pixel buffer, then decode the
/// pixels together with the colour profile, the recorded orientation, and any
/// animation frames, so a transform can carry all of them across.
pub fn decode(bytes: &[u8]) -> (source: Result<SourceImage, String>)
    ensures
        outcome(source) == decoded_source(bytes@),
        match source {
            Ok(source) => source@.is_sound(),
            Err(_) => true,
        },
{
    let kind = match accept_kind(guess_kind(bytes)) {
        Ok(kind) => kind,
        Err(error) => {
            return Err(error);
        },
    };
    let (width, height) = match check_size(read_size(bytes, kind)) {
        Ok(size) => size,
        Err(error) => {
            return Err(error);
        },
    };
    match open_decoder(bytes, kind, MAX_DECODER_BYTES) {
        Ok(()) => {},
        Err(error) => {
            return Err(joined("Could not read this image: ", error.as_str()));
        },
    }
    let profile = read_profile(bytes, kind, MAX_DECODER_BYTES);
    let orientation: u8 = match read_orientation(bytes, kind, MAX_DECODER_BYTES) {
        Some(number) => number,
        None => 1,
    };
    let decoded = decode_pixels(bytes, kind, MAX_DECODER_BYTES);
    let picture = match check_pixels(decoded) {
        Ok(picture) => picture,
        Err(error) => {
            return Err(error);
        },
    };
    let frames = if kind == ImageKind::Gif {
        match decode_gif_frames(bytes, width, height) {
            Ok(frames) => frames,
            Err(error) => {
                return Err(error);
            },
        }
    } else {
        let none: Vec<AnimationFrame> = Vec::new();
        assert(frame_values(none@) =~= Seq::<FrameValue>::empty());
        none
    };
    Ok(join_parts(bytes, kind, &picture, profile, orientation, frames))
}

} // verus!
