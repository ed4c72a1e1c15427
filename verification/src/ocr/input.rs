//! The picture that text is read from.

use vstd::prelude::*;

use crate::images::decode::{
    check_pixels, check_size, checked_pixels, checked_size, guarded_size,
};
use crate::images::model::{rgb8, ImageKind, Picture, PictureValue, MAX_DECODER_BYTES};
use crate::images::outside::{
    declared_size, guess_kind, guessed_kind, kind_outcome, read_in_full, read_picture, read_size,
    to_rgb8,
};
use crate::text::{joined, outcome};

verus! {

/// The most bytes that an encoded image may have.
pub const MAX_ENCODED_IMAGE_BYTES: usize = 67_108_864;

/// 8-bit RGB samples and their size.
pub struct RgbPixels {
    pub width: u32,
    pub height: u32,
    pub samples: Vec<u8>,
}

/// The value of RGB samples.
pub struct RgbValue {
    pub width: u32,
    pub height: u32,
    pub samples: Seq<u8>,
}

impl View for RgbPixels {
    type V = RgbValue;

    open spec fn view(&self) -> RgbValue {
        RgbValue { width: self.width, height: self.height, samples: self.samples@ }
    }
}

/// The format of an image, when it is one that text is read from.
pub open spec fn readable_kind(guess: Result<Option<ImageKind>, Seq<char>>) -> Result<
    ImageKind,
    Seq<char>,
> {
    match guess {
        Err(error) => Err("Could not determine this image's format: "@ + error),
        Ok(None) => Err("This image format is unsupported; use JPEG, PNG, WebP, GIF, or BMP."@),
        Ok(Some(kind)) => Ok(kind),
    }
}

/// The format that a guess gives, when it is one that text is read from.
pub fn accept_readable(guess: Result<Option<ImageKind>, String>) -> (kind: Result<
    ImageKind,
    String,
>)
    ensures
        match kind {
            Ok(kind) => readable_kind(kind_outcome(guess)) == Ok::<ImageKind, Seq<char>>(kind),
            Err(error) => readable_kind(kind_outcome(guess)) == Err::<ImageKind, Seq<char>>(
                error@,
            ),
        },
{
    match guess {
        Err(error) => Err(joined("Could not determine this image's format: ", error.as_str())),
        Ok(None) => Err(
            "This image format is unsupported; use JPEG, PNG, WebP, GIF, or BMP.".to_owned(),
        ),
        Ok(Some(kind)) => Ok(kind),
    }
}

/// Whether an encoded image may be looked at.
pub open spec fn accepted_length(length: nat) -> Result<(), Seq<char>> {
    if length == 0 {
        Err("The image is empty."@)
    } else if length > MAX_ENCODED_IMAGE_BYTES {
        Err("The encoded image is too large (maximum 64 MiB)."@)
    } else {
        Ok(())
    }
}

fn accept_length(length: usize) -> (result: Result<(), String>)
    ensures
        outcome(result) == accepted_length(length as nat),
{
    if length == 0 {
        return Err("The image is empty.".to_owned());
    }
    if length > MAX_ENCODED_IMAGE_BYTES {
        return Err("The encoded image is too large (maximum 64 MiB).".to_owned());
    }
    Ok(())
}

/// The picture that text is read from, or why it cannot be decoded. The header and
/// the size are inspected before the pixels are decoded.
pub open spec fn readable_picture(bytes: Seq<u8>) -> Result<PictureValue, Seq<char>> {
    match accepted_length(bytes.len()) {
        Err(error) => Err(error),
        Ok(()) => match readable_kind(guessed_kind(bytes)) {
            Err(error) => Err(error),
            Ok(kind) => match checked_size(declared_size(bytes, kind)) {
                Err(error) => Err(error),
                Ok(_) => checked_pixels(read_in_full(bytes, kind, MAX_DECODER_BYTES)),
            },
        },
    }
}

/// The samples that text is read from.
pub open spec fn readable_pixels(bytes: Seq<u8>) -> Result<RgbValue, Seq<char>> {
    match readable_picture(bytes) {
        Err(error) => Err(error),
        Ok(picture) => Ok(
            RgbValue { width: picture.width, height: picture.height, samples: rgb8(picture) },
        ),
    }
}

fn decode_picture(bytes: &[u8]) -> (picture: Result<Picture, String>)
    ensures
        outcome(picture) == readable_picture(bytes@),
        match picture {
            Ok(picture) => picture@.is_whole() && guarded_size(picture.width, picture.height)
                is Ok,
            Err(_) => true,
        },
{
    match accept_length(bytes.len()) {
        Err(error) => {
            return Err(error);
        },
        Ok(()) => {},
    }
    match accept_readable(guess_kind(bytes)) {
        Err(error) => Err(error),
        Ok(kind) => match check_size(read_size(bytes, kind)) {
            Err(error) => Err(error),
            Ok(_) => check_pixels(read_picture(bytes, kind, MAX_DECODER_BYTES)),
        },
    }
}

/// Inspect the encoded header and the size before allocating decoded pixels.
pub fn decode_image(bytes: &[u8]) -> (pixels: Result<RgbPixels, String>)
    ensures
        outcome(pixels) == readable_pixels(bytes@),
        match pixels {
            Ok(pixels) => guarded_size(pixels.width, pixels.height) is Ok && pixels.samples@.len()
                == pixels.width * pixels.height * 3,
            Err(_) => true,
        },
{
    match decode_picture(bytes) {
        Err(error) => Err(error),
        Ok(picture) => {
            let samples = to_rgb8(&picture);
            Ok(RgbPixels { width: picture.width, height: picture.height, samples })
        },
    }
}

} // verus!
