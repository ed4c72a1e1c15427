//! What the image transforms give and tell.

use vstd::prelude::*;

use crate::images::decode::{source_from_parts, SourceValue};
use crate::images::encode::{
    depth_reduced, encode_notices, encoded_image, flattened, flattening_blends_every_pixel,
    is_blended, profile_dropped,
};
use crate::images::model::{
    oriented, rgba8, rgba_channel, FrameValue, ImageKind, JpegColor, PictureValue,
};
use crate::images::outside::jpeg_file;
use crate::images::transform::{
    animation_dropped, animation_notices, conversion_notices, is_shrunk, resize_clamped,
    resize_size, returned_unchanged, size_notices, smaller_image, still_notices, target_kind,
    without_code,
};
use crate::notices::{has_code, with_notice, NoticeValue};

verus! {

proof fn lemma_codes()
    ensures
        "image-resize-clamped"@ != "image-color-profile-dropped"@,
        "image-resize-clamped"@ != "image-bit-depth-reduced"@,
        "image-resize-clamped"@ != "image-animation-dropped"@,
        "image-resize-clamped"@ != "image-animation-recoded"@,
        "image-resize-clamped"@ != "image-returned-unchanged"@,
        "image-color-profile-dropped"@ != "image-bit-depth-reduced"@,
        "image-color-profile-dropped"@ != "image-animation-dropped"@,
        "image-color-profile-dropped"@ != "image-animation-recoded"@,
        "image-color-profile-dropped"@ != "image-returned-unchanged"@,
        "image-bit-depth-reduced"@ != "image-animation-dropped"@,
        "image-bit-depth-reduced"@ != "image-animation-recoded"@,
        "image-bit-depth-reduced"@ != "image-returned-unchanged"@,
        "image-animation-dropped"@ != "image-animation-recoded"@,
        "image-animation-dropped"@ != "image-returned-unchanged"@,
        "image-animation-recoded"@ != "image-returned-unchanged"@,
{
    reveal_strlit("image-resize-clamped");
    reveal_strlit("image-color-profile-dropped");
    reveal_strlit("image-bit-depth-reduced");
    reveal_strlit("image-animation-dropped");
    reveal_strlit("image-animation-recoded");
    reveal_strlit("image-returned-unchanged");
    assert("image-resize-clamped"@.len() == 20);
    assert("image-color-profile-dropped"@.len() == 27);
    assert("image-bit-depth-reduced"@.len() == 23);
    assert("image-animation-dropped"@.len() == 23);
    assert("image-animation-recoded"@.len() == 23);
    assert("image-returned-unchanged"@.len() == 24);
    assert("image-animation-dropped"@[6] == 'a');
    assert("image-animation-dropped"@[16] == 'd');
    assert("image-animation-recoded"@[6] == 'a');
    assert("image-animation-recoded"@[16] == 'r');
    assert("image-bit-depth-reduced"@[6] == 'b');
}

proof fn lemma_targets()
    ensures
        "png"@ != "jpeg"@,
        "png"@ != "webp"@,
        "jpeg"@ != "webp"@,
{
    reveal_strlit("png");
    reveal_strlit("jpeg");
    reveal_strlit("webp");
    assert("png"@.len() == 3);
    assert("jpeg"@.len() == 4);
    assert("webp"@.len() == 4);
    assert("jpeg"@[0] == 'j');
    assert("webp"@[0] == 'w');
}

proof fn lemma_told(notices: Seq<NoticeValue>, added: NoticeValue, code: Seq<char>)
    ensures
        has_code(with_notice(notices, added), code) == (has_code(notices, code) || added.code
            == code),
{
    let all = notices.push(added);
    if has_code(notices, code) {
        let i = choose|i: int| 0 <= i < notices.len() && (#[trigger] notices[i]).code == code;
        assert(all[i].code == code);
    }
    if has_code(all, code) && added.code != code {
        let i = choose|i: int| 0 <= i < all.len() && (#[trigger] all[i]).code == code;
        assert(notices[i].code == code);
    }
    assert(all[notices.len() as int] == added);
}

/// Without its shape kept, a picture gets the very size that was asked for, if that is no
/// larger than the picture in either direction.
pub proof fn resizing_gives_the_requested_size(
    picture: PictureValue,
    max_w: u32,
    max_h: u32,
    scaled: (u32, u32),
    shrunk: PictureValue,
)
    requires
        max_w <= picture.width,
        max_h <= picture.height,
        is_shrunk(picture, resize_size(picture, max_w, max_h, false, scaled), false, shrunk),
    ensures
        shrunk.width == max_w,
        shrunk.height == max_h,
        shrunk.layout == picture.layout,
        shrunk.is_sixteen_bit() == picture.is_sixteen_bit(),
{
}

/// With its shape kept, a picture fills the box in one direction, or keeps its own size there,
/// and in the other it is as the shape says, to within a pixel.
pub proof fn resizing_keeps_the_shape(
    picture: PictureValue,
    max_w: u32,
    max_h: u32,
    scaled: (u32, u32),
    shrunk: PictureValue,
)
    requires
        is_shrunk(picture, resize_size(picture, max_w, max_h, true, scaled), true, shrunk),
    ensures
        ({
            let wide = if max_w < picture.width {
                max_w
            } else {
                picture.width
            };
            let high = if max_h < picture.height {
                max_h
            } else {
                picture.height
            };
            &&& 0 < shrunk.width <= wide
            &&& 0 < shrunk.height <= high
            &&& {
                ||| shrunk.width == wide && -picture.width < shrunk.height * picture.width
                    - picture.height * wide < picture.width
                ||| shrunk.height == high && -picture.height < shrunk.width * picture.height
                    - picture.width * high < picture.height
            }
        }),
{
}

/// Resizing tells that it gave a smaller size than was asked for exactly when a box larger than
/// the picture was asked for without keeping its shape.
pub proof fn resizing_tells_of_a_smaller_size(
    picture: PictureValue,
    max_w: u32,
    max_h: u32,
    keep_aspect: bool,
    scaled: (u32, u32),
    notices: Seq<NoticeValue>,
    code: Seq<char>,
)
    ensures
        has_code(size_notices(picture, max_w, max_h, keep_aspect, scaled, notices), code) == (
        has_code(notices, code) || code == "image-resize-clamped"@ && !keep_aspect && (max_w
            > picture.width || max_h > picture.height)),
{
    lemma_told(notices, resize_clamped(max_w, max_h, scaled), code);
}

/// Encoding tells that a colour profile was lost exactly when there is one and the format is
/// GIF or BMP, and that bits were lost exactly when there are sixteen and the format is not
/// PNG.
pub proof fn encoding_tells_what_is_lost(
    picture: PictureValue,
    kind: ImageKind,
    profile: Option<Seq<u8>>,
    notices: Seq<NoticeValue>,
    code: Seq<char>,
)
    ensures
        has_code(encode_notices(picture, kind, profile, notices), code) == (has_code(notices, code)
            || code == "image-color-profile-dropped"@ && profile is Some && (kind is Gif
            || kind is Bmp) || code == "image-bit-depth-reduced"@ && picture.is_sixteen_bit()
            && !(kind is Png)),
{
    lemma_codes();
    lemma_told(notices, profile_dropped(), code);
    let first = if profile is Some && (kind == ImageKind::Gif || kind == ImageKind::Bmp) {
        with_notice(notices, profile_dropped())
    } else {
        notices
    };
    lemma_told(first, depth_reduced(), code);
}

/// A transform to a still picture tells that an animation was lost exactly when there was one.
pub proof fn still_pictures_tell_of_a_lost_animation(
    animated: bool,
    deed: Seq<char>,
    code: Seq<char>,
)
    ensures
        has_code(still_notices(animated, deed), code) == (animated && code
            == "image-animation-dropped"@),
{
    let told = still_notices(animated, deed);
    if animated {
        assert(told[0] == animation_dropped(deed));
    }
    if has_code(told, code) {
        let i = choose|i: int| 0 <= i < told.len() && (#[trigger] told[i]).code == code;
        assert(told[i].code == code);
    }
}

/// Converting tells of a lost animation and of lost bits exactly when there were some.
pub proof fn converting_tells_what_is_lost(source: SourceValue, kind: ImageKind, code: Seq<char>)
    ensures
        has_code(conversion_notices(source, kind), code) == (source.animated && code
            == "image-animation-dropped"@ || code == "image-bit-depth-reduced"@
            && source.picture.is_sixteen_bit() && !(kind is Png)),
{
    lemma_codes();
    still_pictures_tell_of_a_lost_animation(source.animated, "converted"@, code);
    lemma_told(still_notices(source.animated, "converted"@), depth_reduced(), code);
}

/// Resizing an animation tells that its colour profile was lost exactly when there is one.
pub proof fn resizing_an_animation_tells_what_is_lost(
    source: SourceValue,
    max_w: u32,
    max_h: u32,
    keep_aspect: bool,
    scaled: (u32, u32),
    code: Seq<char>,
)
    ensures
        has_code(animation_notices(source, max_w, max_h, keep_aspect, scaled), code) == (code
            == "image-color-profile-dropped"@ && source.profile is Some || code
            == "image-resize-clamped"@ && !keep_aspect && (max_w > source.picture.width || max_h
            > source.picture.height)),
{
    lemma_codes();
    let none = Seq::<NoticeValue>::empty();
    resizing_tells_of_a_smaller_size(
        source.picture,
        max_w,
        max_h,
        keep_aspect,
        scaled,
        none,
        code,
    );
    let first = size_notices(source.picture, max_w, max_h, keep_aspect, scaled, none);
    lemma_told(first, profile_dropped(), code);
}

proof fn lemma_without(notices: Seq<NoticeValue>, code: Seq<char>, other: Seq<char>)
    ensures
        has_code(without_code(notices, code), other) == (other != code && has_code(notices, other)),
    decreases notices.len(),
{
    if notices.len() > 0 {
        let shorter = notices.drop_last();
        lemma_without(shorter, code, other);
        let rest = without_code(shorter, code);
        let last = notices.last();
        assert(notices =~= shorter.push(last));
        lemma_pushed(shorter, last, other);
        lemma_pushed(rest, last, other);
    }
}

proof fn lemma_pushed(notices: Seq<NoticeValue>, last: NoticeValue, code: Seq<char>)
    ensures
        has_code(notices.push(last), code) == (has_code(notices, code) || last.code == code),
{
    let all = notices.push(last);
    if has_code(notices, code) {
        let i = choose|i: int| 0 <= i < notices.len() && (#[trigger] notices[i]).code == code;
        assert(all[i].code == code);
    }
    if has_code(all, code) && last.code != code {
        let i = choose|i: int| 0 <= i < all.len() && (#[trigger] all[i]).code == code;
        assert(notices[i].code == code);
    }
    assert(all[notices.len() as int] == last);
}

/// Compressing hands out the shorter of the two files, the input where they are equally long.
/// With the input it tells so, does not tell of a lost animation, and tells the rest as before.
pub proof fn compressing_hands_out_the_shorter_file(
    bytes: Seq<u8>,
    encoded: Seq<u8>,
    notices: Seq<NoticeValue>,
    code: Seq<char>,
)
    ensures
        ({
            let (file, told) = smaller_image(bytes, encoded, notices);
            &&& file == bytes || file == encoded
            &&& file.len() <= bytes.len() && file.len() <= encoded.len()
            &&& bytes.len() == encoded.len() ==> file == bytes
            &&& encoded.len() < bytes.len() ==> told == notices
            &&& encoded.len() >= bytes.len() ==> has_code(told, code) == (code
                == "image-returned-unchanged"@ || code != "image-animation-dropped"@ && has_code(
                notices,
                code,
            ))
        }),
{
    lemma_codes();
    lemma_without(notices, "image-animation-dropped"@, code);
    lemma_told(without_code(notices, "image-animation-dropped"@), returned_unchanged(), code);
}

/// A name is that of a target format exactly when it is one of three.
pub proof fn target_formats_have_names(target: Seq<char>)
    ensures
        target == "png"@ ==> target_kind(target) == Ok::<ImageKind, Seq<char>>(ImageKind::Png),
        target == "jpeg"@ ==> target_kind(target) == Ok::<ImageKind, Seq<char>>(ImageKind::Jpeg),
        target == "webp"@ ==> target_kind(target) == Ok::<ImageKind, Seq<char>>(ImageKind::WebP),
        target != "png"@ && target != "jpeg"@ && target != "webp"@ ==> target_kind(target) is Err,
{
    lemma_targets();
}

/// A source keeps the frames of an animation of more than one, its colour profile unless that
/// is empty, and its picture turned upright; an animation is never taken for a still picture.
pub proof fn sources_keep_their_parts(
    bytes: Seq<u8>,
    kind: ImageKind,
    picture: PictureValue,
    profile: Option<Seq<u8>>,
    orientation: u8,
    frames: Seq<FrameValue>,
)
    ensures
        ({
            let source = source_from_parts(bytes, kind, picture, profile, orientation, frames);
            &&& source.kind == kind
            &&& source.picture == oriented(picture, orientation)
            &&& source.orientation == orientation
            &&& frames.len() > 1 ==> source.frames == Some(frames) && source.animated
            &&& frames.len() <= 1 ==> source.frames is None
            &&& (profile is Some && profile->0.len() > 0) ==> source.profile == profile
            &&& (source.profile is Some ==> source.profile == profile)
        }),
{
}

/// Whether RGB samples are those of a picture put onto white.
pub open spec fn is_on_white(picture: PictureValue, flat: Seq<u8>) -> bool {
    &&& flat.len() == 3 * picture.pixels()
    &&& forall|pixel: int, channel: int|
        0 <= pixel < picture.pixels() && 0 <= channel < 3 ==> #[trigger] is_blended(
            rgba_channel(picture, pixel, channel),
            rgba_channel(picture, pixel, 3),
            flat[3 * pixel + channel],
        )
}

/// A JPEG is written from the picture put onto white, in its own size, at the given quality and
/// with the given colour profile.
pub proof fn jpegs_are_written_on_white(
    picture: PictureValue,
    quality: u8,
    profile: Option<Seq<u8>>,
    file: Seq<u8>,
)
    requires
        picture.is_whole(),
        encoded_image(picture, ImageKind::Jpeg, quality, profile) == Ok::<Seq<u8>, Seq<char>>(file),
    ensures
        picture.width <= u16::MAX,
        picture.height <= u16::MAX,
        exists|flat: Seq<u8>| #[trigger]
            is_on_white(picture, flat) && jpeg_file(
                flat,
                picture.width as u16,
                picture.height as u16,
                JpegColor::Rgb,
                quality,
                profile,
            ) == Ok::<Seq<u8>, Seq<char>>(file),
{
    let rgba = rgba8(picture);
    let flat = flattened(rgba);
    assert(rgba.len() == 4 * picture.pixels());
    assert forall|pixel: int, channel: int|
        0 <= pixel < picture.pixels() && 0 <= channel < 3 implies #[trigger] is_blended(
        rgba_channel(picture, pixel, channel),
        rgba_channel(picture, pixel, 3),
        flat[3 * pixel + channel],
    ) by {
        flattening_blends_every_pixel(rgba, pixel);
        assert(rgba[4 * pixel] == rgba_channel(picture, pixel, 0));
        assert(rgba[4 * pixel + 1] == rgba_channel(picture, pixel, 1));
        assert(rgba[4 * pixel + 2] == rgba_channel(picture, pixel, 2));
        assert(rgba[4 * pixel + 3] == rgba_channel(picture, pixel, 3));
    }
    assert(is_on_white(picture, flat));
}

} // verus!
