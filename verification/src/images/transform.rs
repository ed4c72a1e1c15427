//! Resizing, converting and compressing an image.

use vstd::prelude::*;

use crate::bytes::copy_bytes;
use crate::images::decode::{decode, decoded_source, SourceImage, SourceValue};
use crate::images::encode::{
    depth_reduced, encode, encode_notices, encoded_image, is_faithful, profile_dropped,
    push_depth_reduced, push_profile_dropped,
};
use crate::images::model::{
    are_frames, frame_values, has_size, have_size, is_frame, oriented,
    turning_keeps_a_picture_whole, AnimationFrame, FrameValue, ImageKind, Picture, PictureValue,
};
use crate::images::outside::{
    apply_orientation, fitted_size, gif_animation, guess_kind, guessed_kind, keeps_shape,
    load_image, loaded, may_shrink, optional_bytes, shows_frames, shrink_exactly, shrink_to_fit,
    write_gif_frames,
};
use crate::notices::{
    has_code, notice, notice_values, push_notice, told_outcome, with_notice, FileResult, Notice,
    NoticeValue,
};
use crate::text::{decimal, decimal_text, joined, outcome, same_text};

verus! {

/// The JPEG quality of a resized or converted picture.
pub const DEFAULT_JPEG_QUALITY: u8 = 90;

/// Why a size without area is refused.
pub open spec fn empty_box_error() -> Seq<char> {
    "Resize width and height must both be greater than zero."@
}

/// Read an image that is to be resized into a box, which must not be empty.
pub fn open_for_resize(bytes: &[u8], max_w: u32, max_h: u32) -> (source: Result<
    SourceImage,
    String,
>)
    ensures
        outcome(source) == if max_w == 0 || max_h == 0 {
            Err(empty_box_error())
        } else {
            decoded_source(bytes@)
        },
        match source {
            Ok(source) => source@.is_sound(),
            Err(_) => true,
        },
{
    if max_w == 0 || max_h == 0 {
        return Err("Resize width and height must both be greater than zero.".to_owned());
    }
    decode(bytes)
}

/// The size that a picture is given. `keep_aspect` fits it inside the box.
/// Without it the requested box is used exactly, except that a box larger than
/// the source gives way to `scaled`, the box scaled down as a whole.
pub open spec fn resize_size(
    picture: PictureValue,
    max_w: u32,
    max_h: u32,
    keep_aspect: bool,
    scaled: (u32, u32),
) -> (u32, u32) {
    if keep_aspect {
        (
            if max_w < picture.width {
                max_w
            } else {
                picture.width
            },
            if max_h < picture.height {
                max_h
            } else {
                picture.height
            },
        )
    } else if max_w <= picture.width && max_h <= picture.height {
        (max_w, max_h)
    } else {
        scaled
    }
}

/// That a box larger than the picture was scaled down.
pub open spec fn resize_clamped(max_w: u32, max_h: u32, scaled: (u32, u32)) -> NoticeValue {
    notice(
        "image-resize-clamped"@,
        "The requested "@ + decimal(max_w as nat) + "x"@ + decimal(max_h as nat)
            + " is larger than this image, and enlarging would invent detail. It was scaled to "@
            + decimal(scaled.0 as nat) + "x"@ + decimal(scaled.1 as nat)
            + ", which keeps the shape you asked for."@,
    )
}

/// The notices once the size was chosen.
pub open spec fn size_notices(
    picture: PictureValue,
    max_w: u32,
    max_h: u32,
    keep_aspect: bool,
    scaled: (u32, u32),
    notices: Seq<NoticeValue>,
) -> Seq<NoticeValue> {
    if keep_aspect || (max_w <= picture.width && max_h <= picture.height) {
        notices
    } else {
        with_notice(notices, resize_clamped(max_w, max_h, scaled))
    }
}

fn clamped_sentence(max_w: u32, max_h: u32, scaled: (u32, u32)) -> (sentence: String)
    ensures
        sentence@ == resize_clamped(max_w, max_h, scaled).message,
{
    let mut sentence = joined("The requested ", decimal_text(max_w as u64).as_str());
    sentence.append("x");
    sentence.append(decimal_text(max_h as u64).as_str());
    sentence.append(
        " is larger than this image, and enlarging would invent detail. It was scaled to ",
    );
    sentence.append(decimal_text(scaled.0 as u64).as_str());
    sentence.append("x");
    sentence.append(decimal_text(scaled.1 as u64).as_str());
    sentence.append(", which keeps the shape you asked for.");
    sentence
}

/// Choose the size of the output.
pub fn resize_target(
    picture: &Picture,
    max_w: u32,
    max_h: u32,
    keep_aspect: bool,
    scaled: (u32, u32),
    notices: &mut Vec<Notice>,
) -> (size: (u32, u32))
    ensures
        size == resize_size(picture@, max_w, max_h, keep_aspect, scaled),
        notice_values(final(notices)@) == size_notices(
            picture@,
            max_w,
            max_h,
            keep_aspect,
            scaled,
            notice_values(old(notices)@),
        ),
{
    if keep_aspect {
        let width: u32 = if max_w < picture.width {
            max_w
        } else {
            picture.width
        };
        let height: u32 = if max_h < picture.height {
            max_h
        } else {
            picture.height
        };
        return (width, height);
    }
    if max_w <= picture.width && max_h <= picture.height {
        return (max_w, max_h);
    }
    push_notice(
        notices,
        Notice::new(
            "image-resize-clamped",
            clamped_sentence(max_w, max_h, scaled).as_str(),
        ),
    );
    scaled
}

/// Whether `shrunk` is a picture scaled to a size: to the size itself, or, with
/// its shape kept to within a pixel, to the largest that fits inside. The layout
/// and the bit depth stay, and a picture that already has the size is left as it is.
/// The samples are those that scaling this very picture to this size may give.
pub open spec fn is_shrunk(
    picture: PictureValue,
    size: (u32, u32),
    keep_aspect: bool,
    shrunk: PictureValue,
) -> bool {
    &&& shrunk.is_whole()
    &&& shrunk.layout == picture.layout
    &&& shrunk.is_sixteen_bit() == picture.is_sixteen_bit()
    &&& if keep_aspect {
        &&& has_size(shrunk, fitted_size(picture.width, picture.height, size.0, size.1))
        &&& keeps_shape(picture.width, picture.height, size, (shrunk.width, shrunk.height))
        &&& 0 < shrunk.width <= size.0
        &&& 0 < shrunk.height <= size.1
    } else {
        has_size(shrunk, size)
    }
    &&& has_size(picture, size) ==> shrunk == picture
    &&& may_shrink(picture, size.0, size.1, keep_aspect, shrunk)
}

fn shrink(picture: &Picture, size: (u32, u32), keep_aspect: bool) -> (shrunk: Picture)
    requires
        picture@.is_whole(),
        0 < size.0 <= picture.width,
        0 < size.1 <= picture.height,
    ensures
        is_shrunk(picture@, size, keep_aspect, shrunk@),
{
    if keep_aspect {
        shrink_to_fit(picture, size.0, size.1)
    } else {
        shrink_exactly(picture, size.0, size.1)
    }
}

/// Whether each frame was turned upright and scaled, and is shown as long.
pub open spec fn are_shrunk(
    frames: Seq<FrameValue>,
    orientation: u8,
    size: (u32, u32),
    keep_aspect: bool,
    shrunk: Seq<FrameValue>,
) -> bool {
    &&& shrunk.len() == frames.len()
    &&& are_frames(shrunk)
    &&& forall|i: int|
        0 <= i < frames.len() ==> (#[trigger] shrunk[i]).delay == frames[i].delay && is_shrunk(
            oriented(frames[i].picture, orientation),
            size,
            keep_aspect,
            shrunk[i].picture,
        )
}

fn shrink_frames(
    frames: &Vec<AnimationFrame>,
    orientation: u8,
    size: (u32, u32),
    keep_aspect: bool,
    Ghost(canvas): Ghost<(u32, u32)>,
) -> (shrunk: Vec<AnimationFrame>)
    requires
        1 <= orientation <= 8,
        are_frames(frame_values(frames@)),
        have_size(frame_values(frames@), canvas),
        orientation <= 4 ==> 0 < size.0 <= canvas.0 && 0 < size.1 <= canvas.1,
        orientation > 4 ==> 0 < size.0 <= canvas.1 && 0 < size.1 <= canvas.0,
    ensures
        are_shrunk(
            frame_values(frames@),
            orientation,
            size,
            keep_aspect,
            frame_values(shrunk@),
        ),
{
    let ghost values = frame_values(frames@);
    let mut shrunk: Vec<AnimationFrame> = Vec::new();
    let mut i: usize = 0;
    while i < frames.len()
        invariant
            i <= frames@.len(),
            shrunk@.len() == i,
            values == frame_values(frames@),
            1 <= orientation <= 8,
            are_frames(values),
            have_size(values, canvas),
            orientation <= 4 ==> 0 < size.0 <= canvas.0 && 0 < size.1 <= canvas.1,
            orientation > 4 ==> 0 < size.0 <= canvas.1 && 0 < size.1 <= canvas.0,
            forall|j: int|
                0 <= j < i ==> is_frame((#[trigger] shrunk@[j])@) && shrunk@[j].delay
                    == values[j].delay && is_shrunk(
                    oriented(values[j].picture, orientation),
                    size,
                    keep_aspect,
                    shrunk@[j].picture@,
                ),
        decreases frames.len() - i,
    {
        let frame = &frames[i];
        assert(values[i as int] == frame@);
        let upright = apply_orientation(&frame.picture, orientation);
        proof {
            turning_keeps_a_picture_whole(frame.picture@, orientation);
        }
        let picture = shrink(&upright, size, keep_aspect);
        shrunk.push(AnimationFrame { picture, delay: frame.delay });
        i += 1;
    }
    assert forall|j: int| 0 <= j < values.len() implies (#[trigger] frame_values(
        shrunk@,
    )[j]).delay == values[j].delay && is_shrunk(
        oriented(values[j].picture, orientation),
        size,
        keep_aspect,
        frame_values(shrunk@)[j].picture,
    ) by {
        assert(frame_values(shrunk@)[j] == shrunk@[j]@);
    }
    assert forall|j: int| 0 <= j < values.len() implies is_frame(
        #[trigger] frame_values(shrunk@)[j],
    ) by {
        assert(frame_values(shrunk@)[j] == shrunk@[j]@);
    }
    shrunk
}

/// That an animation was rebuilt frame by frame.
pub open spec fn animation_recoded(count: nat) -> NoticeValue {
    notice(
        "image-animation-recoded"@,
        "All "@ + decimal(count)
            + " frames of this animation were kept, and its colours were re-selected frame by frame, which can shift them slightly."@,
    )
}

/// An animation written from its frames.
pub open spec fn animation_result(frames: Seq<FrameValue>, notices: Seq<NoticeValue>) -> Result<
    (Seq<u8>, Seq<NoticeValue>),
    Seq<char>,
> {
    match gif_animation(frames) {
        Err(error) => Err("Could not encode a GIF frame: "@ + error),
        Ok(bytes) => Ok((bytes, with_notice(notices, animation_recoded(frames.len())))),
    }
}

/// Write an animation from its frames.
pub fn finish_animation(frames: &Vec<AnimationFrame>, notices: Vec<Notice>) -> (result: Result<
    (Vec<u8>, Vec<Notice>),
    String,
>)
    requires
        are_frames(frame_values(frames@)),
    ensures
        told_outcome(result) == animation_result(frame_values(frames@), notice_values(notices@)),
        match result {
            Ok((file, _)) => shows_frames(file@, frame_values(frames@)),
            Err(_) => true,
        },
{
    match write_gif_frames(frames) {
        Err(error) => Err(joined("Could not encode a GIF frame: ", error.as_str())),
        Ok(bytes) => {
            let mut notices = notices;
            let mut sentence = joined("All ", decimal_text(frames.len() as u64).as_str());
            sentence.append(
                " frames of this animation were kept, and its colours were re-selected frame by frame, which can shift them slightly.",
            );
            push_notice(
                &mut notices,
                Notice::new("image-animation-recoded", sentence.as_str()),
            );
            Ok((bytes, notices))
        },
    }
}

/// That only the first frame of an animation was used.
pub open spec fn animation_dropped(deed: Seq<char>) -> NoticeValue {
    notice(
        "image-animation-dropped"@,
        "This file contains an animation. Only its first frame was "@ + deed
            + "; the result is a still picture."@,
    )
}

/// The notices with which a transform to a still picture begins.
pub open spec fn still_notices(animated: bool, deed: Seq<char>) -> Seq<NoticeValue> {
    if animated {
        seq![animation_dropped(deed)]
    } else {
        Seq::empty()
    }
}

fn start_still(animated: bool, deed: &str) -> (notices: Vec<Notice>)
    ensures
        notice_values(notices@) == still_notices(animated, deed@),
{
    let mut notices: Vec<Notice> = Vec::new();
    assert(notice_values(notices@) =~= Seq::<NoticeValue>::empty());
    if animated {
        let mut sentence = joined(
            "This file contains an animation. Only its first frame was ",
            deed,
        );
        sentence.append("; the result is a still picture.");
        push_notice(&mut notices, Notice::new("image-animation-dropped", sentence.as_str()));
    }
    assert(notice_values(notices@) =~= still_notices(animated, deed@));
    notices
}

/// A picture encoded in a format, with the notices that come with it.
pub open spec fn still_result(
    picture: PictureValue,
    kind: ImageKind,
    profile: Option<Seq<u8>>,
    quality: u8,
    notices: Seq<NoticeValue>,
) -> Result<(Seq<u8>, Seq<NoticeValue>), Seq<char>> {
    match encoded_image(picture, kind, quality, profile) {
        Err(error) => Err(error),
        Ok(bytes) => Ok((bytes, encode_notices(picture, kind, profile, notices))),
    }
}

/// Encode a picture in a format, with the notices that come with it.
pub fn finish_still(
    picture: &Picture,
    kind: ImageKind,
    profile: Option<&[u8]>,
    quality: u8,
    notices: Vec<Notice>,
) -> (result: Result<(Vec<u8>, Vec<Notice>), String>)
    requires
        picture@.is_whole(),
    ensures
        told_outcome(result) == still_result(
            picture@,
            kind,
            optional_bytes(profile),
            quality,
            notice_values(notices@),
        ),
        match result {
            Ok((file, _)) => is_faithful(picture@, kind, optional_bytes(profile), file@),
            Err(_) => true,
        },
{
    let mut notices = notices;
    match encode(picture, kind, quality, profile, &mut notices) {
        Ok(bytes) => Ok((bytes, notices)),
        Err(error) => Err(error),
    }
}

fn profile_of(source: &SourceImage) -> (profile: Option<&[u8]>)
    ensures
        optional_bytes(profile) == source@.profile,
{
    match &source.profile {
        Some(profile) => Some(profile.as_slice()),
        None => None,
    }
}

/// The notices once an animation is about to be rebuilt.
pub open spec fn animation_notices(
    source: SourceValue,
    max_w: u32,
    max_h: u32,
    keep_aspect: bool,
    scaled: (u32, u32),
) -> Seq<NoticeValue> {
    let first = size_notices(
        source.picture,
        max_w,
        max_h,
        keep_aspect,
        scaled,
        Seq::empty(),
    );
    if source.profile is Some {
        with_notice(first, profile_dropped())
    } else {
        first
    }
}

/// Whether a result is that of resizing a source: every frame of an animation
/// that can be rebuilt, or else the still picture, scaled to the chosen size and
/// written in the source's own format.
pub open spec fn is_resized(
    source: SourceValue,
    max_w: u32,
    max_h: u32,
    keep_aspect: bool,
    scaled: (u32, u32),
    result: Result<(Seq<u8>, Seq<NoticeValue>), Seq<char>>,
) -> bool {
    let size = resize_size(source.picture, max_w, max_h, keep_aspect, scaled);
    match source.frames {
        Some(frames) => exists|shrunk: Seq<FrameValue>|
            #![trigger animation_result(
                shrunk,
                animation_notices(source, max_w, max_h, keep_aspect, scaled),
            )]
            are_shrunk(frames, source.orientation, size, keep_aspect, shrunk) && result
                == animation_result(
                shrunk,
                animation_notices(source, max_w, max_h, keep_aspect, scaled),
            ) && (result matches Ok((file, _)) ==> shows_frames(file, shrunk)),
        None => exists|shrunk: PictureValue|
            #[trigger] is_shrunk(source.picture, size, keep_aspect, shrunk) && result
                == still_result(
                shrunk,
                source.kind,
                source.profile,
                DEFAULT_JPEG_QUALITY,
                size_notices(
                    source.picture,
                    max_w,
                    max_h,
                    keep_aspect,
                    scaled,
                    still_notices(source.animated, "used"@),
                ),
            ) && (result matches Ok((file, _)) ==> is_faithful(
                shrunk,
                source.kind,
                source.profile,
                file,
            )),
    }
}

/// Whether the scaled-down box has area and is no larger than the picture.
pub open spec fn fits_inside(scaled: (u32, u32), picture: PictureValue) -> bool {
    0 < scaled.0 <= picture.width && 0 < scaled.1 <= picture.height
}

/// Resize without upscaling and write in the source's own format, preserving
/// animation, colour profile, and bit depth wherever that format can hold them.
/// `scaled` is the box scaled down as a whole, for a box that is larger than the
/// picture and whose shape is to be kept exactly: it lies inside both.
pub fn resize(
    source: &SourceImage,
    max_w: u32,
    max_h: u32,
    keep_aspect: bool,
    scaled: (u32, u32),
) -> (result: Result<(Vec<u8>, Vec<Notice>), String>)
    requires
        source@.is_sound(),
        max_w > 0,
        max_h > 0,
        fits_inside(scaled, source@.picture),
        scaled.0 <= max_w,
        scaled.1 <= max_h,
    ensures
        is_resized(source@, max_w, max_h, keep_aspect, scaled, told_outcome(result)),
{
    match &source.frames {
        Some(frames) => {
            let mut notices: Vec<Notice> = Vec::new();
            assert(notice_values(notices@) =~= Seq::<NoticeValue>::empty());
            let size = resize_target(
                &source.picture,
                max_w,
                max_h,
                keep_aspect,
                scaled,
                &mut notices,
            );
            if source.profile.is_some() {
                push_profile_dropped(&mut notices);
            }
            let shrunk = shrink_frames(
                frames,
                source.orientation,
                size,
                keep_aspect,
                Ghost(source@.canvas()),
            );
            finish_animation(&shrunk, notices)
        },
        None => {
            let mut notices = start_still(source.animated, "used");
            let size = resize_target(
                &source.picture,
                max_w,
                max_h,
                keep_aspect,
                scaled,
                &mut notices,
            );
            let shrunk = shrink(&source.picture, size, keep_aspect);
            finish_still(
                &shrunk,
                source.kind,
                profile_of(source),
                DEFAULT_JPEG_QUALITY,
                notices,
            )
        },
    }
}

/// Resize an image and return bytes in its own format, plus every notice the
/// interface must show.
pub fn resize_image(
    source: &SourceImage,
    max_w: u32,
    max_h: u32,
    keep_aspect: bool,
    scaled: (u32, u32),
) -> (result: Result<FileResult, String>)
    requires
        source@.is_sound(),
        max_w > 0,
        max_h > 0,
        fits_inside(scaled, source@.picture),
        scaled.0 <= max_w,
        scaled.1 <= max_h,
    ensures
        is_resized(source@, max_w, max_h, keep_aspect, scaled, outcome(result)),
{
    match resize(source, max_w, max_h, keep_aspect, scaled) {
        Ok((bytes, notices)) => Ok(FileResult::new(bytes, notices)),
        Err(error) => Err(error),
    }
}

/// A picture that fits the box is not resampled, so nothing of it is lost.
pub proof fn fitting_picture_is_left_alone(
    picture: PictureValue,
    max_w: u32,
    max_h: u32,
    scaled: (u32, u32),
    shrunk: PictureValue,
)
    requires
        picture.width <= max_w,
        picture.height <= max_h,
        is_shrunk(picture, resize_size(picture, max_w, max_h, true, scaled), true, shrunk),
    ensures
        shrunk == picture,
{
}

/// Resizing never makes a picture wider or taller than it was, nor larger than
/// the box.
pub proof fn resizing_never_enlarges(
    picture: PictureValue,
    max_w: u32,
    max_h: u32,
    keep_aspect: bool,
    scaled: (u32, u32),
    shrunk: PictureValue,
)
    requires
        fits_inside(scaled, picture),
        scaled.0 <= max_w,
        scaled.1 <= max_h,
        is_shrunk(
            picture,
            resize_size(picture, max_w, max_h, keep_aspect, scaled),
            keep_aspect,
            shrunk,
        ),
    ensures
        shrunk.width <= picture.width,
        shrunk.height <= picture.height,
        shrunk.width <= max_w,
        shrunk.height <= max_h,
{
}

/// The format that a name stands for.
pub open spec fn target_kind(target: Seq<char>) -> Result<ImageKind, Seq<char>> {
    if target == "png"@ {
        Ok(ImageKind::Png)
    } else if target == "jpeg"@ {
        Ok(ImageKind::Jpeg)
    } else if target == "webp"@ {
        Ok(ImageKind::WebP)
    } else {
        Err("Target format must be \"png\", \"jpeg\", or \"webp\"."@)
    }
}

/// The format that a name stands for.
pub fn target_format(target: &str) -> (kind: Result<ImageKind, String>)
    ensures
        match kind {
            Ok(kind) => target_kind(target@) == Ok::<ImageKind, Seq<char>>(kind),
            Err(error) => target_kind(target@) == Err::<ImageKind, Seq<char>>(error@),
        },
{
    if same_text(target, "png") {
        Ok(ImageKind::Png)
    } else if same_text(target, "jpeg") {
        Ok(ImageKind::Jpeg)
    } else if same_text(target, "webp") {
        Ok(ImageKind::WebP)
    } else {
        Err("Target format must be \"png\", \"jpeg\", or \"webp\".".to_owned())
    }
}

/// The notices with which a conversion begins.
pub open spec fn conversion_notices(source: SourceValue, kind: ImageKind) -> Seq<NoticeValue> {
    let first = still_notices(source.animated, "converted"@);
    if source.picture.is_sixteen_bit() && kind != ImageKind::Png {
        with_notice(first, depth_reduced())
    } else {
        first
    }
}

/// A source written in another format at its original resolution.
pub open spec fn converted_source(source: SourceValue, kind: ImageKind) -> Result<
    (Seq<u8>, Seq<NoticeValue>),
    Seq<char>,
> {
    still_result(
        source.picture,
        kind,
        source.profile,
        DEFAULT_JPEG_QUALITY,
        conversion_notices(source, kind),
    )
}

/// Write a source in another format at its original resolution.
pub fn convert_source(source: &SourceImage, kind: ImageKind) -> (result: Result<
    (Vec<u8>, Vec<Notice>),
    String,
>)
    requires
        source@.is_sound(),
    ensures
        told_outcome(result) == converted_source(source@, kind),
        match result {
            Ok((file, _)) => is_faithful(source@.picture, kind, source@.profile, file@),
            Err(_) => true,
        },
{
    let mut notices = start_still(source.animated, "converted");
    if source.picture.is_sixteen_bit() && kind != ImageKind::Png {
        push_depth_reduced(&mut notices);
    }
    finish_still(&source.picture, kind, profile_of(source), DEFAULT_JPEG_QUALITY, notices)
}

/// A file converted to another format.
pub open spec fn converted_image(bytes: Seq<u8>, target: Seq<char>) -> Result<
    (Seq<u8>, Seq<NoticeValue>),
    Seq<char>,
> {
    match target_kind(target) {
        Err(error) => Err(error),
        Ok(kind) => match decoded_source(bytes) {
            Err(error) => Err(error),
            Ok(source) => converted_source(source, kind),
        },
    }
}

/// Whether a converted file is faithful to the picture it came from: at its
/// original resolution and without metadata.
pub open spec fn is_faithful_conversion(
    bytes: Seq<u8>,
    target: Seq<char>,
    file: Seq<u8>,
) -> bool {
    match (target_kind(target), decoded_source(bytes)) {
        (Ok(kind), Ok(source)) => is_faithful(source.picture, kind, source.profile, file),
        _ => false,
    }
}

/// Decode pixels and encode them into the requested format at their original
/// resolution. PNG and WebP preserve alpha; JPEG composites alpha onto white.
pub fn convert(bytes: &[u8], target: &str) -> (result: Result<(Vec<u8>, Vec<Notice>), String>)
    ensures
        told_outcome(result) == converted_image(bytes@, target@),
        match result {
            Ok((file, _)) => is_faithful_conversion(bytes@, target@, file@),
            Err(_) => true,
        },
{
    match target_format(target) {
        Err(error) => Err(error),
        Ok(kind) => match decode(bytes) {
            Err(error) => Err(error),
            Ok(source) => convert_source(&source, kind),
        },
    }
}

/// Convert an image to PNG, JPEG, or lossless WebP, plus every notice the
/// interface must show.
pub fn convert_image(bytes: &[u8], target: &str) -> (result: Result<FileResult, String>)
    ensures
        outcome(result) == converted_image(bytes@, target@),
        match result {
            Ok(result) => is_faithful_conversion(bytes@, target@, result@.0),
            Err(_) => true,
        },
{
    match convert(bytes, target) {
        Ok((bytes, notices)) => Ok(FileResult::new(bytes, notices)),
        Err(error) => Err(error),
    }
}

/// Whether a re-encoded image can be handed out: it shows the expected format and
/// decodes.
pub open spec fn validated(
    guess: Result<Option<ImageKind>, Seq<char>>,
    loads: Result<(), Seq<char>>,
    kind: ImageKind,
) -> Result<(), Seq<char>> {
    match guess {
        Err(error) => Err("Could not validate the re-encoded image: "@ + error),
        Ok(actual) => if actual != Some(kind) {
            Err("The re-encoded image has an unexpected format."@)
        } else {
            match loads {
                Err(error) => Err("Could not validate the re-encoded image: "@ + error),
                Ok(()) => Ok(()),
            }
        },
    }
}

/// Refuse a re-encoded image that does not show the expected format or does not
/// decode.
pub fn validate_encoded_image(bytes: &[u8], kind: ImageKind) -> (result: Result<(), String>)
    ensures
        outcome(result) == validated(guessed_kind(bytes@), loaded(bytes@, kind), kind),
{
    match guess_kind(bytes) {
        Err(error) => Err(joined("Could not validate the re-encoded image: ", error.as_str())),
        Ok(actual) => {
            let expected = match actual {
                Some(actual) => actual == kind,
                None => false,
            };
            if !expected {
                return Err("The re-encoded image has an unexpected format.".to_owned());
            }
            match load_image(bytes, kind) {
                Err(error) => Err(
                    joined("Could not validate the re-encoded image: ", error.as_str()),
                ),
                Ok(()) => Ok(()),
            }
        },
    }
}

/// That the input was handed back.
pub open spec fn returned_unchanged() -> NoticeValue {
    notice(
        "image-returned-unchanged"@,
        "This image is already as small as this tool can make it, so your original file was returned exactly as it was, metadata included."@,
    )
}

/// The notices without those of one code.
pub open spec fn without_code(notices: Seq<NoticeValue>, code: Seq<char>) -> Seq<NoticeValue>
    decreases notices.len(),
{
    if notices.len() == 0 {
        Seq::empty()
    } else {
        let rest = without_code(notices.drop_last(), code);
        if notices.last().code == code {
            rest
        } else {
            rest.push(notices.last())
        }
    }
}

fn drop_code(notices: Vec<Notice>, code: &str) -> (kept: Vec<Notice>)
    ensures
        notice_values(kept@) == without_code(notice_values(notices@), code@),
{
    let ghost values = notice_values(notices@);
    let mut kept: Vec<Notice> = Vec::new();
    assert(notice_values(kept@) =~= Seq::<NoticeValue>::empty());
    let mut i: usize = 0;
    while i < notices.len()
        invariant
            i <= notices@.len(),
            values == notice_values(notices@),
            notice_values(kept@) == without_code(values.take(i as int), code@),
        decreases notices.len() - i,
    {
        assert(values.take(i + 1).drop_last() =~= values.take(i as int));
        assert(values.take(i + 1).last() == notices@[i as int]@);
        if !same_text(notices[i].code, code) {
            let ghost before = notice_values(kept@);
            let copy = Notice::new(notices[i].code, notices[i].message());
            kept.push(copy);
            assert(notice_values(kept@) =~= before.push(copy@));
        }
        i += 1;
    }
    assert(values.take(notices@.len() as int) =~= values);
    kept
}

/// The smaller of a file and its re-encoding. Handing back the input means that
/// none of the work shows in it, and only the notice can say so.
pub open spec fn smaller_image(
    bytes: Seq<u8>,
    encoded: Seq<u8>,
    notices: Seq<NoticeValue>,
) -> (Seq<u8>, Seq<NoticeValue>) {
    if encoded.len() < bytes.len() {
        (encoded, notices)
    } else {
        (
            bytes,
            with_notice(without_code(notices, "image-animation-dropped"@), returned_unchanged()),
        )
    }
}

/// The smaller of a file and its re-encoding.
pub fn pick_smaller(bytes: &[u8], encoded: Vec<u8>, notices: Vec<Notice>) -> (picked: (
    Vec<u8>,
    Vec<Notice>,
))
    ensures
        (picked.0@, notice_values(picked.1@)) == smaller_image(
            bytes@,
            encoded@,
            notice_values(notices@),
        ),
{
    if encoded.len() < bytes.len() {
        return (encoded, notices);
    }
    let mut kept = drop_code(notices, "image-animation-dropped");
    push_notice(
        &mut kept,
        Notice::new(
            "image-returned-unchanged",
            "This image is already as small as this tool can make it, so your original file was returned exactly as it was, metadata included.",
        ),
    );
    (copy_bytes(bytes), kept)
}

/// A re-encoding once it was validated: the smaller of the two files.
pub open spec fn compressed_source(
    bytes: Seq<u8>,
    source: SourceValue,
    quality: u8,
) -> Result<(Seq<u8>, Seq<NoticeValue>), Seq<char>> {
    if source.kind != ImageKind::Jpeg && source.kind != ImageKind::Png {
        Err("Only JPEG and PNG images can be compressed in this version."@)
    } else {
        match still_result(
            source.picture,
            source.kind,
            source.profile,
            quality,
            still_notices(source.animated, "compressed"@),
        ) {
            Err(error) => Err(error),
            Ok((encoded, notices)) => match validated(
                guessed_kind(encoded),
                loaded(encoded, source.kind),
                source.kind,
            ) {
                Err(error) => Err(error),
                Ok(()) => Ok(smaller_image(bytes, encoded, notices)),
            },
        }
    }
}

/// Recompress a decoded JPEG or PNG.
pub fn compress_source(bytes: &[u8], source: &SourceImage, quality: u8) -> (result: Result<
    (Vec<u8>, Vec<Notice>),
    String,
>)
    requires
        source@.is_sound(),
    ensures
        told_outcome(result) == compressed_source(bytes@, source@, quality),
        match result {
            Ok((file, _)) => file@ == bytes@ || is_faithful(
                source@.picture,
                source@.kind,
                source@.profile,
                file@,
            ),
            Err(_) => true,
        },
{
    if source.kind != ImageKind::Jpeg && source.kind != ImageKind::Png {
        return Err("Only JPEG and PNG images can be compressed in this version.".to_owned());
    }
    let notices = start_still(source.animated, "compressed");
    match finish_still(&source.picture, source.kind, profile_of(source), quality, notices) {
        Err(error) => Err(error),
        Ok((encoded, notices)) => match validate_encoded_image(&encoded, source.kind) {
            Err(error) => Err(error),
            Ok(()) => Ok(pick_smaller(bytes, encoded, notices)),
        },
    }
}

/// A JPEG or PNG file recompressed at a quality.
pub open spec fn compressed_image(bytes: Seq<u8>, quality: u8) -> Result<
    (Seq<u8>, Seq<NoticeValue>),
    Seq<char>,
> {
    if quality < 1 || quality > 100 {
        Err("Image quality must be between 1 and 100."@)
    } else {
        match decoded_source(bytes) {
            Err(error) => Err(error),
            Ok(source) => compressed_source(bytes, source, quality),
        }
    }
}

/// Whether a compressed file is the input itself, or faithful to its picture: at
/// its original resolution and without metadata.
pub open spec fn is_faithful_compression(bytes: Seq<u8>, file: Seq<u8>) -> bool {
    file == bytes || match decoded_source(bytes) {
        Ok(source) => is_faithful(source.picture, source.kind, source.profile, file),
        Err(_) => false,
    }
}

/// Recompress JPEG or PNG pixels at their original resolution, verify the encoded
/// image, and preserve the original bytes whenever the re-encode does not reduce
/// size.
pub fn compress(bytes: &[u8], quality: u8) -> (result: Result<(Vec<u8>, Vec<Notice>), String>)
    ensures
        told_outcome(result) == compressed_image(bytes@, quality),
        match result {
            Ok((file, _)) => is_faithful_compression(bytes@, file@),
            Err(_) => true,
        },
{
    if quality < 1 || quality > 100 {
        return Err("Image quality must be between 1 and 100.".to_owned());
    }
    match decode(bytes) {
        Err(error) => Err(error),
        Ok(source) => compress_source(bytes, &source, quality),
    }
}

/// Compress a JPEG or PNG without ever returning more bytes than the input, plus
/// every notice the interface must show.
pub fn compress_image(bytes: &[u8], quality: u8) -> (result: Result<FileResult, String>)
    ensures
        outcome(result) == compressed_image(bytes@, quality),
        match result {
            Ok(result) => is_faithful_compression(bytes@, result@.0),
            Err(_) => true,
        },
{
    match compress(bytes, quality) {
        Ok((bytes, notices)) => Ok(FileResult::new(bytes, notices)),
        Err(error) => Err(error),
    }
}

/// Compressing never returns more bytes than it was given, and when it does not
/// return fewer it returns the very input and says so.
pub proof fn compressing_never_grows(bytes: Seq<u8>, quality: u8)
    ensures
        match compressed_image(bytes, quality) {
            Ok((output, notices)) => output.len() < bytes.len() || (output == bytes && has_code(
                notices,
                "image-returned-unchanged"@,
            )),
            Err(_) => true,
        },
{
    if let Ok(source) = decoded_source(bytes) {
        if let Ok((encoded, notices)) = still_result(
            source.picture,
            source.kind,
            source.profile,
            quality,
            still_notices(source.animated, "compressed"@),
        ) {
            lemma_added(without_code(notices, "image-animation-dropped"@), returned_unchanged());
        }
    }
}

proof fn lemma_added(notices: Seq<NoticeValue>, added: NoticeValue)
    ensures
        has_code(with_notice(notices, added), added.code),
{
    if !has_code(notices, added.code) {
        let all = with_notice(notices, added);
        assert(all[notices.len() as int].code == added.code);
    }
}

} // verus!
