//! Guards, exact pixels and notices, and what written files give back.

use std::io::Read;

use flate2::read::ZlibDecoder;
use image::codecs::gif::{GifDecoder, GifEncoder};
use image::{
    AnimationDecoder, Delay, DynamicImage, Frame, GenericImageView, ImageFormat, Rgba, RgbaImage,
};
use localbench_core::images::decode::{
    accept_frames, accept_kind, check_pixels, check_size, decode, decode_gif_frames,
    guard_decoded_dimensions, png_is_animated, webp_is_animated,
};
use localbench_core::images::encode::{
    encode, flatten_alpha_onto_white, push_depth_reduced, push_profile_dropped,
};
use localbench_core::images::model::{
    AnimationFrame, ImageKind, Layout, Picture, Samples, MAX_DECODED_PIXELS,
};
use localbench_core::images::pdf::{
    accept_document, assemble, content_stream, decode_image, deflate_picture, images_to_pdf,
    pass_through, prepare_image, prepare_images, validate_input_limits, PageGeometry, PageMode,
    PreparedImage,
};
use localbench_core::images::transform::{
    compress, compress_image, compress_source, convert, convert_image, convert_source,
    finish_animation, finish_still, open_for_resize, pick_smaller, resize, resize_image,
    resize_target, target_format, validate_encoded_image,
};
use localbench_core::metadata::exif::minimal_orientation_exif;
use localbench_core::metadata::file::{inspect, verify_removed};
use localbench_core::metadata::jpeg::jpeg_segment_bytes;
use localbench_core::notices::Notice;
use localbench_core::pdf::model::{PdfObject, XrefKind};
use localbench_core::pdf::pages::load_pdf;

fn codes(notices: &[Notice]) -> Vec<&'static str> {
    notices.iter().map(Notice::code).collect()
}

fn gray(width: u32, height: u32) -> Picture {
    Picture {
        width,
        height,
        layout: Layout::Luma,
        samples: Samples::Eight((0..width * height).map(|value| (value * 7 % 251) as u8).collect()),
    }
}

fn eight(picture: &Picture) -> Vec<u8> {
    match &picture.samples {
        Samples::Eight(samples) => samples.clone(),
        Samples::Sixteen(_) => panic!("expected 8-bit samples"),
    }
}

fn file(picture: &Picture, kind: ImageKind) -> Vec<u8> {
    encode(picture, kind, 90, None, &mut Vec::new()).expect("the picture should encode")
}

fn gif(frame_count: u8) -> Vec<u8> {
    let mut bytes = Vec::new();
    {
        let mut encoder = GifEncoder::new(&mut bytes);
        for index in 0..frame_count {
            let mut frame = RgbaImage::new(6, 4);
            for pixel in frame.pixels_mut() {
                *pixel = Rgba([index * 30, 10, 200, 255]);
            }
            let delay = Delay::from_numer_denom_ms(100, 1);
            encoder
                .encode_frame(Frame::from_parts(frame, 0, 0, delay))
                .expect("the frame should encode");
        }
    }
    bytes
}

#[test]
fn guards_name_what_they_refuse() {
    assert_eq!(
        guard_decoded_dimensions(0, 4),
        Err("This image has invalid zero-sized dimensions.".to_owned())
    );
    assert_eq!(
        guard_decoded_dimensions(64_000, 1_001),
        Err("This image is too large to decode (maximum 64000000 pixels).".to_owned())
    );
    assert_eq!(MAX_DECODED_PIXELS, 64_000_000);
    assert_eq!(
        check_size(Err("odd".to_owned())),
        Err("Could not read this image's dimensions: odd".to_owned())
    );
    assert_eq!(check_size(Ok((3, 4))), Ok((3, 4)));
    assert_eq!(
        accept_kind(Err("odd".to_owned())),
        Err("Could not determine this image's format: odd".to_owned())
    );
    assert_eq!(
        accept_kind(Ok(None)),
        Err("This image format is unsupported; use JPEG, PNG, GIF, BMP, or WebP.".to_owned())
    );
    assert_eq!(accept_kind(Ok(Some(ImageKind::Bmp))), Ok(ImageKind::Bmp));
    assert_eq!(
        check_pixels(Err("odd".to_owned())).err(),
        Some("Could not decode this image: odd".to_owned())
    );
    assert!(check_pixels(Ok(gray(2, 2))).is_ok());
    assert_eq!(
        accept_frames(Err("odd".to_owned()), 3).err(),
        Some("Could not decode a GIF frame: odd".to_owned())
    );
    let frames = (0..2)
        .map(|_| AnimationFrame { picture: gray(1, 1), delay: (1, 1) })
        .collect::<Vec<_>>();
    assert_eq!(
        accept_frames(Ok(frames), 1).err(),
        Some("This animation has too many frames to process safely.".to_owned())
    );
}

#[test]
fn a_known_format_that_is_not_handled_is_refused() {
    let tiff = b"II*\0\x08\0\0\0";
    assert_eq!(
        decode(tiff).err(),
        Some("This image format is unsupported; use JPEG, PNG, GIF, BMP, or WebP.".to_owned())
    );
}

#[test]
fn transparent_channels_become_white() {
    assert_eq!(
        flatten_alpha_onto_white(&[10, 20, 30, 255, 10, 20, 30, 0, 0, 100, 255, 128]),
        vec![10, 20, 30, 255, 255, 255, 127, 177, 255]
    );
}

#[test]
fn written_files_declare_the_size_of_their_picture() {
    let picture = gray(9, 5);
    for (kind, format) in [
        (ImageKind::Jpeg, ImageFormat::Jpeg),
        (ImageKind::Png, ImageFormat::Png),
        (ImageKind::Gif, ImageFormat::Gif),
        (ImageKind::Bmp, ImageFormat::Bmp),
        (ImageKind::WebP, ImageFormat::WebP),
    ] {
        let bytes = file(&picture, kind);
        assert_eq!(image::guess_format(&bytes).ok(), Some(format));
        let read = image::load_from_memory(&bytes).expect("the file should decode");
        assert_eq!(read.dimensions(), (9, 5));
    }
}

#[test]
fn a_png_gives_back_its_pixels_and_profile() {
    let picture = gray(9, 5);
    let profile = vec![7_u8; 140];
    let bytes = encode(&picture, ImageKind::Png, 90, Some(&profile), &mut Vec::new())
        .expect("the picture should encode");
    let source = decode(&bytes).expect("the file should decode");
    assert_eq!(eight(&source.picture), eight(&picture));
    assert_eq!(source.picture.layout, Layout::Luma);
    assert_eq!(source.profile, Some(profile));
    assert_eq!(source.orientation, 1);
    assert!(!source.animated);
}

#[test]
fn written_jpegs_and_pngs_carry_no_metadata() {
    for kind in [ImageKind::Jpeg, ImageKind::Png] {
        let bytes = file(&gray(20, 10), kind);
        assert!(inspect(&bytes).expect("the file should inspect").ends_with("\"items\":[]}"));
        assert_eq!(verify_removed(&bytes), Ok(()));
    }
}

#[test]
fn formats_say_what_they_cannot_hold() {
    let deep = Picture {
        width: 1,
        height: 1,
        layout: Layout::Rgb,
        samples: Samples::Sixteen(vec![1, 2, 3]),
    };
    assert!(deep.is_sixteen_bit());
    let mut notices = Vec::new();
    encode(&deep, ImageKind::Bmp, 90, Some(&[1]), &mut notices).expect("BMP should encode");
    assert_eq!(
        codes(&notices),
        vec!["image-color-profile-dropped", "image-bit-depth-reduced"]
    );
    push_profile_dropped(&mut notices);
    push_depth_reduced(&mut notices);
    assert_eq!(notices.len(), 2);
    let mut none = Vec::new();
    encode(&deep, ImageKind::Png, 90, Some(&[1]), &mut none).expect("PNG should encode");
    assert!(none.is_empty());
    let mut told = Vec::new();
    encode(&deep, ImageKind::Jpeg, 90, None, &mut told).expect("JPEG should encode");
    assert_eq!(codes(&told), vec!["image-bit-depth-reduced"]);
}

#[test]
fn jpegs_refuse_sides_over_16_bits_and_huge_profiles() {
    let wide = Picture {
        width: 65_536,
        height: 1,
        layout: Layout::Luma,
        samples: Samples::Eight(vec![0; 65_536]),
    };
    let jpeg = |picture: &Picture, profile: Option<&[u8]>| {
        encode(picture, ImageKind::Jpeg, 90, profile, &mut Vec::new()).err()
    };
    assert_eq!(jpeg(&wide, None), Some("This image is too wide to encode as JPEG.".to_owned()));
    let tall = Picture { width: 1, height: 65_536, ..wide };
    assert_eq!(jpeg(&tall, None), Some("This image is too tall to encode as JPEG.".to_owned()));
    let huge = vec![0; 16_641_827];
    assert_eq!(
        jpeg(&gray(1, 1), Some(&huge)),
        Some(
            "Could not keep the colour profile: ICC profile exceeds maximum allowed data length: 16641827"
                .to_owned()
        )
    );
    assert_eq!(jpeg(&gray(1, 1), Some(&huge[1..])), None);
}

#[test]
fn a_size_is_chosen_inside_or_exactly() {
    let picture = gray(80, 40);
    let mut notices = Vec::new();
    assert_eq!(resize_target(&picture, 30, 90, true, (1, 1), &mut notices), (30, 40));
    assert_eq!(resize_target(&picture, 30, 20, false, (1, 1), &mut notices), (30, 20));
    assert!(notices.is_empty());
    assert_eq!(resize_target(&picture, 200, 200, false, (40, 40), &mut notices), (40, 40));
    assert_eq!(
        notices[0].message(),
        "The requested 200x200 is larger than this image, and enlarging would invent detail. It was scaled to 40x40, which keeps the shape you asked for."
    );
}

#[test]
fn a_picture_that_fits_is_left_alone() {
    let bytes = file(&gray(12, 6), ImageKind::Png);
    let source = open_for_resize(&bytes, 50, 50).expect("the file should open");
    let (resized, notices) = resize(&source, 50, 50, true, (12, 6)).expect("it should resize");
    assert!(notices.is_empty());
    let read = decode(&resized).expect("the file should decode");
    assert_eq!(eight(&read.picture), eight(&source.picture));
    let told = resize_image(&source, 50, 50, true, (12, 6)).expect("it should resize");
    assert_eq!(told.bytes(), resized);
    assert_eq!(
        open_for_resize(&bytes, 0, 50).err(),
        Some("Resize width and height must both be greater than zero.".to_owned())
    );
}

#[test]
fn animations_are_read_and_rebuilt_frame_by_frame() {
    let bytes = gif(3);
    let frames = decode_gif_frames(&bytes, 6, 4).expect("the frames should decode");
    assert_eq!(frames.len(), 3);
    assert_eq!((frames[0].picture.width, frames[0].picture.height), (6, 4));
    let (rebuilt, notices) = finish_animation(&frames, Vec::new()).expect("it should encode");
    assert_eq!(
        notices[0].message(),
        "All 3 frames of this animation were kept, and its colours were re-selected frame by frame, which can shift them slightly."
    );
    let read = GifDecoder::new(std::io::Cursor::new(&rebuilt))
        .expect("the file should open")
        .into_frames()
        .collect_frames()
        .expect("the frames should decode");
    assert_eq!(read.len(), 3);
    assert!(decode_gif_frames(b"GIF", 6, 4)
        .err()
        .expect("a truncated GIF must fail")
        .starts_with("Could not read this GIF: "));
    let source = decode(&bytes).expect("the file should decode");
    assert!(source.animated);
    assert_eq!(source.frames.map(|frames| frames.len()), Some(3));
    assert!(!decode(&gif(1)).expect("one frame should decode").animated);
}

#[test]
fn an_animation_control_chunk_marks_an_animated_png() {
    let still = file(&gray(2, 2), ImageKind::Png);
    assert!(!png_is_animated(&still));
    let mut animated = still[..33].to_vec();
    animated.extend_from_slice(b"\0\0\0\x08acTL\0\0\0\x02\0\0\0\0");
    animated.extend_from_slice(&localbench_core::checksum::crc32(b"acTL\0\0\0\x02\0\0\0\0").to_be_bytes());
    animated.extend_from_slice(&still[33..]);
    assert!(png_is_animated(&animated));
    let (_, notices) = convert(&animated, "jpeg").expect("it should convert");
    assert!(codes(&notices).contains(&"image-animation-dropped"));
}

fn riff(kind: &[u8; 4], data: &[u8]) -> Vec<u8> {
    let mut bytes = kind.to_vec();
    bytes.extend_from_slice(&(data.len() as u32).to_le_bytes());
    bytes.extend_from_slice(data);
    if data.len() % 2 == 1 {
        bytes.push(0);
    }
    bytes
}

fn webp(frame_count: usize, flags: u8) -> Vec<u8> {
    let still = file(&gray(2, 2), ImageKind::WebP);
    let mut frame = vec![0, 0, 0, 0, 0, 0, 1, 0, 0, 1, 0, 0, 100, 0, 0, 0];
    frame.extend_from_slice(&still[12..]);
    let mut content = b"WEBP".to_vec();
    content.extend(riff(b"VP8X", &[flags, 0, 0, 0, 1, 0, 0, 1, 0, 0]));
    content.extend(riff(b"ANIM", &[0; 6]));
    for _ in 0..frame_count {
        content.extend(riff(b"ANMF", &frame));
    }
    riff(b"RIFF", &content)
}

#[test]
fn a_webp_with_several_frames_is_animated() {
    assert!(webp_is_animated(&webp(2, 2)));
    assert!(!webp_is_animated(&webp(1, 2)));
    assert!(!webp_is_animated(&webp(2, 0)));
    assert!(!webp_is_animated(&file(&gray(2, 2), ImageKind::WebP)));
    assert!(!webp_is_animated(b"RIFF"));
    let source = decode(&webp(2, 2)).expect("the first frame should decode");
    assert!(source.animated);
    assert!(source.frames.is_none());
    let (_, notices) = convert(&webp(2, 2), "png").expect("it should convert");
    assert!(codes(&notices).contains(&"image-animation-dropped"));
    let (_, notices) = convert(&webp(1, 2), "png").expect("it should convert");
    assert!(!codes(&notices).contains(&"image-animation-dropped"));
}

#[test]
fn an_oriented_jpeg_goes_into_a_pdf_without_its_exif_block() {
    let plain = file(&gray(8, 8), ImageKind::Jpeg);
    let mut turned = plain[..2].to_vec();
    turned.extend(jpeg_segment_bytes(0xe1, &minimal_orientation_exif(6)));
    turned.extend_from_slice(&plain[2..]);
    let passed = pass_through(&turned).expect("a baseline JPEG should pass");
    let kept = pass_through(&plain).expect("a baseline JPEG should pass");
    assert_eq!(passed.content, kept.content);
    assert!(!passed.content.windows(4).any(|window| window == b"Exif"));
    assert_eq!(
        inspect(&passed.content),
        Ok("{\"kind\":\"jpeg\",\"items\":[]}".to_owned())
    );
}

#[test]
fn conversions_go_to_three_formats() {
    assert_eq!(target_format("png"), Ok(ImageKind::Png));
    assert_eq!(target_format("jpeg"), Ok(ImageKind::Jpeg));
    assert_eq!(target_format("webp"), Ok(ImageKind::WebP));
    assert_eq!(
        target_format("gif"),
        Err("Target format must be \"png\", \"jpeg\", or \"webp\".".to_owned())
    );
    let bytes = file(&gray(4, 3), ImageKind::Bmp);
    let source = decode(&bytes).expect("the file should decode");
    let (direct, _) = convert_source(&source, ImageKind::Png).expect("it should convert");
    let (whole, _) = convert(&bytes, "png").expect("it should convert");
    assert_eq!(direct, whole);
    assert_eq!(convert_image(&bytes, "png").expect("it should convert").bytes(), whole);
    let (still, _) = finish_still(&source.picture, ImageKind::Png, None, 90, Vec::new())
        .expect("it should encode");
    assert_eq!(still, whole);
}

#[test]
fn compression_keeps_the_smaller_file() {
    let (kept, notices) = pick_smaller(b"four", b"much longer".to_vec(), Vec::new());
    assert_eq!(kept, b"four");
    assert_eq!(codes(&notices), vec!["image-returned-unchanged"]);
    let dropped = vec![Notice::new("image-animation-dropped", "Gone.")];
    let (_, notices) = pick_smaller(b"four", b"four".to_vec(), dropped);
    assert_eq!(codes(&notices), vec!["image-returned-unchanged"]);
    let (small, notices) = pick_smaller(b"four", b"two".to_vec(), Vec::new());
    assert_eq!(small, b"two");
    assert!(notices.is_empty());
}

#[test]
fn compression_names_what_it_refuses() {
    let png = file(&gray(4, 4), ImageKind::Png);
    let bmp = file(&gray(4, 4), ImageKind::Bmp);
    let quality = Some("Image quality must be between 1 and 100.".to_owned());
    assert_eq!(compress(&png, 0).err(), quality);
    assert_eq!(compress(&png, 101).err(), quality);
    assert_eq!(compress_image(&png, 0).err(), quality);
    assert_eq!(
        compress(&bmp, 50).err(),
        Some("Only JPEG and PNG images can be compressed in this version.".to_owned())
    );
    let source = decode(&png).expect("the file should decode");
    let direct = compress_source(&png, &source, 50).expect("it should compress");
    assert_eq!(direct.0, compress(&png, 50).expect("it should compress").0);
    assert!(direct.0.len() <= png.len());
}

#[test]
fn encoded_files_are_validated() {
    let png = file(&gray(4, 4), ImageKind::Png);
    assert_eq!(validate_encoded_image(&png, ImageKind::Png), Ok(()));
    assert_eq!(
        validate_encoded_image(&png, ImageKind::Jpeg),
        Err("The re-encoded image has an unexpected format.".to_owned())
    );
    for broken in [b"nothing".as_slice(), &png[..40]] {
        assert!(validate_encoded_image(broken, ImageKind::Png)
            .expect_err("a broken file must fail")
            .starts_with("Could not validate the re-encoded image: "));
    }
}

fn tagged_png(picture: &Picture, orientation: u8) -> Vec<u8> {
    let png = file(picture, ImageKind::Png);
    let mut exif = b"II*\0\x08\0\0\0\x01\0\x12\x01\x03\0\x01\0\0\0".to_vec();
    exif.extend_from_slice(&[orientation, 0, 0, 0, 0, 0, 0, 0]);
    let mut named = b"eXIf".to_vec();
    named.extend_from_slice(&exif);
    let mut tagged = png[..33].to_vec();
    tagged.extend_from_slice(&(exif.len() as u32).to_be_bytes());
    tagged.extend_from_slice(&named);
    tagged.extend_from_slice(&localbench_core::checksum::crc32(&named).to_be_bytes());
    tagged.extend_from_slice(&png[33..]);
    tagged
}

#[test]
fn an_exif_orientation_turns_the_pixels() {
    let picture = Picture {
        width: 3,
        height: 2,
        layout: Layout::LumaAlpha,
        samples: Samples::Eight(vec![1, 91, 2, 92, 3, 93, 4, 94, 5, 95, 6, 96]),
    };
    let expected: [[u8; 6]; 8] = [
        [1, 2, 3, 4, 5, 6],
        [3, 2, 1, 6, 5, 4],
        [6, 5, 4, 3, 2, 1],
        [4, 5, 6, 1, 2, 3],
        [1, 4, 2, 5, 3, 6],
        [4, 1, 5, 2, 6, 3],
        [6, 3, 5, 2, 4, 1],
        [3, 6, 2, 5, 1, 4],
    ];
    for (orientation, luma) in (1_u8..).zip(expected) {
        let source =
            decode(&tagged_png(&picture, orientation)).expect("the file should decode");
        assert_eq!(source.orientation, orientation);
        let size = if orientation <= 4 { (3, 2) } else { (2, 3) };
        assert_eq!((source.picture.width, source.picture.height), size);
        assert_eq!(source.picture.layout, Layout::LumaAlpha);
        let both = luma.iter().flat_map(|value| [*value, value + 90]).collect::<Vec<_>>();
        assert_eq!(eight(&source.picture), both, "orientation {orientation}");
    }
}

#[test]
fn pictures_become_8_bit_rgba_in_a_bmp_and_in_a_webp() {
    let cases = [
        (Layout::Luma, vec![0, 128, 65_535], vec![0, 0, 0, 255, 0, 0, 0, 255, 255, 255, 255, 255]),
        (
            Layout::LumaAlpha,
            vec![129, 385, 386, 65_535, 257, 0],
            vec![1, 1, 1, 1, 2, 2, 2, 255, 1, 1, 1, 0],
        ),
        (
            Layout::Rgb,
            vec![257, 514, 771, 129, 128, 65_406, 65_407, 0, 1],
            vec![1, 2, 3, 255, 1, 0, 254, 255, 255, 0, 0, 255],
        ),
        (
            Layout::Rgba,
            vec![257, 514, 771, 129, 128, 65_406, 65_407, 0, 1, 2, 3, 65_535],
            vec![1, 2, 3, 1, 0, 254, 255, 0, 0, 0, 0, 255],
        ),
    ];
    for (layout, samples, rgba) in cases {
        let deep =
            Picture { width: 3, height: 1, layout, samples: Samples::Sixteen(samples.clone()) };
        let shallow = Picture {
            width: 3,
            height: 1,
            layout,
            samples: Samples::Eight(samples.iter().map(|value| (value / 257) as u8).collect()),
        };
        for kind in [ImageKind::Bmp, ImageKind::WebP] {
            let source = decode(&file(&deep, kind)).expect("the file should decode");
            assert_eq!(source.picture.layout, Layout::Rgba);
            assert_eq!(eight(&source.picture), rgba, "{layout:?}");
            let again = decode(&file(&shallow, kind)).expect("the file should decode");
            let first = eight(&again.picture)[0];
            assert_eq!(u16::from(first), samples[0] / 257);
        }
    }
}

#[test]
fn jpegs_and_webps_give_back_the_profile() {
    let profile = (0..70_001_u32).map(|value| (value % 251) as u8).collect::<Vec<_>>();
    for kind in [ImageKind::Jpeg, ImageKind::WebP] {
        let bytes = encode(&gray(4, 3), kind, 90, Some(&profile), &mut Vec::new())
            .expect("the picture should encode");
        let source = decode(&bytes).expect("the file should decode");
        assert_eq!(source.profile.as_ref(), Some(&profile));
    }
}

fn place() -> PageGeometry {
    PageGeometry {
        page_width: "10".to_owned(),
        page_height: "20".to_owned(),
        draw_width: "1.5".to_owned(),
        draw_height: "2".to_owned(),
        offset_x: "3".to_owned(),
        offset_y: "4".to_owned(),
    }
}

#[test]
fn a_page_draws_its_image_in_place() {
    assert_eq!(content_stream(&place()), b"q\n1.5 0 0 2 3 4 cm\n/Im0 Do\nQ");
    assert_eq!(PageMode::from_public("a4").fixed_dimensions(), Some((595, 842)));
    assert_eq!(PageMode::from_public("letter").fixed_dimensions(), Some((612, 792)));
    assert_eq!(PageMode::from_public("fit").fixed_dimensions(), None);
}

#[test]
fn an_image_document_numbers_its_objects_in_order() {
    let image = PreparedImage {
        width: 1,
        height: 1,
        color_space: "DeviceGray",
        filter: "FlateDecode",
        content: vec![1, 2, 3],
    };
    let document = assemble(&vec![image], &vec![place()]);
    assert_eq!(document.version, "1.5");
    assert_eq!(document.max_id, 5);
    assert!(document.xref == XrefKind::Stream);
    let ids = document.objects.iter().map(|(id, _)| id.0).collect::<Vec<_>>();
    assert_eq!(ids, vec![1, 2, 3, 4, 5]);
    let PdfObject::Stream(stored) = &document.objects[1].1 else {
        panic!("the second object should be the image");
    };
    assert_eq!(stored.content, vec![1, 2, 3]);
    assert!(stored.dict.name_is("ColorSpace", "DeviceGray"));
    assert_eq!(document.trailer.reference("Root"), Some((5, 0)));
}

#[test]
fn a_written_image_pdf_is_read_again() {
    let error = |parsed, found| accept_document(vec![1], &parsed, found, 1).err();
    assert_eq!(
        error(Err("odd".to_owned()), 0),
        Some("Could not validate the image PDF: odd".to_owned())
    );
    let bytes = images_to_pdf(
        &prepare_images(&vec![file(&gray(3, 2), ImageKind::Png)]).expect("it should prepare"),
        &vec![place()],
    )
    .expect("it should build");
    assert_eq!(
        error(load_pdf(&bytes), 2),
        Some("Could not validate every page in the image PDF.".to_owned())
    );
    let mut informed = load_pdf(&bytes).expect("it should load");
    informed.trailer.set("Info", PdfObject::Null);
    assert_eq!(
        error(Ok(informed), 1),
        Some("Could not create a metadata-clean image PDF.".to_owned())
    );
}

#[test]
fn selections_are_limited_before_decoding() {
    assert_eq!(
        validate_input_limits(&Vec::new()),
        Err("Choose at least one image to combine.".to_owned())
    );
    assert_eq!(
        validate_input_limits(&vec![Vec::new(); 501]),
        Err("Choose no more than 500 images at a time.".to_owned())
    );
    assert_eq!(validate_input_limits(&vec![Vec::new(); 500]), Ok(()));
}

#[test]
fn baseline_jpegs_pass_through_and_others_are_deflated() {
    let jpeg = file(&gray(8, 8), ImageKind::Jpeg);
    let passed = pass_through(&jpeg).expect("a baseline JPEG should pass");
    assert_eq!((passed.width, passed.height), (8, 8));
    assert_eq!((passed.color_space, passed.filter), ("DeviceRGB", "DCTDecode"));
    assert_eq!(verify_removed(&passed.content), Ok(()));
    let png = file(&gray(2, 1), ImageKind::Png);
    assert!(pass_through(&png).is_none());
    let prepared = prepare_image(&png).expect("it should prepare");
    assert_eq!((prepared.color_space, prepared.filter), ("DeviceRGB", "FlateDecode"));
    let mut pixels = Vec::new();
    ZlibDecoder::new(prepared.content.as_slice())
        .read_to_end(&mut pixels)
        .expect("it should inflate");
    assert_eq!(pixels, vec![0, 0, 0, 7, 7, 7]);
    let direct = deflate_picture(2, 1, &[0, 0, 0, 255, 7, 7, 7, 255]).expect("it should deflate");
    assert_eq!(direct.content, prepared.content);
    assert_eq!(decode_image(&png).map(|picture| picture.width).ok(), Some(2));
}

#[test]
fn a_palette_image_reads_as_the_image_crate_reads_it() {
    let bytes = gif(1);
    let read = image::load_from_memory(&bytes).expect("it should decode");
    let source = decode(&bytes).expect("it should decode");
    let DynamicImage::ImageRgba8(expected) = read else {
        panic!("a GIF decodes to RGBA");
    };
    assert_eq!(eight(&source.picture), expected.into_raw());
}
