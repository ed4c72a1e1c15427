//! Reading text from images.

use localbench_core::images::decode::guard_decoded_dimensions;
use localbench_core::images::model::ImageKind;
use localbench_core::ocr::engine::{
    tell_answer, validate_model_blob, EngineSlot, LoadStep, ReadFailure,
};
use localbench_core::ocr::input::{accept_readable, decode_image};

fn refusal(step: LoadStep) -> Option<String> {
    match step {
        LoadStep::Refuse(error) => Some(error),
        _ => None,
    }
}

#[test]
fn engine_is_not_ready_before_load() {
    assert!(!EngineSlot::new().engine_ready());
}

#[test]
fn run_ocr_rejects_garbage_without_panicking() {
    let error = EngineSlot::new()
        .run_ocr(b"not an image")
        .err()
        .expect("garbage must be rejected");
    assert!(error.contains("format"));
}

#[test]
fn decoded_pixel_guard_rejects_oversized_dimensions() {
    let error = guard_decoded_dimensions(8_001, 8_000)
        .expect_err("more than 64 million pixels must be rejected");
    assert!(error.contains("too large"));
    assert!(guard_decoded_dimensions(8_000, 8_000).is_ok());
}

#[test]
fn empty_model_blob_is_rejected_without_replacing_engine() {
    let slot = EngineSlot::new();
    let error = refusal(slot.begin_load(&[], &[1])).expect("empty model must be rejected");
    assert!(error.contains("detection model is empty"));
    assert!(!slot.engine_ready());
}

#[test]
fn models_are_limited_and_named() {
    assert_eq!(
        validate_model_blob("detection", &[]),
        Err("The detection model is empty.".to_owned())
    );
    assert_eq!(
        validate_model_blob("recognition", &vec![0; 33_554_433]),
        Err("The recognition model is too large (maximum 32 MiB).".to_owned())
    );
    assert_eq!(validate_model_blob("detection", &[1]), Ok(()));
    let slot = EngineSlot::new();
    assert_eq!(
        refusal(slot.begin_load(&[1], &[])).as_deref(),
        Some("The recognition model is empty.")
    );
    assert!(matches!(slot.begin_load(&[1], &[1]), LoadStep::LoadDetection));
}

#[test]
fn loading_goes_step_by_step_and_a_failure_keeps_the_engine() {
    let mut slot = EngineSlot::new();
    for (step, sentence) in [
        (LoadStep::LoadDetection, "Could not load the detection model: odd"),
        (LoadStep::LoadRecognition, "Could not load the recognition model: odd"),
        (LoadStep::BuildEngine, "Could not build the OCR engine: odd"),
    ] {
        let next = slot.load_engine(step, Err("odd".to_owned()));
        assert_eq!(refusal(next).as_deref(), Some(sentence));
        assert!(!slot.engine_ready());
    }
    let step = slot.begin_load(&[1], &[1]);
    let step = slot.load_engine(step, Ok(()));
    assert!(matches!(step, LoadStep::LoadRecognition));
    let step = slot.load_engine(step, Ok(()));
    assert!(matches!(step, LoadStep::BuildEngine));
    assert!(!slot.engine_ready());
    let step = slot.load_engine(step, Ok(()));
    assert!(matches!(step, LoadStep::Finish));
    assert!(slot.engine_ready());
    let next = slot.load_engine(LoadStep::BuildEngine, Err("odd".to_owned()));
    assert!(refusal(next).is_some());
    assert!(slot.engine_ready(), "a failed attempt preserves a working engine");
}

#[test]
fn an_image_is_decoded_before_the_engine_is_asked() {
    let mut bmp = Vec::new();
    image::codecs::bmp::BmpEncoder::new(&mut bmp)
        .encode(&[1, 2, 3, 4, 5, 6], 2, 1, image::ExtendedColorType::Rgb8)
        .expect("the fixture should encode");
    let pixels = decode_image(&bmp).expect("the image should decode");
    assert_eq!((pixels.width, pixels.height), (2, 1));
    assert_eq!(pixels.samples, vec![1, 2, 3, 4, 5, 6]);
    assert_eq!(
        EngineSlot::new().run_ocr(&bmp).err().as_deref(),
        Some("The OCR engine is not loaded.")
    );
    let asked = EngineSlot { ready: true }.run_ocr(&bmp).expect("the engine should be asked");
    assert_eq!(asked.samples, pixels.samples);
    assert_eq!(decode_image(b"").err(), Some("The image is empty.".to_owned()));
    assert_eq!(
        decode_image(&vec![0; 67_108_865]).err(),
        Some("The encoded image is too large (maximum 64 MiB).".to_owned())
    );
    assert_eq!(
        decode_image(b"II*\0\x08\0\0\0").err(),
        Some("This image format is unsupported; use JPEG, PNG, WebP, GIF, or BMP.".to_owned())
    );
    assert_eq!(accept_readable(Ok(Some(ImageKind::WebP))), Ok(ImageKind::WebP));
}

#[test]
fn answers_are_told() {
    assert_eq!(tell_answer(Ok("text".to_owned())), Ok("text".to_owned()));
    for (failure, sentence) in [
        (ReadFailure::Pixels("odd".to_owned()), "Could not prepare the image pixels: odd"),
        (ReadFailure::Input("odd".to_owned()), "Could not prepare the image for OCR: odd"),
        (ReadFailure::Text("odd".to_owned()), "OCR failed: odd"),
    ] {
        assert_eq!(tell_answer(Err(failure)), Err(sentence.to_owned()));
    }
}
