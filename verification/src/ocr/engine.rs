//! The engine's place: the steps of loading one, and what is asked of it.

use vstd::prelude::*;

use crate::images::decode::guarded_size;
use crate::ocr::input::{decode_image, readable_pixels, RgbPixels, RgbValue};
use crate::text::{joined, outcome};

verus! {

/// The most bytes that a model may have.
pub const MAX_MODEL_BYTES: usize = 33_554_432;

/// Whether a model blob may be loaded.
pub open spec fn accepted_blob(name: Seq<char>, length: nat) -> Result<(), Seq<char>> {
    if length == 0 {
        Err("The "@ + name + " model is empty."@)
    } else if length > MAX_MODEL_BYTES {
        Err("The "@ + name + " model is too large (maximum 32 MiB)."@)
    } else {
        Ok(())
    }
}

/// Refuse an empty model blob, and one that is too large.
pub fn validate_model_blob(name: &str, bytes: &[u8]) -> (result: Result<(), String>)
    ensures
        outcome(result) == accepted_blob(name@, bytes@.len()),
{
    if bytes.len() == 0 {
        let mut text = joined("The ", name);
        text.append(" model is empty.");
        return Err(text);
    }
    if bytes.len() > MAX_MODEL_BYTES {
        let mut text = joined("The ", name);
        text.append(" model is too large (maximum 32 MiB).");
        return Err(text);
    }
    Ok(())
}

/// What is to be done next with two model blobs.
pub enum LoadStep {
    /// Load the detection model.
    LoadDetection,
    /// Load the recognition model.
    LoadRecognition,
    /// Build an engine from the two models.
    BuildEngine,
    /// Put the engine in place.
    Finish,
    /// Stop, and keep the engine that is in place.
    Refuse(String),
}

/// The value of a step.
pub enum StepValue {
    LoadDetection,
    LoadRecognition,
    BuildEngine,
    Finish,
    Refuse(Seq<char>),
}

impl View for LoadStep {
    type V = StepValue;

    open spec fn view(&self) -> StepValue {
        match self {
            LoadStep::LoadDetection => StepValue::LoadDetection,
            LoadStep::LoadRecognition => StepValue::LoadRecognition,
            LoadStep::BuildEngine => StepValue::BuildEngine,
            LoadStep::Finish => StepValue::Finish,
            LoadStep::Refuse(error) => StepValue::Refuse(error@),
        }
    }
}

/// The first step with two model blobs: both must have a size that can be loaded.
pub open spec fn first_step(detection: nat, recognition: nat) -> StepValue {
    match accepted_blob("detection"@, detection) {
        Err(error) => StepValue::Refuse(error),
        Ok(()) => match accepted_blob("recognition"@, recognition) {
            Err(error) => StepValue::Refuse(error),
            Ok(()) => StepValue::LoadDetection,
        },
    }
}

/// The step after one that was done, with what came of it.
pub open spec fn following_step(step: StepValue, done: Result<(), Seq<char>>) -> StepValue {
    match (step, done) {
        (StepValue::LoadDetection, Ok(())) => StepValue::LoadRecognition,
        (StepValue::LoadDetection, Err(error)) => StepValue::Refuse(
            "Could not load the detection model: "@ + error,
        ),
        (StepValue::LoadRecognition, Ok(())) => StepValue::BuildEngine,
        (StepValue::LoadRecognition, Err(error)) => StepValue::Refuse(
            "Could not load the recognition model: "@ + error,
        ),
        (StepValue::BuildEngine, Ok(())) => StepValue::Finish,
        (StepValue::BuildEngine, Err(error)) => StepValue::Refuse(
            "Could not build the OCR engine: "@ + error,
        ),
        (other, _) => other,
    }
}

/// Whether an engine is in place, and what may be done with it.
pub struct EngineSlot {
    pub ready: bool,
}

impl EngineSlot {
    /// A place without an engine.
    pub fn new() -> (slot: EngineSlot)
        ensures
            !slot.ready,
    {
        EngineSlot { ready: false }
    }

    /// Whether an engine is loaded.
    pub fn engine_ready(&self) -> (ready: bool)
        ensures
            ready == self.ready,
    {
        self.ready
    }

    /// Begin to load an engine from a detection and a recognition model.
    pub fn begin_load(&self, detection: &[u8], recognition: &[u8]) -> (step: LoadStep)
        ensures
            step@ == first_step(detection@.len(), recognition@.len()),
    {
        match validate_model_blob("detection", detection) {
            Err(error) => {
                return LoadStep::Refuse(error);
            },
            Ok(()) => {},
        }
        match validate_model_blob("recognition", recognition) {
            Err(error) => LoadStep::Refuse(error),
            Ok(()) => LoadStep::LoadDetection,
        }
    }

    /// Go on once a step was done, with what came of it. The engine in place is
    /// replaced only after both models and the new engine are valid: a failed attempt
    /// preserves a working engine.
    pub fn load_engine(&mut self, step: LoadStep, done: Result<(), String>) -> (next: LoadStep)
        ensures
            next@ == following_step(step@, outcome(done)),
            final(self).ready == (old(self).ready || next@ == StepValue::Finish),
    {
        let next = match (step, done) {
            (LoadStep::LoadDetection, Ok(())) => LoadStep::LoadRecognition,
            (LoadStep::LoadDetection, Err(error)) => LoadStep::Refuse(
                joined("Could not load the detection model: ", error.as_str()),
            ),
            (LoadStep::LoadRecognition, Ok(())) => LoadStep::BuildEngine,
            (LoadStep::LoadRecognition, Err(error)) => LoadStep::Refuse(
                joined("Could not load the recognition model: ", error.as_str()),
            ),
            (LoadStep::BuildEngine, Ok(())) => LoadStep::Finish,
            (LoadStep::BuildEngine, Err(error)) => LoadStep::Refuse(
                joined("Could not build the OCR engine: ", error.as_str()),
            ),
            (other, _) => other,
        };
        if let LoadStep::Finish = next {
            self.ready = true;
        }
        next
    }

    /// The samples that an engine is to read an image's text from, or why it is not
    /// asked: the image does not decode, or no engine is in place.
    pub fn run_ocr(&self, image: &[u8]) -> (pixels: Result<RgbPixels, String>)
        ensures
            outcome(pixels) == asked_pixels(image@, self.ready),
            match pixels {
                Ok(pixels) => guarded_size(pixels.width, pixels.height) is Ok
                    && pixels.samples@.len() == pixels.width * pixels.height * 3,
                Err(_) => true,
            },
    {
        match decode_image(image) {
            Err(error) => Err(error),
            Ok(pixels) => if self.ready {
                Ok(pixels)
            } else {
                Err("The OCR engine is not loaded.".to_owned())
            },
        }
    }
}

/// The samples that an engine is to read an image's text from, or why it is not asked.
pub open spec fn asked_pixels(image: Seq<u8>, ready: bool) -> Result<RgbValue, Seq<char>> {
    match readable_pixels(image) {
        Err(error) => Err(error),
        Ok(pixels) => if ready {
            Ok(pixels)
        } else {
            Err("The OCR engine is not loaded."@)
        },
    }
}

/// Where reading text failed, and why.
pub enum ReadFailure {
    /// The samples were not taken.
    Pixels(String),
    /// The engine did not prepare them.
    Input(String),
    /// The engine did not read them.
    Text(String),
}

/// The value of a failure.
pub enum ReadFailureValue {
    Pixels(Seq<char>),
    Input(Seq<char>),
    Text(Seq<char>),
}

impl View for ReadFailure {
    type V = ReadFailureValue;

    open spec fn view(&self) -> ReadFailureValue {
        match self {
            ReadFailure::Pixels(error) => ReadFailureValue::Pixels(error@),
            ReadFailure::Input(error) => ReadFailureValue::Input(error@),
            ReadFailure::Text(error) => ReadFailureValue::Text(error@),
        }
    }
}

/// An engine's answer by its value.
pub open spec fn answer_outcome(answer: Result<String, ReadFailure>) -> Result<
    Seq<char>,
    ReadFailureValue,
> {
    match answer {
        Ok(text) => Ok(text@),
        Err(failure) => Err(failure@),
    }
}

/// What an engine's answer is told as.
pub open spec fn told_answer(answer: Result<Seq<char>, ReadFailureValue>) -> Result<
    Seq<char>,
    Seq<char>,
> {
    match answer {
        Ok(text) => Ok(text),
        Err(ReadFailureValue::Pixels(error)) => Err(
            "Could not prepare the image pixels: "@ + error,
        ),
        Err(ReadFailureValue::Input(error)) => Err(
            "Could not prepare the image for OCR: "@ + error,
        ),
        Err(ReadFailureValue::Text(error)) => Err("OCR failed: "@ + error),
    }
}

/// What an engine's answer is told as.
pub fn tell_answer(answer: Result<String, ReadFailure>) -> (text: Result<String, String>)
    ensures
        outcome(text) == told_answer(answer_outcome(answer)),
{
    match answer {
        Ok(text) => Ok(text),
        Err(ReadFailure::Pixels(error)) => Err(
            joined("Could not prepare the image pixels: ", error.as_str()),
        ),
        Err(ReadFailure::Input(error)) => Err(
            joined("Could not prepare the image for OCR: ", error.as_str()),
        ),
        Err(ReadFailure::Text(error)) => Err(joined("OCR failed: ", error.as_str())),
    }
}

/// Loading asks for the detection model, the recognition model and the engine in this
/// order, each once the one before succeeded, and only then puts the engine in place.
pub proof fn loading_goes_in_order(
    detection: nat,
    recognition: nat,
    first: Result<(), Seq<char>>,
    second: Result<(), Seq<char>>,
    third: Result<(), Seq<char>>,
)
    requires
        0 < detection <= MAX_MODEL_BYTES,
        0 < recognition <= MAX_MODEL_BYTES,
    ensures
        ({
            let step = first_step(detection, recognition);
            let last = following_step(following_step(following_step(step, first), second), third);
            &&& step == StepValue::LoadDetection
            &&& last == StepValue::Finish <==> first is Ok && second is Ok && third is Ok
            &&& last != StepValue::Finish ==> last is Refuse
        }),
{
}

} // verus!
