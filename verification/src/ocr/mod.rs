//! Reading text from a picture with models that the caller supplies.
//!
//! A model is a program of the caller's: nothing tells beforehand what it answers, nor
//! whether running it ends. So the engine stands outside, and this is what goes into
//! it, what is decided between its steps, and what its answers are told as.

pub mod engine;
pub mod input;
