//! Deterministic image transforms.
//!
//! Every transform states what it did. When something cannot be carried through
//! (a colour profile a format cannot hold, animation frames a target format has
//! no room for, bit depth a codec cannot express), it returns a notice instead of
//! quietly changing the picture.

pub mod decode;
pub mod encode;
pub mod laws;
pub mod model;
pub mod outside;
pub mod pdf;
pub mod pdf_laws;
pub mod transform;
pub mod transform_laws;
