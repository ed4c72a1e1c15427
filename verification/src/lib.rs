//! Local, deterministic file tools: PDF, image, ZIP and metadata operations.

pub mod archive;
pub mod bytes;
pub mod checksum;
pub mod encoding;
pub mod images;
pub mod inflate;
pub mod metadata;
pub mod notices;
pub mod ocr;
pub mod pdf;
pub mod text;
pub mod text_laws;
pub mod version;
