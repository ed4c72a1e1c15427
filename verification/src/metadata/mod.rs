//! Lossless metadata inspection and removal for PDF, JPEG, and PNG files.
//!
//! JPEG APP/COM segments and PNG ancillary chunks are removed by copying the
//! original byte ranges around them. Pixel data is never decoded or re-encoded:
//! JPEG scan data and PNG IDAT chunks remain byte-for-byte identical.
//!
//! Both image walkers drop and report anything they do not positively recognise
//! as affecting how the file decodes or renders. Every scrub is checked by a
//! structural walk of its output that shares nothing with the reporting layer.

pub mod exif;
pub mod exif_laws;
pub mod file;
pub mod item;
pub mod jpeg;
pub mod jpeg_check;
pub mod jpeg_laws;
pub mod pdf_check;
pub mod pdf_report;
pub mod pdf_scrub;
pub mod png;
pub mod png_check;
pub mod png_laws;
pub mod report_laws;
pub mod scrub_laws;
pub mod xmp;
