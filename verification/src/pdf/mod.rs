//! PDF documents as plain values, and the operations on them.

pub mod catalog;
pub mod catalog_laws;
pub mod compress;
pub mod compress_laws;
pub mod counts;
pub mod form_laws;
pub mod forms;
pub mod label_laws;
pub mod laws;
pub mod merge;
pub mod merge_laws;
pub mod model;
pub mod name_laws;
pub mod organize;
pub mod organize_laws;
pub mod outline_laws;
pub mod outlines;
pub mod output_laws;
pub mod outside;
pub mod page_laws;
pub mod pages;
pub mod rearrange_laws;
pub mod tree_laws;
pub mod trees;
