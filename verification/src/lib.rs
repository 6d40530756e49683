//! A small directory lister: option parsing, per-entry metadata rendering,
//! column alignment, time sorting, and output assembly, with contracts that
//! pin down each stage of the pipeline.

pub mod entry;
pub mod error;
pub mod human;
pub mod options;
pub mod render;
pub mod sort;
pub mod strutil;
pub mod timefmt;
