//! Build a sparse feature x cell count matrix from a stream of genomic
//! fragment records.
//!
//! The library parses a region (BED) file into per-chromosome interval
//! indexes, resolves each fragment's two endpoints against the index of its
//! chromosome with a monotone cursor, accumulates weighted counts per
//! (feature row, barcode column), and serializes the result in Matrix Market
//! coordinate text form. All input and output here is plain bytes; reading,
//! decompression, compression and writing belong to the surrounding
//! application.

pub mod agg;
pub mod builder;
pub mod cells;
pub mod index;
pub mod laws;
pub mod matrix;
pub mod mmwrite;
pub mod parse;
pub mod registry;
