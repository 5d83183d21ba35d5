//! Bionic-reading emphasis for e-book markup.
//!
//! The crate rewrites the prose of an HTML-like document while copying its
//! markup and its style and code regions unchanged, and applies that rewrite to
//! every text-bearing entry of a zip container.

pub mod bionic;
pub mod chars;
pub mod epub;
pub mod scan_laws;
pub mod scanner;

pub use bionic::BionicTransformer;
pub use epub::{EpubDocument, EpubError, EpubFailure};
pub use scanner::Transformer;
