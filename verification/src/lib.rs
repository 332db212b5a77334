//! Locally recoverable data-availability sampling: validated code parameters,
//! erasure patterns, polynomial arithmetic over the BLS12-381 scalar field and a
//! finite-field specification checker for the encoding.
#![allow(unused_imports)]

pub mod error;

pub use error::{Error, Result};
pub mod collector;
pub mod decoder;
pub mod domain;
pub mod fast_polynomial;
pub mod product_tree;
pub mod field;
pub mod fixture;

pub mod kzg;
pub mod paper_checks;
pub mod polynomial;
pub mod protocol;
pub mod recovery;
pub mod separation;
pub mod specification;
pub mod encoding_laws;
pub mod variants;
