//! Text vectorization: tokenizers and two estimators, a vocabulary-building
//! counting vectorizer and a stateless feature-hashing vectorizer, that turn
//! a corpus of documents into a compressed-sparse-row matrix of term counts.

use vstd::prelude::*;

pub mod errors;
pub mod order;
pub mod csr;
pub mod vocab;
pub mod tokenize;
pub mod sorting;
pub mod vectorize;
pub mod token_processor;
pub mod metrics;

pub use errors::EstimatorErr;

verus! {

} // verus!
