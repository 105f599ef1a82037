//! A verified engine for per-author "idiom" extraction.
//!
//! The engine ingests (place, author, message) triples, keeps a bounded
//! weighted vocabulary per place and per author, and reports the tokens that
//! are disproportionately characteristic of an author relative to the places
//! they post in.

pub mod kvseq;
pub mod profile;
pub mod tokenize;
pub mod vocab;
pub mod engine;

pub use engine::Idioms;
pub use profile::Profile;
pub use vocab::Vocab;
pub use tokenize::tokenize;
