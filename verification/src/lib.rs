//! A fixed-order n-gram (Markov chain) model over a corpus of labeled text
//! sources, with a random-walk sentence generator on top of it.
//!
//! Each source's text is kept in one owned byte buffer; every token a record
//! refers to is a compact span (start offset plus length) into that buffer.
//! A corpus of sources is aggregated into one searchable model, the model can
//! be walked with an injectable, seedable random source, and a built model can
//! be saved to and restored from a self-contained binary snapshot.

pub mod bytes_util;
pub mod span;
pub mod text;
pub mod corpus;
pub mod ngram;
pub mod output;
pub mod rng;
pub mod snapshot;
