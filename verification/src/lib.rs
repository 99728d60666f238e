//! A lazy tokenizer that splits a line on commas, except where a comma lies
//! inside a single- or double-quoted span; backslash escapes are honored
//! inside quotes. Tokens are borrowed slices of the input, preserved verbatim
//! (no trimming, no unquoting, no unescaping), and can be consumed from the
//! front, from the back, or from both ends alternately.

pub mod laws;
pub mod scan;
pub mod tokenizer;

pub use tokenizer::CommaSeparatedIterator;
