//! Value decoders for the data pages of a columnar file in the Parquet format.
//!
//! A page is a byte buffer that holds the values of one column in one
//! encoding. A decoder is bound to a page with `set_data` and then drained in
//! chunks with `decode`. What a decoder delivers is stated over a
//! mathematical model of the page: a cursor that yields one value per step.
pub mod basic;
pub mod encodings;
pub mod errors;
pub mod schema;
pub mod util;
