//! The encodings of data pages and their decoders.
pub mod decoding;
pub mod delta;
pub mod delta_bytes_page;
pub mod delta_page;
pub mod plain;
pub mod plain_page;
pub mod rle_encoding;
pub mod rle_page;
pub mod stream;
