//! Verified core of the jsonmodem Python bindings: integer digit decoding,
//! dictionary-table reads, JSON string escaping and output encoding,
//! date/time formatting, NumPy snapshot layout and decimal normalization.

pub mod buffer;
pub mod datetime;
pub mod decimal;
pub mod decode;
pub mod dense_entry;
pub mod encoder;
pub mod escape;
pub mod fixed_offsets;
pub mod integer;
pub mod list_spare;
pub mod long_float;
pub mod numpy;
pub mod path;
pub mod stream;
pub mod traverse;
pub mod validate;
pub mod value;
