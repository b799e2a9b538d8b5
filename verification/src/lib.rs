//! Fast, verified parsing of decimal numbers from bytes and strings.

pub mod byte_laws;
pub mod decimal;
pub mod laws;
pub mod numbers;

pub use numbers::{
    decimal_digits, float_parse_bytes, float_parse_str, int_parse_bytes, int_parse_str, IntFloat,
    IntParseError,
};
