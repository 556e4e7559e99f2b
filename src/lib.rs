//! Binary-to-text codecs (base16, base32, base64) and fixed-width integer
//! byte-order codecs, each stated and proved against a mathematical model.

pub mod base16;
pub mod base32;
pub mod base64;
pub mod binary;
pub mod symbols;
