//! Arbitrary-precision decimal arithmetic: parsing, the four operations and
//! formatting, in three flavours that share one mathematical model.
pub mod digits;
pub mod text;
pub mod legacy;
pub mod rounding;
pub mod plain;
