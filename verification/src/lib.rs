//! Packs typed values into Discord custom ids.
//!
//! A value is laid down as a run of bits (`Bittable`); the bits are packed
//! sixteen at a time, least significant first, into the UTF-16 code units of
//! a string, which Discord accepts as a custom id of up to 100 units
//! (`CustomIdConv`). Reading the bits back gives the value again.

pub mod bits;
pub mod bittable;
pub mod conv;
pub mod error;
pub mod int_laws;
pub mod ints;
pub mod option;
pub mod snowflake;
pub mod string;
pub mod uint;
pub mod utf16;
pub mod variant_ids;
pub mod vec;

pub use bits::BitBuffer;
pub use bittable::Bittable;
pub use conv::CustomIdConv;
pub use error::CustomIdError;
pub use snowflake::Snowflake;
pub use variant_ids::{variant_ids, VariantIdError};
