//! Arbitrary precision decimals with a byte encoding whose byte order is the order of
//! the numbers.
//!
//! - [`Decimal`]: any number of digits, exponents from -16383 to 131072, held as
//!   sortable bytes.
//! - [`Decimal64`]: up to 16 digits and their scale in 64 bits.
//! - [`Decimal64NoScale`]: up to 18 digits in 64 bits, with the scale kept elsewhere.
//!
//! All of them have the special values NaN and the two infinities. The order is
//! negative infinity, negative numbers, zero, positive numbers, positive infinity,
//! NaN; NaN is equal to itself.
pub mod decimal;
pub mod decimal64;
pub mod decimal64_laws;
pub mod decimal64_no_scale;
pub mod decimal64_no_scale_laws;
pub mod decimal_laws;
pub mod digits;
pub mod encoding;
pub mod encoding_laws;
pub mod error;
pub mod fixed;
pub mod fixed_laws;
pub mod interop;
pub mod interop_laws;
pub mod literal;
pub mod notation;
pub mod numeral;
pub mod numeric_laws;
pub mod order;
pub mod parse;
pub mod rounding;
pub mod rounding_laws;
pub mod roundtrip;
pub mod special;
pub mod text;
pub mod text_laws;
pub mod value;

pub use decimal::Decimal;
pub use decimal64::{Decimal64, MAX_DECIMAL64_PRECISION, MAX_DECIMAL64_SCALE};
pub use decimal64_no_scale::{
    Decimal64NoScale, MAX_DECIMAL64_NO_SCALE_PRECISION, MAX_DECIMAL64_NO_SCALE_SCALE,
};
pub use encoding::decode_parts_into;
pub use error::DecimalError;
pub use special::{decode_special_value, SpecialValue};
