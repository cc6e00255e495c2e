//! An in-memory JSON codec: a tagged value tree with structural access and
//! mutation, a recursive-descent parser, and compact and indented serializers.
//!
//! The accepted dialect is deliberately small: the top level must be an object
//! or an array (an array is wrapped under the key `"data"`), strings decode
//! only the escapes `\\` and `\"`, whitespace is space, tab and newline, extra
//! commas are tolerated, and duplicate object keys resolve last-wins. Numbers
//! with a decimal point are held as exact decimals (sign, significand digits
//! and a power of ten) rather than binary floating point, so that every
//! behavior of the codec is expressible over plain values.

pub mod hash;
pub mod laws;
pub mod model;
pub mod parse;
pub mod ser;
pub mod value;
