//! A reader and writer for MASON, a relaxed superset of JSON.
//!
//! The format allows unquoted keys, a root object without braces, comments,
//! several kinds of separator, numbers in four bases with digit separators,
//! and raw and byte strings. Every function of this crate is verified
//! against a mathematical description of the grammar over byte sequences.
//!
//! A document is read from bytes held in memory, through a [`PeekReader`],
//! into a [`Value`]; a `Value` is written as bytes or as text. A number is
//! kept as the decimal text that names it: the crate holds no
//! floating-point arithmetic, and leaves the choice of a machine number to
//! its caller.
//!
//! Beside the functions stand the laws that they obey: that what is
//! written is read back (`round_trip`); that gaps and separators do not
//! change what is read, of one array or object (`layout`) and of a whole
//! document (`shape`), of which every one that is read is an instance
//! (`tokens`, `parsed`); and that what is read is well-formed
//! (`deserialize::sound`).

pub mod ascii;
pub mod deserialize;
pub mod error;
pub mod hex;
pub mod index;
pub mod layout;
pub mod number;
pub mod parsed;
pub mod peek_reader;
pub mod round_trip;
pub mod serialize;
pub mod shape;
pub mod tokens;
pub mod unescape_string;
pub mod utils;
pub mod value;

pub use deserialize::{from_slice, from_str};
pub use error::{Error, ErrorKind};
pub use number::Number;
pub use peek_reader::PeekReader;
pub use serialize::{to_bytes, to_string, to_writer};
pub use value::{Object, Value};
