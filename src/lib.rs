//! A JSON parser over a restorable character cursor, with a renderer back to
//! text. The grammar is stated as spec functions in `grammar`; every parsing
//! function is proved to follow it exactly, including which error it reports.
use vstd::prelude::*;

pub mod chars;
pub mod cursor;
pub mod grammar;
pub mod laws;
pub mod parser;
pub mod render;
pub mod value;

pub use cursor::{
    Cursor, consume_char, consume_anychar, consume_prefix, jsp_consume_whitespace,
    jsp_consume_digit, jsp_consume_hexdigit, jsp_consume_four_hexdigits,
};
pub use parser::{
    Number, parse, jsp_consume_number, jsp_consume_string, jsp_consume_value, jsp_consume_array,
    jsp_consume_object,
};
pub use value::{ErrorKind, JsonValue};

verus! {

} // verus!
