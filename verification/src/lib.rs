//! A small concatenative, stack-based scripting language: four dynamically
//! coerced value kinds (integer, array, string, block) driven by a token
//! interpreter over a value stack.

pub mod bigint;
pub mod coerce;
pub mod interp;
pub mod parse;
pub mod unescape;
pub mod util;
pub mod value;
