use vstd::prelude::*;

pub mod chars;
pub mod grammar;
pub mod laws;
pub mod nasa;
pub mod parser;
pub mod render;
pub mod round_trip;
pub mod value;

pub use nasa::NasaClient;
pub use parser::{parse_str, ParseError, Parser};
pub use value::{JsonModel, JsonValue};

verus! {

} // verus!
