//! A JSON serializer and pull parser whose behaviour is specified and verified.
//!
//! The [`Serializer`] writes JSON text to any [`Write`] sink; the [`Parser`] reads JSON
//! text token by token, validating it against what the caller asks for next.
pub mod deserialize;
pub mod derive;
pub mod entries;
pub mod error;
pub mod fixed;
pub mod format;
pub mod grammar;
pub mod laws;
pub mod map_laws;
pub mod maps;
pub mod number;
pub mod report;
pub mod roundtrip;
pub mod serialize;
pub mod text;
pub mod values;
pub mod write;

pub use deserialize::Parser;
pub use error::{ParseError, ParseErrorKind, WriteError};
pub use number::IntParse;
pub use report::ParseErrorDisplay;
pub use serialize::{
    measure, stringify_manual, stringify_manual_pretty, stringify_manual_sized,
    stringify_manual_sized_pretty, stringify_pretty, stringify_sized, stringify_sized_pretty,
    Serialize, SerializeError, Serializer,
};
pub use values::{
    parse, parse_as, parse_manual, parse_manual_sized, parse_sized, parse_sized_as, Deserialize,
};
pub use write::{ArrayWriter, SizeCounter, SliceWriter, Write};

use core::convert::Infallible;
use vstd::prelude::*;
use vstd::utf8::{encode_utf8, valid_utf8};

verus! {

/// Serialize a value into a compact `String`.
pub fn stringify<T: Serialize>(val: &T) -> (r: Result<String, SerializeError<Infallible>>)
    ensures
        T::obeys_json_text() ==> (r matches Ok(s) ==> encode_utf8(s@) == val.json_text(0, 0)),
        T::obeys_json_text() && !valid_utf8(val.json_text(0, 0)) ==> r is Err,
        T::obeys_json_text() && val.serializes_at(0) && valid_utf8(val.json_text(0, 0)) ==> r is Ok,
{
    stringify_pretty(val, 0)
}

} // verus!
