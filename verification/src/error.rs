//! The errors of packing and unpacking.

use vstd::prelude::*;

verus! {

/// What can go wrong while packing or unpacking.
#[derive(Debug, PartialEq)]
pub enum Error {
    /// A category of type that the format has no encoding for.
    Unimplemented(&'static str),
    /// A value was packed or unpacked outside of any field.
    MissingTag,
    /// A sequence was started without saying how long it is.
    UnknownLen,
    /// The input ended before the value did.
    InputTooShort,
    /// The input does not follow the format.
    InvalidEncoding,
    /// Input was left over after the value.
    TrailingCharacters,
    /// A failure reported by the code that walks a value.
    Custom(String),
}

impl Error {
    /// A short text for the kind of error.
    pub fn description(&self) -> (text: &str)
        ensures
            self matches Error::Unimplemented(_) ==> text@
                == "unimplemented serialization of type"@,
            self is MissingTag ==> text@ == "tag is missing, only structs can be serialized"@,
            self is UnknownLen ==> text@ == "cannot pack a sequence of unknown len"@,
            self is InputTooShort ==> text@ == "deserializing failed as input is too short"@,
            self is InvalidEncoding ==> text@ == "binary encoding invalid"@,
            self is TrailingCharacters ==> text@ == "trailing characters after unpacking"@,
            self matches Error::Custom(msg) ==> text@ == msg@,
    {
        match self {
            Error::Unimplemented(_) => "unimplemented serialization of type",
            Error::MissingTag => "tag is missing, only structs can be serialized",
            Error::UnknownLen => "cannot pack a sequence of unknown len",
            Error::InputTooShort => "deserializing failed as input is too short",
            Error::InvalidEncoding => "binary encoding invalid",
            Error::TrailingCharacters => "trailing characters after unpacking",
            Error::Custom(msg) => msg.as_str(),
        }
    }
}

} // verus!
