//! The ways in which a request can fail.

use vstd::prelude::*;

verus! {

/// Why a request was not carried out. None of these ends the connection by itself.
#[derive(Clone, Copy, Debug, PartialEq, Eq, Structural)]
pub enum ErrorKind {
    /// The bytes on the wire are not the encoding of a value.
    MalformedInput,
    /// The request is not an array, or what should be a string in it is none.
    InvalidCommandFormat,
    /// The command lacks an argument that it needs.
    MissingArgument,
    /// The command's name is not one that the server knows.
    UnknownCommand,
}

} // verus!
