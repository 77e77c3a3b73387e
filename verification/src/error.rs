use vstd::prelude::*;

verus! {

/// The errors of this library.
#[derive(Debug)]
pub enum Error {
    /// The library file could not be parsed as a shared ELF library.
    LibParse,
    /// No symbol matched every keyword.
    Symbol,
    /// The hooking backend reported an error.
    DobbyError,
    /// A named pipe could not be created.
    NamedPipe,
    /// An input or output operation failed.
    Io,
    /// Any other error, with its description.
    Other(&'static str),
}

/// The result type of this library.
pub type Result<T> = core::result::Result<T, Error>;

} // verus!
