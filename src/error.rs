//! Errors of the compiler and of the program around it.
use vstd::prelude::*;

verus! {

/// Declares `std::io::Error` so that `Error::Io` can carry it; nothing is
/// stated of its values.
#[verifier::external_type_specification]
#[verifier::external_body]
pub struct ExIoError(std::io::Error);

/// Declares `std::path::PathBuf` so that `Argument::FileRequired` can carry
/// it; nothing is stated of its values.
#[verifier::external_type_specification]
#[verifier::external_body]
pub struct ExPathBuf(std::path::PathBuf);

/// What can go wrong while compiling a program.
#[derive(Debug)]
pub enum Error {
    /// Reading or writing a file, or starting a tool, failed
    Io(std::io::Error),
    /// An argument is not usable
    Argument(Argument),
    /// The target ABI is not known
    UnknownTarget,
    /// The assembler failed
    Nasm,
    /// The linker failed
    Linker,
    /// A `[` without its `]`, or a `]` without its `[`
    UnbalancedBrackets,
    /// The compiler met a case it cannot handle: a pointer moved below the
    /// first cell or past the largest index while the program was evaluated,
    /// a jump to a missing label, or pointer moves whose sum overflows
    InternalCompilerError,
}

/// An argument that is not usable.
#[derive(Debug)]
pub enum Argument {
    /// A file was required, a directory was given
    FileRequired(std::path::PathBuf),
}

impl From<std::io::Error> for Error {
    fn from(error: std::io::Error) -> (r: Error)
        ensures
            r == Error::Io(error),
    {
        Error::Io(error)
    }
}

impl vstd::std_specs::convert::FromSpecImpl<std::io::Error> for Error {
    open spec fn obeys_from_spec() -> bool {
        true
    }

    open spec fn from_spec(error: std::io::Error) -> Error {
        Error::Io(error)
    }
}

} // verus!
