//! Outcomes of a request that does not resolve to a file path.
use vstd::prelude::*;

verus! {

/// Which registry level lacked the requested entry. Both surface to a reader
/// as the same not-found outcome; the distinction is for diagnostics.
#[derive(Clone, Copy, Debug, PartialEq, Eq, Structural)]
pub enum Missing {
    /// No project at all is filed under the language.
    Language,
    /// The language is known, the project is not registered under it.
    Project,
}

/// Why a request could not be served.
#[derive(Clone, Copy, Debug, PartialEq, Eq, Structural)]
pub enum ResolveError {
    /// The host is absent or does not name a language as `<language>.docs`.
    BadAddressing,
    /// The language or the project is not registered, or the file is absent.
    NotFound(Missing),
    /// The requested path would leave the registered directory.
    Forbidden,
    /// An unexpected failure while reading the file.
    Internal,
}

/// Why a registration was refused. A refused registration changes nothing.
#[derive(Clone, Copy, Debug, PartialEq, Eq, Structural)]
pub enum RegistrationError {
    /// The language name is empty.
    EmptyLanguage,
    /// The project name is empty.
    EmptyProjectName,
}

} // verus!
