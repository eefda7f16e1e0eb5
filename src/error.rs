use vstd::prelude::*;
use crate::doc::{Doc, Node};

verus! {

/// A failure of a glob: its pattern does not compile, or its folder could
/// not be listed.
#[derive(Debug, PartialEq)]
pub enum GlobError {
    IoError(String),
    GlobPatternError(String),
    FsError(String),
}

/// Why a resolution failed.
#[derive(Debug, PartialEq)]
pub enum Error {
    /// The target does not name a readable file, or is a glob pattern that
    /// does not compile (target, reason).
    IncludeError(String, String),
    /// A document has no parent folder to resolve a relative target in.
    NoParentError(String),
    /// The payload of a directive is not a string.
    InvalidStringValue(Doc),
    /// Two glob results could not be merged.
    MergeError,
    /// A document includes one of the documents that include it.
    CircularReference(String),
    /// Reading a file failed.
    IoError(String),
    /// The parser rejected a file.
    ParsingError(String),
    /// The files under the folder of a glob could not be listed.
    GlobError(GlobError),
}

/// The model of a [`GlobError`].
pub enum GlobFault {
    Io(Seq<char>),
    Pattern(Seq<char>),
    Fs(Seq<char>),
}

/// The model of an [`Error`].
pub enum Fault {
    Include(Seq<char>, Seq<char>),
    NoParent(Seq<char>),
    InvalidString(Node),
    Merge,
    Circular(Seq<char>),
    Io(Seq<char>),
    Parsing(Seq<char>),
    Glob(GlobFault),
}

impl GlobError {
    pub open spec fn view(&self) -> GlobFault {
        match self {
            GlobError::IoError(m) => GlobFault::Io(m@),
            GlobError::GlobPatternError(m) => GlobFault::Pattern(m@),
            GlobError::FsError(m) => GlobFault::Fs(m@),
        }
    }

    pub fn copy(&self) -> (r: GlobError)
        ensures
            r@ == self@,
    {
        match self {
            GlobError::IoError(m) => GlobError::IoError(m.clone()),
            GlobError::GlobPatternError(m) => GlobError::GlobPatternError(m.clone()),
            GlobError::FsError(m) => GlobError::FsError(m.clone()),
        }
    }
}

impl Error {
    pub open spec fn view(&self) -> Fault {
        match self {
            Error::IncludeError(p, m) => Fault::Include(p@, m@),
            Error::NoParentError(p) => Fault::NoParent(p@),
            Error::InvalidStringValue(d) => Fault::InvalidString(d@),
            Error::MergeError => Fault::Merge,
            Error::CircularReference(p) => Fault::Circular(p@),
            Error::IoError(m) => Fault::Io(m@),
            Error::ParsingError(m) => Fault::Parsing(m@),
            Error::GlobError(g) => Fault::Glob(g@),
        }
    }

    pub fn copy(&self) -> (r: Error)
        ensures
            r@ == self@,
    {
        match self {
            Error::IncludeError(p, m) => Error::IncludeError(p.clone(), m.clone()),
            Error::NoParentError(p) => Error::NoParentError(p.clone()),
            Error::InvalidStringValue(d) => Error::InvalidStringValue(d.copy()),
            Error::MergeError => Error::MergeError,
            Error::CircularReference(p) => Error::CircularReference(p.clone()),
            Error::IoError(m) => Error::IoError(m.clone()),
            Error::ParsingError(m) => Error::ParsingError(m.clone()),
            Error::GlobError(g) => Error::GlobError(g.copy()),
        }
    }
}

} // verus!
