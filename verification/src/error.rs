//! What can go wrong.

use vstd::prelude::*;

verus! {

/// Why a filter could not be read or applied.
#[derive(Debug)]
pub enum Error {
    /// The filter has no inverse; it is named by its text.
    NotReversible(String),
    /// The name of a file is not valid text.
    InvalidFilename,
    /// A name that is needed as text is not valid text.
    NoName,
    /// A path does not end in the name of an entry.
    FileName,
    /// The text is not a list of mounts.
    InvalidWorkspace(String),
    /// An id does not name an object of the kind that is needed.
    NotFound,
    /// An entry does not fit into a tree.
    InvalidEntry,
    /// A glob pattern is not well formed.
    InvalidPattern,
    /// An info filter does not say where its file is to stand.
    MissingPrefix,
    /// Workspaces stand in workspaces deeper than they may.
    TooDeep,
    /// No id could be computed for some content.
    Unhashable,
}

/// An error as a value.
pub enum ErrorView {
    NotReversible(Seq<char>),
    InvalidFilename,
    NoName,
    FileName,
    InvalidWorkspace(Seq<char>),
    NotFound,
    InvalidEntry,
    InvalidPattern,
    MissingPrefix,
    TooDeep,
    Unhashable,
}

impl View for Error {
    type V = ErrorView;

    open spec fn view(&self) -> ErrorView {
        match self {
            Error::NotReversible(s) => ErrorView::NotReversible(s@),
            Error::InvalidFilename => ErrorView::InvalidFilename,
            Error::NoName => ErrorView::NoName,
            Error::FileName => ErrorView::FileName,
            Error::InvalidWorkspace(s) => ErrorView::InvalidWorkspace(s@),
            Error::NotFound => ErrorView::NotFound,
            Error::InvalidEntry => ErrorView::InvalidEntry,
            Error::InvalidPattern => ErrorView::InvalidPattern,
            Error::MissingPrefix => ErrorView::MissingPrefix,
            Error::TooDeep => ErrorView::TooDeep,
            Error::Unhashable => ErrorView::Unhashable,
        }
    }
}

} // verus!
