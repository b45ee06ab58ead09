//! Errors that travel through a document stream as ordinary items.

use vstd::prelude::*;

verus! {

/// What a splitting strategy reports when it cannot split a batch.
#[derive(Debug, Clone, PartialEq, Eq)]
pub enum TextSplitterError {
    /// The batch held no text to split.
    EmptyInputText,
    /// The strategy was configured with options it cannot work with.
    InvalidSplitterOptions,
    /// Any other failure, described by the strategy itself.
    OtherError(String),
}

/// Why an item of a document stream is an error rather than a document.
///
/// The variant alone tells where the failure arose: `TextSplitterError` is a
/// failure of the splitting strategy, every other variant a failure of the
/// source that was being read.
#[derive(Debug, Clone, PartialEq, Eq)]
pub enum LoaderError {
    /// The splitting strategy failed on one document; the strategy's own
    /// error is kept as it was.
    TextSplitterError(TextSplitterError),
    /// The source could not be reached.
    SourceUnavailable,
    /// Any other failure of the source, described by the loader itself.
    OtherError(String),
}

impl LoaderError {
    /// True exactly for failures that arose while splitting.
    pub open spec fn split_origin(&self) -> bool {
        *self is TextSplitterError
    }

    /// Tells whether the failure arose while splitting rather than while
    /// reading the source.
    pub fn is_split_failure(&self) -> (b: bool)
        ensures
            b == self.split_origin(),
    {
        match self {
            LoaderError::TextSplitterError(_) => true,
            _ => false,
        }
    }
}

} // verus!
