//! The errors of the library.

use vstd::prelude::*;

verus! {

/// What went wrong while reading chains or projecting intervals. The
/// malformed kinds carry the offending text: the header line, the body line
/// or the index line that could not be read.
#[derive(Debug, Clone, PartialEq, Eq)]
pub enum ChainError {
    /// A `chain` header line does not have the expected shape.
    MalformedHeader { line: Vec<u8> },
    /// An alignment body does not have the expected shape, or does not add up
    /// to the spans that its header gives.
    MalformedRecord { line: Vec<u8> },
    /// An offset index line is not `id\tstart\tend`.
    MalformedIndex { line: Vec<u8> },
    /// An input interval lacks a coordinate or a name.
    InputMissingField,
    /// No input interval was given.
    EmptyInput,
    /// A requested chain is absent from the offset index.
    MissingChain { id: u64 },
}

/// The mathematical value of a `ChainError`.
pub enum ErrorView {
    MalformedHeader(Seq<u8>),
    MalformedRecord(Seq<u8>),
    MalformedIndex(Seq<u8>),
    InputMissingField,
    EmptyInput,
    MissingChain(u64),
}

impl View for ChainError {
    type V = ErrorView;

    open spec fn view(&self) -> ErrorView {
        match self {
            ChainError::MalformedHeader { line } => ErrorView::MalformedHeader(line@),
            ChainError::MalformedRecord { line } => ErrorView::MalformedRecord(line@),
            ChainError::MalformedIndex { line } => ErrorView::MalformedIndex(line@),
            ChainError::InputMissingField => ErrorView::InputMissingField,
            ChainError::EmptyInput => ErrorView::EmptyInput,
            ChainError::MissingChain { id } => ErrorView::MissingChain(*id),
        }
    }
}

/// `r` failed with the error `e`.
pub open spec fn fails_with<T>(r: Result<T, ChainError>, e: ErrorView) -> bool {
    r matches Err(x) && x@ == e
}

} // verus!
