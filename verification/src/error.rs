//! What an operation on the tree can report.

use vstd::prelude::*;

verus! {

/// Error occurred when iterating with the tree.
#[derive(Clone, Debug, PartialEq)]
pub enum Error<E> {
    /// Adding duplicate node to tree.
    Duplicate,
    /// Finalizing descendent of tree node without finalizing ancestor(s).
    UnfinalizedAncestor,
    /// Imported or finalized node that is an ancestor of previously finalized node.
    Revert,
    /// Error throw by client when checking for node ancestry.
    Client(E),
}

/// Result of finalizing a node (that could be a part of the tree or not).
#[derive(Debug, PartialEq)]
pub enum FinalizationResult<V> {
    /// The tree has changed, optionally return the value associated with the finalized node.
    Changed(Option<V>),
    /// The tree has not changed.
    Unchanged,
}

/// The outcome of a search within a node.
#[derive(Debug, PartialEq)]
pub enum FindOutcome<T> {
    /// This is the node we were looking for.
    Found(T),
    /// Not the node we're looking for. The flag tells whether an ancestor of
    /// the target was met; `true` implies that the predicate failed on it.
    Failure(bool),
    /// Abort search.
    Abort,
}

/// The part of an encoded tree that cannot be decoded.
#[derive(Clone, Copy, Debug, PartialEq)]
pub enum DecodeError {
    /// The roots, or something below them.
    Roots,
    /// The best finalized number.
    BestFinalizedNumber,
}

impl DecodeError {
    /// The error in words.
    pub fn message(&self) -> (text: String)
        ensures
            text@ == match *self {
                DecodeError::Roots => "Error decoding field ForkTree.roots"@,
                DecodeError::BestFinalizedNumber =>
                    "Error decoding field ForkTree.best_finalized_number"@,
            },
    {
        match self {
            DecodeError::Roots => "Error decoding field ForkTree.roots".to_owned(),
            DecodeError::BestFinalizedNumber =>
                "Error decoding field ForkTree.best_finalized_number".to_owned(),
        }
    }
}

impl<E> From<E> for Error<E> {
    fn from(err: E) -> (r: Error<E>) {
        Error::Client(err)
    }
}

impl<E> vstd::std_specs::convert::FromSpecImpl<E> for Error<E> {
    open spec fn obeys_from_spec() -> bool {
        true
    }

    open spec fn from_spec(err: E) -> Error<E> {
        Error::Client(err)
    }
}

impl<E: std::fmt::Display> Error<E> {
    /// The error in words. A client error is described by the client's own
    /// words for it.
    pub fn message(&self) -> (text: String)
        ensures
            match *self {
                Error::Duplicate => text@ == "Hash already exists in Tree"@,
                Error::UnfinalizedAncestor => text@
                    == "Finalized descendent of Tree node without finalizing its ancestor(s) first"@,
                Error::Revert => text@
                    == "Tried to import or finalize node that is an ancestor of a previously finalized node"@,
                Error::Client(err) => exists|words: String| #[trigger]
                    vstd::string::to_string_from_display_ensures::<E>(&err, words) && text@
                        == "Client error: "@ + words@,
            },
    {
        match self {
            Error::Duplicate => "Hash already exists in Tree".to_owned(),
            Error::UnfinalizedAncestor =>
                "Finalized descendent of Tree node without finalizing its ancestor(s) first".to_owned(),
            Error::Revert =>
                "Tried to import or finalize node that is an ancestor of a previously finalized node".to_owned(),
            Error::Client(err) => {
                let words = err.to_string();
                let mut text = "Client error: ".to_owned();
                text.append(words.as_str());
                text
            },
        }
    }
}

} // verus!
