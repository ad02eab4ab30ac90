//! Structured error kinds for every fallible operation of the store.

use vstd::prelude::*;

verus! {

/// The error kinds a caller can observe.
///
/// `TransactionError` covers an engine failure to begin a transaction or to
/// read or write inside one, before anything commits: the store is
/// unchanged. `CommitFailed` is the one failure at the commit itself: the
/// engine applies a committing transaction's changes atomically — fully or
/// not at all — but they may already have become durable, so the store then
/// holds either the old state or the operation's full new state, and no
/// caller may assume a rollback. `TableAccessError` covers a failure to open
/// or create a table for a reason other than plain non-existence;
/// `CorruptData` means stored bytes did not decode to a value of the table's
/// type; `NotFound` is a logical miss (an `update` of an absent key, a
/// restore of an unknown savepoint id).
#[derive(Clone, Copy, Debug, PartialEq, Eq, Structural)]
pub enum DbError {
    TransactionError,
    CommitFailed,
    TableAccessError,
    CorruptData,
    NotFound,
}

/// What the engine reports for one raw call, before the typed layer maps it.
///
/// `NoSuchTable` is separated out so that the read path can create the
/// missing table and retry; the public surface never returns it.
/// `CommitFailed` is returned only when the final commit itself fails, the
/// one stage whose changes may have taken effect (fully or not at all);
/// `Transaction` covers every failure before that, with nothing committed.
#[derive(Clone, Copy, Debug, PartialEq, Eq, Structural)]
pub enum EngineError {
    NoSuchTable,
    Transaction,
    CommitFailed,
    TableAccess,
}

impl EngineError {
    /// The public error kind for an engine error that was not handled.
    pub fn to_db_error(self) -> (r: DbError)
        ensures
            r == (match self {
                EngineError::NoSuchTable => DbError::TableAccessError,
                EngineError::Transaction => DbError::TransactionError,
                EngineError::CommitFailed => DbError::CommitFailed,
                EngineError::TableAccess => DbError::TableAccessError,
            }),
    {
        match self {
            EngineError::NoSuchTable => DbError::TableAccessError,
            EngineError::Transaction => DbError::TransactionError,
            EngineError::CommitFailed => DbError::CommitFailed,
            EngineError::TableAccess => DbError::TableAccessError,
        }
    }
}

} // verus!
