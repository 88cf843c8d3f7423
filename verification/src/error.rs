//! Engine, validation and storage failures.

use crate::shared::IsolationLevel;
use crate::storage::pager::FileId;
use crate::text::decimal;
use crate::text::to_decimal;
use vstd::prelude::*;
use vstd::string::StringExecFns;

verus! {

/// An engine, validation, or storage failure.
#[derive(Debug)]
pub enum Error {
    /// The operating system rejected an I/O operation.
    Io(String),
    /// A stored structure failed validation.
    Corrupt(String),
    /// A caller supplied an invalid schema or operation.
    Invalid(String),
    /// A table or entity does not exist.
    NotFound(String),
    /// An identifier or name already exists.
    AlreadyExists(String),
    /// Another database handle owns the data directory.
    Locked,
    /// The operation exceeded its deadline before commit crossed the WAL boundary.
    DeadlineExceeded,
    /// A transaction or read snapshot expired and released its retained resources.
    TransactionExpired,
    /// The caller cancelled the read.
    Cancelled,
    /// An admission limit was reached before the requested write was accepted.
    LimitExceeded {
        /// The bounded resource.
        resource: &'static str,
        /// Configured maximum (bytes or item count, according to resource).
        limit: usize,
    },
    /// A requested isolation level is not implemented; no transaction was started.
    UnsupportedIsolation(IsolationLevel),
    /// A concurrent commit invalidated this transaction. Retry the whole transaction.
    Conflict {
        /// Conflicting table, or None for a catalog change.
        table: Option<u64>,
        /// Conflicting entity, or None for a catalog change.
        entity: Option<u64>,
    },
    /// The requested version is outside the locally retained range.
    VersionUnavailable {
        /// The requested entity version.
        requested: u64,
        /// The first available version.
        first: u64,
        /// The last available version.
        last: u64,
    },
    /// A write may have committed; reopen before inspecting or retrying it.
    CommitUnknown(String),
    /// A previous uncertain write requires reopening this handle.
    NeedsRecovery,
    /// The bytes that the operation needs next are not loaded. Load them and repeat it.
    Unread {
        /// The checkpoint file.
        file: FileId,
        /// The first byte.
        offset: u64,
        /// The number of bytes.
        length: u64,
    },
}

/// The result of an engine operation.
pub type Result<T> = std::result::Result<T, Error>;

/// The text of an optional identifier.
pub open spec fn optional_text(id: Option<u64>) -> Seq<char> {
    match id {
        Some(n) => "Some("@ + decimal(n as nat) + ")"@,
        None => "None"@,
    }
}

impl Error {
    /// The message that describes this failure.
    pub open spec fn text(self) -> Seq<char> {
        match self {
            Error::Io(s) => "storage I/O failed: "@ + s@,
            Error::Corrupt(s) => "corrupt storage: "@ + s@,
            Error::Invalid(s) => "invalid operation: "@ + s@,
            Error::NotFound(s) => "not found: "@ + s@,
            Error::AlreadyExists(s) => "already exists: "@ + s@,
            Error::Locked => "the data directory is already open"@,
            Error::DeadlineExceeded => "operation deadline exceeded"@,
            Error::TransactionExpired => "transaction or snapshot expired"@,
            Error::Cancelled => "the read was cancelled"@,
            Error::LimitExceeded { resource, limit } => "limit exceeded: "@ + resource@
                + " (maximum "@ + decimal(limit as nat) + ")"@,
            Error::UnsupportedIsolation(level) => "unsupported isolation level: "@ + (match level {
                IsolationLevel::ReadCommitted => "ReadCommitted"@,
                IsolationLevel::Snapshot => "Snapshot"@,
                IsolationLevel::Serializable => "Serializable"@,
            }),
            Error::Conflict { table, entity } => "transaction conflict at table "@ + optional_text(
                table,
            ) + ", entity "@ + optional_text(entity) + "; retry the whole transaction"@,
            Error::VersionUnavailable { requested, first, last } => "version "@ + decimal(
                requested as nat,
            ) + " is unavailable; retained range is "@ + decimal(first as nat) + "..="@ + decimal(
                last as nat,
            ),
            Error::CommitUnknown(s) => "commit outcome is unknown; reopen the database: "@ + s@,
            Error::NeedsRecovery => "reopen the database after the previous storage failure"@,
            Error::Unread { file, offset, length } => "checkpoint bytes are not loaded"@,
        }
    }

    /// Describes this failure.
    pub fn message(&self) -> (s: String)
        ensures
            s@ == self.text(),
    {
        let mut s = String::new();
        match self {
            Error::Io(m) => {
                s.append("storage I/O failed: ");
                s.append(m.as_str());
            },
            Error::Corrupt(m) => {
                s.append("corrupt storage: ");
                s.append(m.as_str());
            },
            Error::Invalid(m) => {
                s.append("invalid operation: ");
                s.append(m.as_str());
            },
            Error::NotFound(m) => {
                s.append("not found: ");
                s.append(m.as_str());
            },
            Error::AlreadyExists(m) => {
                s.append("already exists: ");
                s.append(m.as_str());
            },
            Error::Locked => s.append("the data directory is already open"),
            Error::DeadlineExceeded => s.append("operation deadline exceeded"),
            Error::TransactionExpired => s.append("transaction or snapshot expired"),
            Error::Cancelled => s.append("the read was cancelled"),
            Error::LimitExceeded { resource, limit } => {
                s.append("limit exceeded: ");
                s.append(resource);
                s.append(" (maximum ");
                s.append(to_decimal(*limit as u64).as_str());
                s.append(")");
            },
            Error::UnsupportedIsolation(level) => {
                s.append("unsupported isolation level: ");
                match level {
                    IsolationLevel::ReadCommitted => s.append("ReadCommitted"),
                    IsolationLevel::Snapshot => s.append("Snapshot"),
                    IsolationLevel::Serializable => s.append("Serializable"),
                }
            },
            Error::Conflict { table, entity } => {
                s.append("transaction conflict at table ");
                append_optional(&mut s, *table);
                s.append(", entity ");
                append_optional(&mut s, *entity);
                s.append("; retry the whole transaction");
            },
            Error::VersionUnavailable { requested, first, last } => {
                s.append("version ");
                s.append(to_decimal(*requested).as_str());
                s.append(" is unavailable; retained range is ");
                s.append(to_decimal(*first).as_str());
                s.append("..=");
                s.append(to_decimal(*last).as_str());
            },
            Error::CommitUnknown(m) => {
                s.append("commit outcome is unknown; reopen the database: ");
                s.append(m.as_str());
            },
            Error::NeedsRecovery => s.append(
                "reopen the database after the previous storage failure",
            ),
            Error::Unread { file, offset, length } => s.append("checkpoint bytes are not loaded"),
        }
        assert(s@ =~= self.text());
        s
    }

    /// Copies this failure for another caller that shares it.
    pub fn duplicate(&self) -> (copy: Error)
        ensures
            copy == *self,
    {
        match self {
            Error::Io(m) => Error::Io(m.clone()),
            Error::Corrupt(m) => Error::Corrupt(m.clone()),
            Error::Invalid(m) => Error::Invalid(m.clone()),
            Error::NotFound(m) => Error::NotFound(m.clone()),
            Error::AlreadyExists(m) => Error::AlreadyExists(m.clone()),
            Error::Locked => Error::Locked,
            Error::DeadlineExceeded => Error::DeadlineExceeded,
            Error::TransactionExpired => Error::TransactionExpired,
            Error::Cancelled => Error::Cancelled,
            Error::LimitExceeded { resource, limit } => Error::LimitExceeded {
                resource: *resource,
                limit: *limit,
            },
            Error::UnsupportedIsolation(level) => Error::UnsupportedIsolation(*level),
            Error::Conflict { table, entity } => Error::Conflict {
                table: *table,
                entity: *entity,
            },
            Error::VersionUnavailable { requested, first, last } => Error::VersionUnavailable {
                requested: *requested,
                first: *first,
                last: *last,
            },
            Error::CommitUnknown(m) => Error::CommitUnknown(m.clone()),
            Error::NeedsRecovery => Error::NeedsRecovery,
            Error::Unread { file, offset, length } => Error::Unread {
                file: *file,
                offset: *offset,
                length: *length,
            },
        }
    }
}

fn append_optional(s: &mut String, id: Option<u64>)
    ensures
        final(s)@ == old(s)@ + optional_text(id),
{
    match id {
        Some(n) => {
            s.append("Some(");
            s.append(to_decimal(n).as_str());
            s.append(")");
        },
        None => s.append("None"),
    }
    assert(s@ =~= old(s)@ + optional_text(id));
}

/// A failed validation of a stored structure.
pub fn corrupt(message: &str) -> (e: Error)
    ensures
        e matches Error::Corrupt(s) && s@ == message@,
{
    Error::Corrupt(message.to_owned())
}

/// A rejected schema, option or operation.
pub fn invalid(message: &str) -> (e: Error)
    ensures
        e matches Error::Invalid(s) && s@ == message@,
{
    Error::Invalid(message.to_owned())
}

/// Why a read of stored data fails.
pub enum Fault {
    /// What is stored is damaged.
    Corrupt,
    /// A stored event does not fit the schema.
    Invalid,
    /// The table or entity does not exist.
    Missing,
    /// The table or entity exists already.
    Exists,
    /// An uncertain write requires reopening the database.
    Poisoned,
    /// The version is not retained.
    Unavailable {
        /// The requested version.
        requested: u64,
        /// The first available version.
        first: u64,
        /// The last available version.
        last: u64,
    },
}

/// What a read of stored data comes to.
pub type Outcome<T> = core::result::Result<T, Fault>;

/// Whether an error reports a fault.
pub open spec fn reports(e: Error, f: Fault) -> bool {
    match f {
        Fault::Corrupt => e is Corrupt,
        Fault::Invalid => e is Invalid,
        Fault::Missing => e is NotFound,
        Fault::Exists => e is AlreadyExists,
        Fault::Poisoned => e is NeedsRecovery,
        Fault::Unavailable { requested, first, last } => e == (Error::VersionUnavailable {
            requested,
            first,
            last,
        }),
    }
}

} // verus!
