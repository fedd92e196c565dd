//! The errors of the queue.

use vstd::prelude::*;
use vstd::string::*;

use crate::text;

verus! {

/// The error type of `bincode`, carried through unread.
#[verifier::external_type_specification]
#[verifier::external_body]
pub struct ExBincodeErrorKind(bincode::ErrorKind);

/// The kind of a refused or failed input/output request.
#[derive(Debug, Clone, Copy, PartialEq, Eq, Structural)]
pub enum IoKind {
    /// The request is not allowed.
    PermissionDenied,
    /// Any other failure.
    Other,
}

/// What an operation on the queue can fail with.
#[derive(Debug)]
pub enum QueueError {
    /// The store reported an error; its own words.
    RocksDB(String),
    /// A record could not be encoded or decoded.
    Serialization(Box<bincode::ErrorKind>),
    QueueNotFound(String),
    TaskNotFound(String),
    /// The named column family does not exist.
    ColumnFamilyMissing(String),
    /// Admitting the incoming tasks would exceed the backlog quota.
    BacklogQuotaExceeded {
        tenant: String,
        queue: String,
        current: usize,
        quota: usize,
        incoming: usize,
    },
    /// An input/output request was refused or failed; its kind and the reason.
    Io(IoKind, String),
}

/// An error as a mathematical value; of a decoding error, only that it is one.
pub enum Fault {
    Store(Seq<char>),
    Serialization,
    QueueNotFound(Seq<char>),
    TaskNotFound(Seq<char>),
    ColumnFamilyMissing(Seq<char>),
    BacklogQuotaExceeded {
        tenant: Seq<char>,
        queue: Seq<char>,
        current: usize,
        quota: usize,
        incoming: usize,
    },
    Io(IoKind, Seq<char>),
}

impl View for QueueError {
    type V = Fault;

    open spec fn view(&self) -> Fault {
        match self {
            QueueError::RocksDB(s) => Fault::Store(s@),
            QueueError::Serialization(_) => Fault::Serialization,
            QueueError::QueueNotFound(s) => Fault::QueueNotFound(s@),
            QueueError::TaskNotFound(s) => Fault::TaskNotFound(s@),
            QueueError::ColumnFamilyMissing(s) => Fault::ColumnFamilyMissing(s@),
            QueueError::BacklogQuotaExceeded { tenant, queue, current, quota, incoming } => {
                Fault::BacklogQuotaExceeded {
                    tenant: tenant@,
                    queue: queue@,
                    current: *current,
                    quota: *quota,
                    incoming: *incoming,
                }
            },
            QueueError::Io(kind, s) => Fault::Io(*kind, s@),
        }
    }
}

/// `Display` of `bincode::ErrorKind`. The words are bincode's and depend on
/// what is inside the error, which is not looked at here: nothing is said of
/// them.
#[verifier::external_body]
fn decoding_text(e: &bincode::ErrorKind) -> String {
    e.to_string()
}

/// What is shown for an error, before the words that come from elsewhere.
pub open spec fn fault_text(f: Fault) -> Seq<char> {
    match f {
        Fault::Store(s) => "RocksDB error: "@ + s,
        Fault::Serialization => "Serialization error: "@,
        Fault::QueueNotFound(s) => "Queue not found: "@ + s,
        Fault::TaskNotFound(s) => "Task not found: "@ + s,
        Fault::ColumnFamilyMissing(s) => "Column family missing: "@ + s,
        Fault::BacklogQuotaExceeded { tenant, queue, current, quota, incoming } => {
            "Backlog quota exceeded for tenant="@ + tenant + " queue="@ + queue + ": current="@
                + text::decimal(current as nat) + " quota="@ + text::decimal(quota as nat)
                + " incoming="@ + text::decimal(incoming as nat)
        },
        Fault::Io(_, s) => "IO error: "@ + s,
    }
}

impl QueueError {
    /// The error in words. Of a decoding error only the beginning is stated:
    /// the rest is what the decoder says.
    pub fn message(&self) -> (r: String)
        ensures
            self@ is Serialization ==> fault_text(self@).is_prefix_of(r@),
            !(self@ is Serialization) ==> r@ == fault_text(self@),
    {
        match self {
            QueueError::RocksDB(s) => text::join("RocksDB error: ", s.as_str()),
            QueueError::Serialization(e) => {
                let detail = decoding_text(e);
                let r = text::join("Serialization error: ", detail.as_str());
                assert(r@.subrange(0, "Serialization error: "@.len() as int)
                    =~= "Serialization error: "@);
                r
            },
            QueueError::QueueNotFound(s) => text::join("Queue not found: ", s.as_str()),
            QueueError::TaskNotFound(s) => text::join("Task not found: ", s.as_str()),
            QueueError::ColumnFamilyMissing(s) => text::join(
                "Column family missing: ",
                s.as_str(),
            ),
            QueueError::BacklogQuotaExceeded { tenant, queue, current, quota, incoming } => {
                let mut r = text::join("Backlog quota exceeded for tenant=", tenant.as_str());
                r.append(" queue=");
                r.append(queue.as_str());
                r.append(": current=");
                r.append(text::decimal_text(*current as u64).as_str());
                r.append(" quota=");
                r.append(text::decimal_text(*quota as u64).as_str());
                r.append(" incoming=");
                r.append(text::decimal_text(*incoming as u64).as_str());
                r
            },
            QueueError::Io(_, s) => text::join("IO error: ", s.as_str()),
        }
    }
}

/// An error names what it is about behind the words of its kind, and a full backlog
/// tells the tenant, the queue, and how many tasks there are, may be and were to come.
pub proof fn law_error_tells(
    s: Seq<char>,
    queue: Seq<char>,
    current: usize,
    quota: usize,
    incoming: usize,
    kind: IoKind,
)
    ensures
        fault_text(Fault::Store(s)) == "RocksDB error: "@ + s,
        fault_text(Fault::QueueNotFound(s)) == "Queue not found: "@ + s,
        fault_text(Fault::TaskNotFound(s)) == "Task not found: "@ + s,
        fault_text(Fault::ColumnFamilyMissing(s)) == "Column family missing: "@ + s,
        fault_text(Fault::Io(kind, s)) == "IO error: "@ + s,
        fault_text(Fault::Serialization) == "Serialization error: "@,
        fault_text((Fault::BacklogQuotaExceeded { tenant: s, queue, current, quota, incoming }))
            == "Backlog quota exceeded for tenant="@ + s + " queue="@ + queue + ": current="@
            + text::decimal(current as nat) + " quota="@ + text::decimal(quota as nat)
            + " incoming="@ + text::decimal(incoming as nat),
{
}

} // verus!
