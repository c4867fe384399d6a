//! Error types.
//!
//! Every error has a severity:
//!
//! - `Fatal`: always returned as an error
//! - `Degrade { metric, recoverable }`: escalated to `Fatal` in strict mode,
//!   otherwise the operation degrades and continues
//! - `Warn { metric }`: a warning only, execution is not affected
//!
//! Callers inspect `error.severity()` and combine it with `strict_mode` to
//! decide whether to escalate.

use crate::text::{copy_str, decimal, push_decimal, str_eq};
use vstd::prelude::*;

verus! {

/// Error severity. Tells the caller how to handle an error.
#[derive(Debug, Clone, Copy, PartialEq, Eq)]
pub enum Severity {
    /// Fatal error: must be propagated; the caller should abandon the operation.
    Fatal,
    /// Degraded error: escalated to `Fatal` in strict mode, otherwise a metric
    /// is recorded and execution continues. `recoverable` says whether the
    /// degraded result is still correct.
    Degrade { metric: &'static str, recoverable: bool },
    /// Warning: does not affect execution.
    Warn { metric: &'static str },
}

impl Severity {
    /// Whether this is a fatal error.
    pub fn is_fatal(&self) -> (r: bool)
        ensures
            r == (*self is Fatal),
    {
        matches!(self, Severity::Fatal)
    }

    /// Whether this is a degraded error.
    pub fn is_degrade(&self) -> (r: bool)
        ensures
            r == (*self is Degrade),
    {
        matches!(self, Severity::Degrade { .. })
    }

    /// The effective severity: strict mode turns `Degrade` into `Fatal` and
    /// nothing else changes.
    pub fn with_strict_mode(self, strict_mode: bool) -> (r: Severity)
        ensures
            r == self.under_strict_mode(strict_mode),
    {
        match (self, strict_mode) {
            (Severity::Degrade { .. }, true) => Severity::Fatal,
            (other, _) => other,
        }
    }

    /// The effective severity under `strict_mode`.
    pub open spec fn under_strict_mode(self, strict_mode: bool) -> Severity {
        if self is Degrade && strict_mode {
            Severity::Fatal
        } else {
            self
        }
    }

    /// The metric name, for logging and monitoring; fatal errors have none.
    pub fn metric(&self) -> (r: Option<&'static str>)
        ensures
            r == self.metric_name(),
    {
        match self {
            Severity::Fatal => None,
            Severity::Degrade { metric, .. } => Some(*metric),
            Severity::Warn { metric } => Some(*metric),
        }
    }

    /// The metric that this severity counts under.
    pub open spec fn metric_name(self) -> Option<&'static str> {
        match self {
            Severity::Fatal => None,
            Severity::Degrade { metric, .. } => Some(metric),
            Severity::Warn { metric } => Some(metric),
        }
    }
}

/// What kind of I/O error occurred, as far as the engine tells them apart.
/// `Named` carries the name of any other kind.
#[derive(Debug)]
pub enum IoErrorKind {
    NotFound,
    PermissionDenied,
    AlreadyExists,
    WouldBlock,
    AddrInUse,
    Named(String),
}

impl IoErrorKind {
    /// The name of the kind.
    pub open spec fn name(self) -> Seq<char> {
        match self {
            IoErrorKind::NotFound => "NotFound"@,
            IoErrorKind::PermissionDenied => "PermissionDenied"@,
            IoErrorKind::AlreadyExists => "AlreadyExists"@,
            IoErrorKind::WouldBlock => "WouldBlock"@,
            IoErrorKind::AddrInUse => "AddrInUse"@,
            IoErrorKind::Named(name) => name@,
        }
    }

    /// Whether two values say the same kind.
    pub open spec fn same(self, other: Self) -> bool {
        match (self, other) {
            (IoErrorKind::NotFound, IoErrorKind::NotFound) => true,
            (IoErrorKind::PermissionDenied, IoErrorKind::PermissionDenied) => true,
            (IoErrorKind::AlreadyExists, IoErrorKind::AlreadyExists) => true,
            (IoErrorKind::WouldBlock, IoErrorKind::WouldBlock) => true,
            (IoErrorKind::AddrInUse, IoErrorKind::AddrInUse) => true,
            (IoErrorKind::Named(a), IoErrorKind::Named(b)) => a@ == b@,
            _ => false,
        }
    }

    /// The name of the kind, as text.
    pub fn to_name(&self) -> (r: String)
        ensures
            r@ == self.name(),
    {
        match self {
            IoErrorKind::NotFound => copy_str("NotFound"),
            IoErrorKind::PermissionDenied => copy_str("PermissionDenied"),
            IoErrorKind::AlreadyExists => copy_str("AlreadyExists"),
            IoErrorKind::WouldBlock => copy_str("WouldBlock"),
            IoErrorKind::AddrInUse => copy_str("AddrInUse"),
            IoErrorKind::Named(name) => copy_str(name.as_str()),
        }
    }
}

impl Clone for IoErrorKind {
    fn clone(&self) -> (r: Self)
        ensures
            r.same(*self),
    {
        match self {
            IoErrorKind::NotFound => IoErrorKind::NotFound,
            IoErrorKind::PermissionDenied => IoErrorKind::PermissionDenied,
            IoErrorKind::AlreadyExists => IoErrorKind::AlreadyExists,
            IoErrorKind::WouldBlock => IoErrorKind::WouldBlock,
            IoErrorKind::AddrInUse => IoErrorKind::AddrInUse,
            IoErrorKind::Named(name) => IoErrorKind::Named(copy_str(name.as_str())),
        }
    }
}

/// An I/O error: its kind and its text.
#[derive(Debug)]
pub struct IoError {
    pub kind: IoErrorKind,
    pub message: String,
}

#[derive(Debug)]
pub enum Z1Error {
    Io(IoError),
    Serialization(String),
    Deserialize(String),
    Internal(String),
    Wal(String),
    MvccConflict(String),
    TxnNotFound(u64),
    /// Degraded error with a metric and its context; `severity()` decides
    /// whether it escalates.
    Degraded { metric: &'static str, context: String },
}

/// Whether two errors have the same variant and the same content.
pub open spec fn same_error(a: Z1Error, b: Z1Error) -> bool {
    match (a, b) {
        (Z1Error::Io(x), Z1Error::Io(y)) => x.kind.same(y.kind) && x.message@ == y.message@,
        (Z1Error::Serialization(x), Z1Error::Serialization(y)) => x@ == y@,
        (Z1Error::Deserialize(x), Z1Error::Deserialize(y)) => x@ == y@,
        (Z1Error::Internal(x), Z1Error::Internal(y)) => x@ == y@,
        (Z1Error::Wal(x), Z1Error::Wal(y)) => x@ == y@,
        (Z1Error::MvccConflict(x), Z1Error::MvccConflict(y)) => x@ == y@,
        (Z1Error::TxnNotFound(x), Z1Error::TxnNotFound(y)) => x == y,
        (
            Z1Error::Degraded { metric: m, context: x },
            Z1Error::Degraded { metric: n, context: y },
        ) => m == n && x@ == y@,
        _ => false,
    }
}

impl Clone for Z1Error {
    fn clone(&self) -> (r: Self)
        ensures
            same_error(*self, r),
    {
        match self {
            Z1Error::Io(e) => Z1Error::Io(
                IoError { kind: e.kind.clone(), message: copy_str(e.message.as_str()) },
            ),
            Z1Error::Serialization(s) => Z1Error::Serialization(copy_str(s.as_str())),
            Z1Error::Deserialize(s) => Z1Error::Deserialize(copy_str(s.as_str())),
            Z1Error::Internal(s) => Z1Error::Internal(copy_str(s.as_str())),
            Z1Error::Wal(s) => Z1Error::Wal(copy_str(s.as_str())),
            Z1Error::MvccConflict(s) => Z1Error::MvccConflict(copy_str(s.as_str())),
            Z1Error::TxnNotFound(id) => Z1Error::TxnNotFound(*id),
            Z1Error::Degraded { metric, context } => Z1Error::Degraded {
                metric: *metric,
                context: copy_str(context.as_str()),
            },
        }
    }
}

/// A degraded result under one of these metrics would be wrong.
pub open spec fn is_unrecoverable_metric(metric: Seq<char>) -> bool {
    ||| metric == "vis_data_unavailable"@
    ||| metric == "wal_record_corrupt"@
    ||| metric == "version_chain_broken"@
    ||| metric == "gc_snapshot_violation"@
}

impl Z1Error {
    /// A degraded error.
    pub fn degrade(metric: &'static str, context: &str) -> (r: Self)
        ensures
            r matches Z1Error::Degraded { metric: m, context: c } && m == metric && c@ == context@,
    {
        Z1Error::Degraded { metric, context: copy_str(context) }
    }

    /// The severity of an error.
    pub open spec fn severity_of(self) -> Severity {
        match self {
            Z1Error::Degraded { metric, .. } => Severity::Degrade {
                metric,
                recoverable: !is_unrecoverable_metric(metric@),
            },
            _ => Severity::Fatal,
        }
    }

    /// The error's severity: only `Degraded` is not fatal, and it is
    /// recoverable unless its metric is one of the unrecoverable ones.
    pub fn severity(&self) -> (r: Severity)
        ensures
            r == self.severity_of(),
    {
        match self {
            Z1Error::Degraded { metric, .. } => {
                let metric: &'static str = *metric;
                Severity::Degrade { metric, recoverable: !Self::is_unrecoverable(metric) }
            },
            _ => Severity::Fatal,
        }
    }

    /// The unrecoverable degradation metrics: even with a degradation path
    /// these must surface as errors in strict mode, because degrading would
    /// give incorrect results.
    ///
    /// - `vis_data_unavailable`: visibility data is missing, so deleted data
    ///   could become readable
    /// - `wal_record_corrupt`: a corrupt WAL record was skipped, so committed
    ///   writes could be lost
    /// - `version_chain_broken`: compaction deleted a visible version
    /// - `gc_snapshot_violation`: GC removed a version that an active
    ///   snapshot may still reference
    pub fn unrecoverable_metrics() -> (r: Vec<&'static str>)
        ensures
            r@.len() == 4,
            r@[0]@ == "vis_data_unavailable"@,
            r@[1]@ == "wal_record_corrupt"@,
            r@[2]@ == "version_chain_broken"@,
            r@[3]@ == "gc_snapshot_violation"@,
    {
        let mut r: Vec<&'static str> = Vec::new();
        r.push("vis_data_unavailable");
        r.push("wal_record_corrupt");
        r.push("version_chain_broken");
        r.push("gc_snapshot_violation");
        r
    }

    /// Whether a metric is one of the unrecoverable ones.
    fn is_unrecoverable(metric: &str) -> (r: bool)
        ensures
            r == is_unrecoverable_metric(metric@),
    {
        let all = Self::unrecoverable_metrics();
        let mut i: usize = 0;
        while i < all.len()
            invariant
                i <= all@.len(),
                forall|j: int| 0 <= j < i ==> all@[j]@ != metric@,
                all@.len() == 4,
                all@[0]@ == "vis_data_unavailable"@,
                all@[1]@ == "wal_record_corrupt"@,
                all@[2]@ == "version_chain_broken"@,
                all@[3]@ == "gc_snapshot_violation"@,
            decreases all@.len() - i,
        {
            if str_eq(all[i], metric) {
                return true;
            }
            i = i + 1;
        }
        assert(all@[0]@ != metric@ && all@[1]@ != metric@ && all@[2]@ != metric@ && all@[3]@
            != metric@);
        false
    }

    /// The text of an error.
    pub open spec fn text(self) -> Seq<char> {
        match self {
            Z1Error::Io(e) => "IO error: "@ + e.message@,
            Z1Error::Serialization(s) => "Serialization error: "@ + s@,
            Z1Error::Deserialize(s) => "Deserialization error: "@ + s@,
            Z1Error::Internal(s) => "Internal error: "@ + s@,
            Z1Error::Wal(s) => "WAL error: "@ + s@,
            Z1Error::MvccConflict(s) => "MVCC conflict: "@ + s@,
            Z1Error::TxnNotFound(id) => "Transaction not found: txn_id="@ + decimal(id as nat),
            Z1Error::Degraded { metric, context } => "Degraded ["@ + metric@ + "]: "@ + context@,
        }
    }

    /// The error as text.
    pub fn to_text(&self) -> (r: String)
        ensures
            r@ == self.text(),
    {
        match self {
            Z1Error::Io(e) => concat2("IO error: ", e.message.as_str()),
            Z1Error::Serialization(s) => concat2("Serialization error: ", s.as_str()),
            Z1Error::Deserialize(s) => concat2("Deserialization error: ", s.as_str()),
            Z1Error::Internal(s) => concat2("Internal error: ", s.as_str()),
            Z1Error::Wal(s) => concat2("WAL error: ", s.as_str()),
            Z1Error::MvccConflict(s) => concat2("MVCC conflict: ", s.as_str()),
            Z1Error::TxnNotFound(id) => {
                let mut out = copy_str("Transaction not found: txn_id=");
                push_decimal(&mut out, *id);
                out
            },
            Z1Error::Degraded { metric, context } => {
                let mut out = concat2("Degraded [", *metric);
                out.append("]: ");
                out.append(context.as_str());
                out
            },
        }
    }
}

/// Two strings one after the other.
pub fn concat2(a: &str, b: &str) -> (r: String)
    ensures
        r@ == a@ + b@,
{
    let mut out = copy_str(a);
    out.append(b);
    out
}

pub type Result<T> = core::result::Result<T, Z1Error>;

/// How errors read: what kind of error it is, and what it says.
pub proof fn law_error_texts(
    io: IoError,
    message: String,
    txn_id: u64,
    metric: &'static str,
)
    ensures
        Z1Error::Io(io).text() == "IO error: "@ + io.message@,
        Z1Error::Serialization(message).text() == "Serialization error: "@ + message@,
        Z1Error::Deserialize(message).text() == "Deserialization error: "@ + message@,
        Z1Error::Internal(message).text() == "Internal error: "@ + message@,
        Z1Error::Wal(message).text() == "WAL error: "@ + message@,
        Z1Error::MvccConflict(message).text() == "MVCC conflict: "@ + message@,
        Z1Error::TxnNotFound(txn_id).text() == "Transaction not found: txn_id="@ + decimal(
            txn_id as nat,
        ),
        (Z1Error::Degraded { metric, context: message }).text() == "Degraded ["@ + metric@ + "]: "@
            + message@,
{
}

/// Errors that are the same read the same, weigh the same, and are of one kind.
pub proof fn law_same_errors(a: Z1Error, b: Z1Error)
    requires
        same_error(a, b),
    ensures
        a.text() == b.text(),
        a is Degraded <==> b is Degraded,
        a is Io <==> b is Io,
        a is Deserialize <==> b is Deserialize,
        a is MvccConflict <==> b is MvccConflict,
        a is TxnNotFound <==> b is TxnNotFound,
        a is Wal <==> b is Wal,
        a is Internal <==> b is Internal,
        a is Io && b is Io ==> a->Io_0.kind.name() == b->Io_0.kind.name(),
        a.severity_of() == b.severity_of(),
{
}

} // verus!
