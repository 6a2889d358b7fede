//! Error types: the failure kinds of the registration and discovery layer,
//! and the richer error carried by the user RPC service, with its mapping
//! onto coarse wire status classes.

use vstd::prelude::*;

verus! {

/// Failure kinds of the registration and discovery layer.
#[derive(Clone, Copy, Debug, PartialEq, Eq, Structural)]
pub enum RegistryError {
    /// The coordination store cannot be reached for a get, put, watch or
    /// lease operation.
    StoreUnavailable,
    /// A lease was confirmed gone: a keepalive acknowledgement reported a
    /// non-positive remaining time to live, or the retry budget ran out.
    LeaseExpired,
    /// A stored or watched value failed to parse; such a value is skipped,
    /// never fatal to the surrounding loop.
    MalformedRecord,
    /// No live instance is currently known for the requested service.
    NotFound,
    /// An outbound connection to a discovered endpoint could not be
    /// established.
    ConnectFailed,
}

/// The failure kinds of the user RPC service.
#[derive(Clone, Copy, Debug, PartialEq, Eq, Structural)]
pub enum ErrorKind {
    NotFound,
    UserNotFound,
    DbError,
    RedisError,
    InvalidCode,
    InvalidAccount,
    InvalidAccountOrPassword,
    InternalError,
    Unknown,
    InvalidEmail,
}

/// Coarse status classes onto which [`ErrorKind`] maps at the RPC wire.
#[derive(Clone, Copy, Debug, PartialEq, Eq, Structural)]
pub enum RpcCode {
    NotFound,
    Internal,
    InvalidArgument,
}

/// An error of the user RPC service: a kind, optional human-readable
/// details, and the rendering of an underlying cause if one exists.
pub struct Error {
    pub kind: ErrorKind,
    pub details: Option<String>,
    pub source: Option<String>,
}

impl Error {
    /// An error wrapping an underlying cause.
    pub fn new(kind: ErrorKind, details: String, source: String) -> (e: Error)
        ensures
            e.kind == kind,
            e.details == Some(details),
            e.source == Some(source),
    {
        Error { kind, details: Some(details), source: Some(source) }
    }

    /// An error with details and no underlying cause.
    pub fn with_details(kind: ErrorKind, details: String) -> (e: Error)
        ensures
            e.kind == kind,
            e.details == Some(details),
            e.source == None::<String>,
    {
        Error { kind, details: Some(details), source: None }
    }

    /// An internal error with details.
    pub fn internal_with_details(details: String) -> (e: Error)
        ensures
            e.kind == ErrorKind::InternalError,
            e.details == Some(details),
            e.source == None::<String>,
    {
        Error::with_details(ErrorKind::InternalError, details)
    }

    /// The error for a wrong or expired verification code.
    pub fn invalid_code(details: String) -> (e: Error)
        ensures
            e.kind == ErrorKind::InvalidCode,
            e.details == Some(details),
            e.source == None::<String>,
    {
        Error::with_details(ErrorKind::InvalidCode, details)
    }

    /// The error for a rejected account.
    pub fn invalid_account(details: String) -> (e: Error)
        ensures
            e.kind == ErrorKind::InvalidAccount,
            e.details == Some(details),
            e.source == None::<String>,
    {
        Error::with_details(ErrorKind::InvalidAccount, details)
    }

    /// The error for a rejected email address.
    pub fn invalid_email(details: String) -> (e: Error)
        ensures
            e.kind == ErrorKind::InvalidEmail,
            e.details == Some(details),
            e.source == None::<String>,
    {
        Error::with_details(ErrorKind::InvalidEmail, details)
    }

    /// The error for a failed login.
    pub fn invalid_account_or_password(details: String) -> (e: Error)
        ensures
            e.kind == ErrorKind::InvalidAccountOrPassword,
            e.details == Some(details),
            e.source == None::<String>,
    {
        Error::with_details(ErrorKind::InvalidAccountOrPassword, details)
    }
}

/// The status class an error kind is reported as at the RPC wire.
pub open spec fn spec_kind_code(kind: ErrorKind) -> RpcCode {
    match kind {
        ErrorKind::NotFound => RpcCode::NotFound,
        ErrorKind::UserNotFound => RpcCode::NotFound,
        ErrorKind::InvalidCode => RpcCode::InvalidArgument,
        ErrorKind::InvalidAccount => RpcCode::InvalidArgument,
        ErrorKind::InvalidEmail => RpcCode::InvalidArgument,
        ErrorKind::DbError => RpcCode::Internal,
        ErrorKind::InvalidAccountOrPassword => RpcCode::Internal,
        ErrorKind::RedisError => RpcCode::Internal,
        ErrorKind::Unknown => RpcCode::Internal,
        ErrorKind::InternalError => RpcCode::Internal,
    }
}

/// Maps an error kind to its wire status class.
pub fn kind_code(kind: ErrorKind) -> (c: RpcCode)
    ensures
        c == spec_kind_code(kind),
{
    match kind {
        ErrorKind::NotFound => RpcCode::NotFound,
        ErrorKind::UserNotFound => RpcCode::NotFound,
        ErrorKind::InvalidCode => RpcCode::InvalidArgument,
        ErrorKind::InvalidAccount => RpcCode::InvalidArgument,
        ErrorKind::InvalidEmail => RpcCode::InvalidArgument,
        ErrorKind::DbError => RpcCode::Internal,
        ErrorKind::InvalidAccountOrPassword => RpcCode::Internal,
        ErrorKind::RedisError => RpcCode::Internal,
        ErrorKind::Unknown => RpcCode::Internal,
        ErrorKind::InternalError => RpcCode::Internal,
    }
}

/// Character-for-character string equality.
fn str_eq(a: &str, b: &str) -> (r: bool)
    ensures
        r == (a@ == b@),
{
    let n = a.unicode_len();
    if n != b.unicode_len() {
        proof {
            assert(a@.len() != b@.len());
        }
        return false;
    }
    let mut i: usize = 0;
    while i < n
        invariant
            i <= n,
            n == a@.len(),
            n == b@.len(),
            forall|j: int| 0 <= j < i ==> a@[j] == b@[j],
        decreases n - i,
    {
        if a.get_char(i) != b.get_char(i) {
            return false;
        }
        i = i + 1;
    }
    proof {
        assert(a@ =~= b@);
    }
    true
}

/// The error kind a wire status message names: the two kinds the service
/// reports by name, and an internal error for everything else.
pub open spec fn spec_kind_for_message(msg: Seq<char>) -> ErrorKind {
    if msg == "NotFound"@ {
        ErrorKind::NotFound
    } else if msg == "UnknownError"@ {
        ErrorKind::Unknown
    } else {
        ErrorKind::InternalError
    }
}

/// Recovers an error kind from a wire status message.
pub fn kind_for_message(msg: &str) -> (k: ErrorKind)
    ensures
        k == spec_kind_for_message(msg@),
{
    if str_eq(msg, "NotFound") {
        ErrorKind::NotFound
    } else if str_eq(msg, "UnknownError") {
        ErrorKind::Unknown
    } else {
        ErrorKind::InternalError
    }
}

} // verus!
