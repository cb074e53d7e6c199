//! Errors reported by this library.
//!
//! An error carries a kind, and either a raw status code of the system or a
//! short description.
use vstd::prelude::*;

verus! {

/// Base of the system's general status codes.
pub const B_GENERAL_ERROR_BASE: i32 = -2147483648;

pub const B_NO_MEMORY: i32 = -2147483648;

pub const B_IO_ERROR: i32 = -2147483647;

pub const B_PERMISSION_DENIED: i32 = -2147483646;

pub const B_BAD_INDEX: i32 = -2147483645;

pub const B_BAD_TYPE: i32 = -2147483644;

pub const B_BAD_VALUE: i32 = -2147483643;

pub const B_MISMATCHED_VALUES: i32 = -2147483642;

pub const B_NAME_NOT_FOUND: i32 = -2147483641;

pub const B_NAME_IN_USE: i32 = -2147483640;

pub const B_TIMED_OUT: i32 = -2147483639;

pub const B_INTERRUPTED: i32 = -2147483638;

pub const B_NOT_ALLOWED: i32 = -2147483633;

pub const B_BAD_DATA: i32 = -2147483632;

pub const B_DONT_DO_THAT: i32 = -2147483631;

/// The port does not exist, or no longer does.
pub const B_BAD_PORT_ID: i32 = -2147479040;

pub const B_ERROR: i32 = -1;

pub const B_OK: i32 = 0;

/// The kind of error that occurred.
#[derive(Clone, Copy, Debug, PartialEq, Eq, Structural)]
pub enum ErrorKind {
    /// An operation was interrupted by another system event; it may be retried.
    Interrupted,
    /// Data is malformed, too short, or of the wrong type.
    InvalidData,
    /// The caller supplied an argument that is not valid.
    InvalidInput,
    /// A name, field or handler does not exist.
    NotFound,
    /// The operation is refused by policy or by its target.
    NotAllowed,
    /// A blocking operation exceeded its deadline.
    TimedOut,
    /// Any other failure.
    Other,
}

impl ErrorKind {
    /// A short human readable description of the kind.
    pub fn as_str(&self) -> (r: &'static str)
        ensures
            r@ == error_kind_text(*self)@,
    {
        match *self {
            ErrorKind::Interrupted => "interrupted",
            ErrorKind::InvalidData => "invalid data",
            ErrorKind::InvalidInput => "invalid input parameter",
            ErrorKind::NotFound => "entity not found",
            ErrorKind::NotAllowed => "operation not allowed",
            ErrorKind::TimedOut => "operation timed out",
            ErrorKind::Other => "other os error",
        }
    }
}

/// The description that `ErrorKind::as_str` gives for each kind.
pub open spec fn error_kind_text(kind: ErrorKind) -> &'static str {
    match kind {
        ErrorKind::Interrupted => "interrupted",
        ErrorKind::InvalidData => "invalid data",
        ErrorKind::InvalidInput => "invalid input parameter",
        ErrorKind::NotFound => "entity not found",
        ErrorKind::NotAllowed => "operation not allowed",
        ErrorKind::TimedOut => "operation timed out",
        ErrorKind::Other => "other os error",
    }
}

/// How an error was made: from a raw status code, from a kind alone, or
/// from a kind with a description.
#[derive(Debug)]
pub enum Repr {
    Os(i32),
    Simple(ErrorKind),
    Custom(ErrorKind, String),
}

/// The error type of this library.
#[derive(Debug)]
pub struct HaikuError {
    pub repr: Repr,
}

/// The kind that a raw status code of the system stands for.
pub open spec fn os_error_kind(code: i32) -> ErrorKind {
    if code == B_BAD_INDEX || code == B_BAD_TYPE || code == B_BAD_VALUE || code
        == B_MISMATCHED_VALUES || code == B_NAME_IN_USE || code == B_DONT_DO_THAT {
        ErrorKind::InvalidInput
    } else if code == B_INTERRUPTED {
        ErrorKind::Interrupted
    } else if code == B_NAME_NOT_FOUND {
        ErrorKind::NotFound
    } else if code == B_BAD_DATA {
        ErrorKind::InvalidData
    } else if code == B_NOT_ALLOWED {
        ErrorKind::NotAllowed
    } else if code == B_TIMED_OUT {
        ErrorKind::TimedOut
    } else {
        ErrorKind::Other
    }
}

/// Map a raw status code of the system to an error kind.
pub fn decode_error_kind(code: i32) -> (r: ErrorKind)
    ensures
        r == os_error_kind(code),
{
    if code == B_BAD_INDEX || code == B_BAD_TYPE || code == B_BAD_VALUE || code
        == B_MISMATCHED_VALUES || code == B_NAME_IN_USE || code == B_DONT_DO_THAT {
        ErrorKind::InvalidInput
    } else if code == B_INTERRUPTED {
        ErrorKind::Interrupted
    } else if code == B_NAME_NOT_FOUND {
        ErrorKind::NotFound
    } else if code == B_BAD_DATA {
        ErrorKind::InvalidData
    } else if code == B_NOT_ALLOWED {
        ErrorKind::NotAllowed
    } else if code == B_TIMED_OUT {
        ErrorKind::TimedOut
    } else {
        ErrorKind::Other
    }
}

impl HaikuError {
    /// The kind of this error, as `kind()` returns it.
    pub open spec fn spec_kind(&self) -> ErrorKind {
        match self.repr {
            Repr::Os(code) => os_error_kind(code),
            Repr::Simple(kind) => kind,
            Repr::Custom(kind, _) => kind,
        }
    }

    /// Create an error of `kind` with a description.
    pub fn new(kind: ErrorKind, error: &str) -> (r: HaikuError)
        ensures
            r.repr matches Repr::Custom(k, s) && k == kind && s@ == error@,
            r.spec_kind() == kind,
    {
        Self::_new(kind, error.to_owned())
    }

    fn _new(kind: ErrorKind, error: String) -> (r: HaikuError)
        ensures
            r.repr matches Repr::Custom(k, s) && k == kind && s == error,
    {
        HaikuError { repr: Repr::Custom(kind, error) }
    }

    /// Create an error of `kind` without a description.
    pub fn from_kind(kind: ErrorKind) -> (r: HaikuError)
        ensures
            r.repr == Repr::Simple(kind),
            r.spec_kind() == kind,
    {
        HaikuError { repr: Repr::Simple(kind) }
    }

    /// Wrap a raw status code of the system.
    pub fn from_raw_os_error(code: i32) -> (r: HaikuError)
        ensures
            r.repr == Repr::Os(code),
            r.spec_kind() == os_error_kind(code),
    {
        HaikuError { repr: Repr::Os(code) }
    }

    /// The raw status code, for an error made from one.
    pub fn raw_os_error(&self) -> (r: Option<i32>)
        ensures
            r == (match self.repr {
                Repr::Os(code) => Some(code),
                _ => None,
            }),
    {
        match self.repr {
            Repr::Os(code) => Some(code),
            Repr::Simple(_) => None,
            Repr::Custom(_, _) => None,
        }
    }

    /// The kind of this error.
    pub fn kind(&self) -> (r: ErrorKind)
        ensures
            r == self.spec_kind(),
    {
        match &self.repr {
            Repr::Os(code) => decode_error_kind(*code),
            Repr::Simple(kind) => *kind,
            Repr::Custom(kind, _) => *kind,
        }
    }

    /// A description of this error: the one it was made with, or else that
    /// of its kind.
    pub fn description(&self) -> (r: String)
        ensures
            r@ == (match self.repr {
                Repr::Custom(_, s) => s@,
                _ => error_kind_text(self.spec_kind())@,
            }),
    {
        match &self.repr {
            Repr::Custom(_, s) => s.clone(),
            _ => self.kind().as_str().to_owned(),
        }
    }
}

impl From<ErrorKind> for HaikuError {
    fn from(kind: ErrorKind) -> (r: HaikuError) {
        HaikuError { repr: Repr::Simple(kind) }
    }
}

impl vstd::std_specs::convert::FromSpecImpl<ErrorKind> for HaikuError {
    open spec fn obeys_from_spec() -> bool {
        true
    }

    open spec fn from_spec(kind: ErrorKind) -> HaikuError {
        HaikuError { repr: Repr::Simple(kind) }
    }
}

} // verus!
