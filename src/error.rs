use vstd::prelude::*;
use vstd::string::*;
use crate::value::ValueModel;

verus! {

/// Why resolving a token set failed.
#[derive(Debug)]
pub enum ResolveError {
    /// An alias chain came back to a path that was still being resolved.
    CycleDetected(String),
    /// An alias or reference names a path that the set does not hold.
    TokenNotFound(String),
    /// Reserved for value-shape violations.
    TypeMismatch(String),
    /// A pipeline step names an unknown operation or has unusable arguments.
    InvalidTransform(String),
    /// A known operation cannot produce a result for its input.
    TransformFailed(String),
}

/// The kind of a `ResolveError`, without its message.
pub enum ErrorKind {
    CycleDetected,
    TokenNotFound,
    TypeMismatch,
    InvalidTransform,
    TransformFailed,
}

impl ResolveError {
    pub open spec fn kind(&self) -> ErrorKind {
        match self {
            ResolveError::CycleDetected(_) => ErrorKind::CycleDetected,
            ResolveError::TokenNotFound(_) => ErrorKind::TokenNotFound,
            ResolveError::TypeMismatch(_) => ErrorKind::TypeMismatch,
            ResolveError::InvalidTransform(_) => ErrorKind::InvalidTransform,
            ResolveError::TransformFailed(_) => ErrorKind::TransformFailed,
        }
    }

    /// The message carried by the error.
    pub open spec fn message(&self) -> Seq<char> {
        match self {
            ResolveError::CycleDetected(m) => m@,
            ResolveError::TokenNotFound(m) => m@,
            ResolveError::TypeMismatch(m) => m@,
            ResolveError::InvalidTransform(m) => m@,
            ResolveError::TransformFailed(m) => m@,
        }
    }

    /// The message carried by the error.
    pub fn message_text(&self) -> (r: &String)
        ensures
            r@ == self.message(),
    {
        match self {
            ResolveError::CycleDetected(m) => m,
            ResolveError::TokenNotFound(m) => m,
            ResolveError::TypeMismatch(m) => m,
            ResolveError::InvalidTransform(m) => m,
            ResolveError::TransformFailed(m) => m,
        }
    }
}

/// The model of an outcome: the value's model, or the error's kind.
pub open spec fn outcome(r: Result<crate::value::TokenValue, ResolveError>) -> Result<ValueModel, ErrorKind> {
    match r {
        Ok(v) => Ok(v@),
        Err(e) => Err(e.kind()),
    }
}

pub(crate) fn invalid_transform(msg: &str) -> (r: ResolveError)
    ensures
        r.kind() == ErrorKind::InvalidTransform,
{
    ResolveError::InvalidTransform(String::from_str(msg))
}

pub(crate) fn transform_failed(msg: &str) -> (r: ResolveError)
    ensures
        r.kind() == ErrorKind::TransformFailed,
{
    ResolveError::TransformFailed(String::from_str(msg))
}

} // verus!
