//! An error type that needs no heap: a static message.
use vstd::prelude::*;

verus! {

/// An error carrying a static message.
#[derive(Debug, Clone)]
pub enum HeaplessError {
    StrError(&'static str),
}

/// A result whose error is a [`HeaplessError`].
pub type HeaplessResult<T> = Result<T, HeaplessError>;

impl HeaplessError {
    /// The error with message `msg`.
    pub fn msg(msg: &'static str) -> (e: Self)
        ensures
            e == HeaplessError::StrError(msg),
    {
        HeaplessError::StrError(msg)
    }

    /// The message of this error.
    pub open spec fn message(&self) -> &'static str {
        match self {
            HeaplessError::StrError(s) => *s,
        }
    }

    /// The message of this error, as the error displays it.
    pub fn to_string(&self) -> (s: String)
        ensures
            s@ == self.message()@,
    {
        match self {
            HeaplessError::StrError(s) => (*s).to_owned(),
        }
    }

    /// The error made from a message.
    pub fn from(err: &'static str) -> (e: Self)
        ensures
            e == HeaplessError::StrError(err),
    {
        HeaplessError::StrError(err)
    }
}

/// Attaching a message to a missing value.
pub trait HeaplessErrorExt {
    type Ok;

    /// The value, or an error with `msg` where there is none.
    fn context(self, msg: &'static str) -> HeaplessResult<Self::Ok>;
}

impl<T> HeaplessErrorExt for Option<T> {
    type Ok = T;

    fn context(self, msg: &'static str) -> (r: HeaplessResult<T>)
        ensures
            match self {
                Some(s) => r == Ok::<T, HeaplessError>(s),
                None => r == Err::<T, HeaplessError>(HeaplessError::StrError(msg)),
            },
    {
        match self {
            Some(s) => Ok(s),
            None => Err(HeaplessError::StrError(msg)),
        }
    }
}

} // verus!
