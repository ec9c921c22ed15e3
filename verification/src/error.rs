//! Errors of the decoders and of model loading.
use vstd::prelude::*;

verus! {

/// What can go wrong while loading or running a model.
#[derive(Debug)]
pub enum Error {
    /// A model file is missing or a setting does not fit.
    Config(String),
    /// A tensor of the model has an unexpected shape or type.
    Model(String),
    /// The inference runtime refused a request.
    Runtime(String),
}

/// The two errors are of the same kind and say the same.
pub open spec fn same_error(a: Error, b: Error) -> bool {
    match (a, b) {
        (Error::Config(x), Error::Config(y)) => x@ == y@,
        (Error::Model(x), Error::Model(y)) => x@ == y@,
        (Error::Runtime(x), Error::Runtime(y)) => x@ == y@,
        _ => false,
    }
}

impl Clone for Error {
    fn clone(&self) -> (r: Self)
        ensures
            r == *self,
    {
        match self {
            Error::Config(text) => Error::Config(text.clone()),
            Error::Model(text) => Error::Model(text.clone()),
            Error::Runtime(text) => Error::Runtime(text.clone()),
        }
    }
}

impl Error {
    /// The text that tells a user what went wrong.
    pub fn message(&self) -> (r: &str)
        ensures
            r@ == match *self {
                Error::Config(text) => text@,
                Error::Model(text) => text@,
                Error::Runtime(text) => text@,
            },
    {
        match self {
            Error::Config(text) => text.as_str(),
            Error::Model(text) => text.as_str(),
            Error::Runtime(text) => text.as_str(),
        }
    }
}

/// The message of an error is its text as it is, whatever kind of error it is.
pub proof fn law_messages_are_the_texts(e: &Error, text: String, r: &str)
    requires
        call_ensures(Error::message, (e,), r),
    ensures
        *e == Error::Config(text) || *e == Error::Model(text) || *e == Error::Runtime(text) ==> r@
            == text@,
{
}

} // verus!
