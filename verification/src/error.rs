//! The library's error type and the conversions into it.

use vstd::prelude::*;
use vstd::string::StringExecFns;

verus! {

/// `std::io::Error`, carried opaquely inside [`FabError::IoError`].
#[verifier::external_type_specification]
#[verifier::external_body]
pub struct ExIoError(std::io::Error);

/// `bincode::ErrorKind`, carried opaquely (boxed) inside [`FabError::BincodeError`].
#[verifier::external_type_specification]
#[verifier::external_body]
pub struct ExBincodeErrorKind(bincode::ErrorKind);

/// `std::sync::PoisonError`, the error of a poisoned lock.
#[verifier::external_type_specification]
#[verifier::external_body]
#[verifier::reject_recursive_types(T)]
pub struct ExPoisonError<T>(std::sync::PoisonError<T>);

/// Everything that can go wrong in the broadcaster.
#[derive(Debug)]
pub enum FabError {
    /// A listener is already open on the requested port.
    AlreadyListeningError,
    /// No listener is open (on the requested port, or at all).
    NotListeningError,
    /// An I/O operation failed.
    IoError(std::io::Error),
    /// A lock was poisoned.
    MutexPoisonedError,
    /// The receiving half of a channel has gone away.
    ChannelSendError,
    /// A channel was closed while a message was awaited.
    ChannelRecvError,
    /// A message could not be encoded or decoded.
    BincodeError(bincode::Error),
}

/// The `Debug` text of an `io::Error` (`format!("{:?}", e)`). It holds the
/// operating system's message for the error, so nothing is promised of it.
#[verifier::external_body]
fn io_error_text(e: &std::io::Error) -> String {
    format!("{:?}", e)
}

/// The `Debug` text of a `bincode::Error` (`format!("{:?}", e)`). It may hold
/// an `io::Error`'s text, so nothing is promised of it.
#[verifier::external_body]
fn bincode_error_text(e: &bincode::Error) -> String {
    format!("{:?}", e)
}

impl FabError {
    /// A description of the error for people: a fixed sentence, or for an
    /// I/O or encoding error a fixed prefix followed by the error's own text.
    pub fn describe(&self) -> (s: String)
        ensures
            match self {
                FabError::AlreadyListeningError => s@ == "Already listening on that port"@,
                FabError::NotListeningError => s@ == "Not listening on that port"@,
                FabError::IoError(_) => "IO error: "@.is_prefix_of(s@),
                FabError::MutexPoisonedError => s@ == "Mutex poisoned"@,
                FabError::ChannelSendError => s@ == "Channel failed"@,
                FabError::ChannelRecvError => s@ == "Channel receive error"@,
                FabError::BincodeError(_) => "Error with bincode: "@.is_prefix_of(s@),
            },
    {
        match self {
            FabError::AlreadyListeningError => "Already listening on that port".to_owned(),
            FabError::NotListeningError => "Not listening on that port".to_owned(),
            FabError::IoError(e) => {
                let head = "IO error: ".to_owned();
                let text = io_error_text(e);
                let s = head.concat(text.as_str());
                assert(s@.subrange(0, "IO error: "@.len() as int) =~= "IO error: "@);
                s
            },
            FabError::MutexPoisonedError => "Mutex poisoned".to_owned(),
            FabError::ChannelSendError => "Channel failed".to_owned(),
            FabError::ChannelRecvError => "Channel receive error".to_owned(),
            FabError::BincodeError(e) => {
                let head = "Error with bincode: ".to_owned();
                let text = bincode_error_text(e);
                let s = head.concat(text.as_str());
                assert(s@.subrange(0, "Error with bincode: "@.len() as int) =~= "Error with bincode: "@);
                s
            },
        }
    }
}

impl From<std::io::Error> for FabError {
    fn from(e: std::io::Error) -> (r: Self) {
        FabError::IoError(e)
    }
}

impl vstd::std_specs::convert::FromSpecImpl<std::io::Error> for FabError {
    open spec fn obeys_from_spec() -> bool {
        true
    }

    open spec fn from_spec(e: std::io::Error) -> Self {
        FabError::IoError(e)
    }
}

impl From<bincode::Error> for FabError {
    fn from(e: bincode::Error) -> (r: Self) {
        FabError::BincodeError(e)
    }
}

impl vstd::std_specs::convert::FromSpecImpl<bincode::Error> for FabError {
    open spec fn obeys_from_spec() -> bool {
        true
    }

    open spec fn from_spec(e: bincode::Error) -> Self {
        FabError::BincodeError(e)
    }
}

impl<T> From<std::sync::PoisonError<T>> for FabError {
    fn from(e: std::sync::PoisonError<T>) -> (r: Self) {
        FabError::MutexPoisonedError
    }
}

impl<T> vstd::std_specs::convert::FromSpecImpl<std::sync::PoisonError<T>> for FabError {
    open spec fn obeys_from_spec() -> bool {
        true
    }

    open spec fn from_spec(e: std::sync::PoisonError<T>) -> Self {
        FabError::MutexPoisonedError
    }
}

} // verus!
