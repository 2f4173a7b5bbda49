//! Errors of the library and of the snapshot collaborator around it.
use vstd::prelude::*;

verus! {

#[verifier::external_type_specification]
#[verifier::external_body]
pub struct ExIoError(std::io::Error);

#[verifier::external_type_specification]
#[verifier::external_body]
pub struct ExJsonError(serde_json::Error);

/// What can go wrong around the book.
#[derive(Debug)]
pub enum SoluxError {
    /// Reading or writing a snapshot failed.
    Io(std::io::Error),
    /// A snapshot could not be encoded or decoded.
    Serialization(serde_json::Error),
    /// The book could not be reached.
    LockError,
    /// No such order.
    OrderNotFound,
    /// A snapshot decoded, but its sides do not form a valid book.
    InvalidSnapshot,
}

} // verus!
