//! The failures that a command can end in, apart from the replies it sends.

use vstd::prelude::*;

verus! {

/// Why a command failed. The server logs these; the client gets no reply.
#[derive(Debug, Clone, Copy, PartialEq, Eq, Structural)]
pub enum ServerError {
    /// bcrypt could not hash the password.
    HashFailed,
    /// bcrypt could not check the password against the stored hash.
    VerifyFailed,
    /// A `JOIN` without a channel name.
    InvalidJoin,
    /// The user database could not be written as JSON.
    SerializeFailed,
}

/// The text that the server logs for an error.
pub open spec fn error_text(e: ServerError) -> Seq<char> {
    match e {
        ServerError::HashFailed => "Failed to hash password"@,
        ServerError::VerifyFailed => "Failed to verify password"@,
        ServerError::InvalidJoin => "Invalid JOIN command format."@,
        ServerError::SerializeFailed => "Failed to serialize user database"@,
    }
}

impl ServerError {
    /// The text that the server logs for this error.
    pub fn message(&self) -> (r: String)
        ensures
            r@ == error_text(*self),
    {
        match self {
            ServerError::HashFailed => "Failed to hash password".to_owned(),
            ServerError::VerifyFailed => "Failed to verify password".to_owned(),
            ServerError::InvalidJoin => "Invalid JOIN command format.".to_owned(),
            ServerError::SerializeFailed => "Failed to serialize user database".to_owned(),
        }
    }
}

} // verus!
