use vstd::prelude::*;

verus! {

/// What can go wrong on a connection or with one message on it.
#[derive(Debug, PartialEq, Eq)]
pub enum Error {
    /// A received message could not be decoded (malformed or truncated).
    MsgDeserFailed(String),
    /// A value could not be encoded as a message.
    MsgSerFailed(String),
    /// Accepting or reading from an incoming connection failed.
    IncomingConnectionError(String),
    /// Opening or writing to an outgoing connection failed.
    OutgoingConnectionError(String),
    /// The secure-shell session that carries a connection failed.
    SshConnectionError(String),
}

impl Error {
    /// The text that travels with the error.
    pub fn message(&self) -> (r: &String)
        ensures
            r == self.detail(),
    {
        match self {
            Error::MsgDeserFailed(m) => m,
            Error::MsgSerFailed(m) => m,
            Error::IncomingConnectionError(m) => m,
            Error::OutgoingConnectionError(m) => m,
            Error::SshConnectionError(m) => m,
        }
    }

    pub open spec fn detail(&self) -> &String {
        match self {
            Error::MsgDeserFailed(m) => m,
            Error::MsgSerFailed(m) => m,
            Error::IncomingConnectionError(m) => m,
            Error::OutgoingConnectionError(m) => m,
            Error::SshConnectionError(m) => m,
        }
    }
}

} // verus!
