//! The error type shared by every server.
use vstd::prelude::*;

verus! {

/// An error that ends the handling of one client.
#[derive(Debug)]
pub enum ServerError {
    /// The peer closed its side of the connection. This is a normal way for a
    /// session to end.
    SocketClose,
    /// Any other I/O failure, with its description.
    Io(String),
    /// Malformed JSON, with its description.
    Serde(String),
    /// Bytes that are not UTF-8, with a description.
    FromUtf8(String),
    /// Anything else, with its description.
    Other(String),
}

/// The result type of a server operation.
pub type ServerResult<T> = Result<T, ServerError>;

impl ServerError {
    /// Classify an I/O failure. A read that hit the end of the stream before it
    /// could finish means the peer hung up, which is reported as
    /// [`ServerError::SocketClose`]; every other failure keeps its description.
    pub fn from_io(unexpected_eof: bool, description: String) -> (r: ServerError)
        ensures
            unexpected_eof ==> r == ServerError::SocketClose,
            !unexpected_eof ==> r == ServerError::Io(description),
    {
        if unexpected_eof {
            ServerError::SocketClose
        } else {
            ServerError::Io(description)
        }
    }

    /// Whether this error only says that the peer went away.
    pub fn is_socket_close(&self) -> (r: bool)
        ensures
            r <==> *self is SocketClose,
    {
        match self {
            ServerError::SocketClose => true,
            _ => false,
        }
    }
}

} // verus!
