use vstd::prelude::*;

verus! {

/// The possible failures while reading or writing an HTTP message.
#[derive(Debug, PartialEq, Eq)]
pub enum HttpError {
    /// Any failure that the protocol layer does not account for; the
    /// payload carries a description.
    Unknown(String),
    /// The peer closed the connection before the first byte of a message.
    ConnectionClosed,
    /// The time allowed for reading or writing a message ran out.
    Timeout,
    /// The bytes read do not form a syntactically valid message; the
    /// payload says which part was malformed.
    InvalidRequest(String),
}

/// The result type used throughout the message codec.
pub type HttpResult<T> = Result<T, HttpError>;

impl HttpError {
    /// A textual description of the error: the payload of a variant that
    /// carries one, a fixed phrase otherwise.
    pub fn message(&self) -> (r: String)
        ensures
            match self {
                HttpError::Unknown(msg) => r@ == msg@,
                HttpError::ConnectionClosed => r@ == "connection closed"@,
                HttpError::Timeout => r@ == "operation timeout"@,
                HttpError::InvalidRequest(msg) => r@ == msg@,
            },
    {
        match self {
            HttpError::Unknown(msg) => msg.clone(),
            HttpError::ConnectionClosed => String::from_str("connection closed"),
            HttpError::Timeout => String::from_str("operation timeout"),
            HttpError::InvalidRequest(msg) => msg.clone(),
        }
    }
}

} // verus!
