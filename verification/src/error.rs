//! Errors of the transports.

use vstd::prelude::*;
use vstd::string::StringExecFns;

use crate::text::append_decimal;

verus! {

/// The kinds of I/O error that the transports report of their own.
#[derive(Debug, Clone, Copy, PartialEq, Eq, Structural)]
pub enum ErrorKind {
    InvalidInput,
    InvalidData,
    UnexpectedEof,
    WriteZero,
    Other,
}

/// Why a transport could not send or receive a message.
#[derive(Debug)]
pub enum TransportError {
    /// A system call failed; its error is passed on.
    Io(std::io::Error),
    /// The stream gave less than a header in one read.
    IncompleteHeader,
    /// The header announces a longer body than is accepted.
    FrameTooLarge { length: usize },
    /// The header announces more descriptors than one message can carry.
    TooManyFdsAnnounced { count: usize },
    /// The message holds more descriptors than one message can carry.
    TooManyFdsToSend { count: usize },
    /// The stream ended inside a frame.
    UnexpectedEof,
    /// The socket took no bytes.
    WriteZero,
    /// The message could not be serialized or deserialized; the text says why.
    Codec(String),
    /// The socket has no path for an address.
    UnnamedSocket,
}

impl TransportError {
    /// The kind of I/O error, `None` for one that is passed on and has its own.
    pub fn kind(&self) -> (kind: Option<ErrorKind>)
        ensures
            kind == (match *self {
                TransportError::Io(_) => None::<ErrorKind>,
                TransportError::IncompleteHeader => Some(ErrorKind::UnexpectedEof),
                TransportError::FrameTooLarge { .. } => Some(ErrorKind::InvalidData),
                TransportError::TooManyFdsAnnounced { .. } => Some(ErrorKind::InvalidData),
                TransportError::TooManyFdsToSend { .. } => Some(ErrorKind::InvalidInput),
                TransportError::UnexpectedEof => Some(ErrorKind::UnexpectedEof),
                TransportError::WriteZero => Some(ErrorKind::WriteZero),
                TransportError::Codec(_) => Some(ErrorKind::InvalidData),
                TransportError::UnnamedSocket => Some(ErrorKind::Other),
            }),
    {
        match self {
            TransportError::Io(_) => None,
            TransportError::IncompleteHeader => Some(ErrorKind::UnexpectedEof),
            TransportError::FrameTooLarge { .. } => Some(ErrorKind::InvalidData),
            TransportError::TooManyFdsAnnounced { .. } => Some(ErrorKind::InvalidData),
            TransportError::TooManyFdsToSend { .. } => Some(ErrorKind::InvalidInput),
            TransportError::UnexpectedEof => Some(ErrorKind::UnexpectedEof),
            TransportError::WriteZero => Some(ErrorKind::WriteZero),
            TransportError::Codec(_) => Some(ErrorKind::InvalidData),
            TransportError::UnnamedSocket => Some(ErrorKind::Other),
        }
    }

    /// The text of the error. An error that is passed on keeps its own.
    pub fn message(&self) -> (text: String)
        ensures
            match *self {
                TransportError::Io(
                    error,
                ) => vstd::string::to_string_from_display_ensures::<std::io::Error>(&error, text),
                TransportError::IncompleteHeader => text@ == "incomplete header"@,
                TransportError::FrameTooLarge { length } => text@ == "frame too large: "@
                    + crate::text::decimal(length as nat),
                TransportError::TooManyFdsAnnounced { count } => text@ == "too many FDs: "@
                    + crate::text::decimal(count as nat),
                TransportError::TooManyFdsToSend { count } => text@ == "too many FDs: "@
                    + crate::text::decimal(count as nat),
                TransportError::UnexpectedEof => text@
                    == "unexpected EOF while reading frame body"@,
                TransportError::WriteZero => text@ == "failed to write any data"@,
                TransportError::Codec(reason) => text@ == reason@,
                TransportError::UnnamedSocket => text@
                    == "Cannot get local address of abstract or unnamed socket"@,
            },
    {
        match self {
            TransportError::Io(error) => error.to_string(),
            TransportError::IncompleteHeader => "incomplete header".to_owned(),
            TransportError::FrameTooLarge { length } => {
                let mut text = "frame too large: ".to_owned();
                append_decimal(&mut text, *length);
                text
            },
            TransportError::TooManyFdsAnnounced { count } => {
                let mut text = "too many FDs: ".to_owned();
                append_decimal(&mut text, *count);
                text
            },
            TransportError::TooManyFdsToSend { count } => {
                let mut text = "too many FDs: ".to_owned();
                append_decimal(&mut text, *count);
                text
            },
            TransportError::UnexpectedEof => "unexpected EOF while reading frame body".to_owned(),
            TransportError::WriteZero => "failed to write any data".to_owned(),
            TransportError::Codec(reason) => reason.clone(),
            TransportError::UnnamedSocket => {
                "Cannot get local address of abstract or unnamed socket".to_owned()
            },
        }
    }
}

} // verus!
