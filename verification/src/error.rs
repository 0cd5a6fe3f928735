//! The errors that reading a document can end in.

use vstd::prelude::*;
use vstd::string::StringExecFns;

verus! {

/// The two ways in which a document can be wrong.
#[derive(Debug, Clone, Copy, PartialEq, Eq, Structural)]
pub enum ErrorKind {
    /// The input ended inside a construct: an open string, comment or
    /// container, or a byte that had to follow never came.
    UnexpectedEof,
    /// A byte or a run of bytes breaks the grammar.
    InvalidData,
}

/// The name of a hexadecimal digit.
pub open spec fn hex_name(n: u8) -> Seq<char> {
    if n == 0 {
        "0"@
    } else if n == 1 {
        "1"@
    } else if n == 2 {
        "2"@
    } else if n == 3 {
        "3"@
    } else if n == 4 {
        "4"@
    } else if n == 5 {
        "5"@
    } else if n == 6 {
        "6"@
    } else if n == 7 {
        "7"@
    } else if n == 8 {
        "8"@
    } else if n == 9 {
        "9"@
    } else if n == 10 {
        "a"@
    } else if n == 11 {
        "b"@
    } else if n == 12 {
        "c"@
    } else if n == 13 {
        "d"@
    } else if n == 14 {
        "e"@
    } else {
        "f"@
    }
}

/// The text of an error: its message, and the byte that it is about, where
/// there is one, in hexadecimal digits.
pub open spec fn error_text(message: Seq<char>, byte: Option<u8>) -> Seq<char> {
    match byte {
        Some(b) => message + " (byte 0x"@ + hex_name(b / 16) + hex_name(b % 16) + ")"@,
        None => message,
    }
}

/// The name of a hexadecimal digit.
pub fn hex_digit_name(n: u8) -> (r: &'static str)
    ensures
        r@ == hex_name(n),
{
    if n == 0 {
        "0"
    } else if n == 1 {
        "1"
    } else if n == 2 {
        "2"
    } else if n == 3 {
        "3"
    } else if n == 4 {
        "4"
    } else if n == 5 {
        "5"
    } else if n == 6 {
        "6"
    } else if n == 7 {
        "7"
    } else if n == 8 {
        "8"
    } else if n == 9 {
        "9"
    } else if n == 10 {
        "a"
    } else if n == 11 {
        "b"
    } else if n == 12 {
        "c"
    } else if n == 13 {
        "d"
    } else if n == 14 {
        "e"
    } else {
        "f"
    }
}

/// An error with its kind, a message for the reader of a log, and the byte
/// that the input went wrong at, where there is one.
#[derive(Debug, Clone)]
pub struct Error {
    pub kind: ErrorKind,
    pub message: String,
    pub byte: Option<u8>,
}

impl Error {
    /// An error of the given kind.
    pub fn new(kind: ErrorKind, message: &str) -> (e: Error)
        ensures
            e.kind == kind,
            e.message@ == message@,
            e.byte is None,
    {
        Error { kind, message: message.to_owned(), byte: None }
    }

    /// The error for input that ended too early.
    pub fn eof() -> (e: Error)
        ensures
            e.kind == ErrorKind::UnexpectedEof,
            e.message@ == "unexpected end of input"@,
            e.byte is None,
    {
        Error::new(ErrorKind::UnexpectedEof, "unexpected end of input")
    }

    /// An error for input that ended too early, with a message of its own.
    pub fn unexpected_eof(message: &str) -> (e: Error)
        ensures
            e.kind == ErrorKind::UnexpectedEof,
            e.message@ == message@,
            e.byte is None,
    {
        Error::new(ErrorKind::UnexpectedEof, message)
    }

    /// An error for bytes that break the grammar.
    pub fn invalid_data(message: &str) -> (e: Error)
        ensures
            e.kind == ErrorKind::InvalidData,
            e.message@ == message@,
            e.byte is None,
    {
        Error::new(ErrorKind::InvalidData, message)
    }

    /// An error for a byte that breaks the grammar.
    pub fn invalid_byte(message: &str, byte: u8) -> (e: Error)
        ensures
            e.kind == ErrorKind::InvalidData,
            e.message@ == message@,
            e.byte == Some(byte),
    {
        Error { kind: ErrorKind::InvalidData, message: message.to_owned(), byte: Some(byte) }
    }

    /// The kind of this error.
    pub fn kind(&self) -> (k: ErrorKind)
        ensures
            k == self.kind,
    {
        self.kind
    }

    /// The message of this error.
    pub fn message(&self) -> (m: &str)
        ensures
            m@ == self.message@,
    {
        self.message.as_str()
    }

    /// The byte that the input went wrong at, where the error is about one.
    pub fn offending_byte(&self) -> (b: Option<u8>)
        ensures
            b == self.byte,
    {
        self.byte
    }

    /// The text of this error: the message, and the byte where there is
    /// one.
    pub fn to_string(&self) -> (m: String)
        ensures
            m@ == error_text(self.message@, self.byte),
    {
        let mut text: String = self.message.clone();
        if let Some(byte) = self.byte {
            text.append(" (byte 0x");
            text.append(hex_digit_name(byte / 16));
            text.append(hex_digit_name(byte % 16));
            text.append(")");
        }
        text
    }
}

} // verus!
