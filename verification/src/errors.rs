//! Error values of the object store.

use vstd::prelude::*;
use vstd::string::StringExecFns;

verus! {

/// Identifier text that is not forty hexadecimal digits.
#[derive(Debug, PartialEq, Eq)]
pub struct InvalidObjectId {
    /// The text that was refused.
    pub text: String,
}

impl InvalidObjectId {
    /// The diagnostic, which quotes the text that was refused.
    pub fn message(&self) -> (line: String)
        ensures
            line@ == "invalid object id '"@ + self.text@ + "'"@,
    {
        let mut line = String::from_str("invalid object id '");
        line.append(self.text.as_str());
        line.append("'");
        line
    }
}

/// A compressed stream could not be decoded.
#[derive(Debug, Clone, Copy, PartialEq, Eq, Structural)]
pub enum DecodeError {
    /// The bytes are not a valid compressed stream.
    Corrupt,
    /// The stream ends before it is complete.
    Truncated,
}

/// An object's envelope could not be read.
#[derive(Debug, Clone, Copy, PartialEq, Eq, Structural)]
pub enum FormatError {
    /// No NUL byte closes the header.
    MissingHeader,
    /// The header has no space, or its size is not a decimal number that fits.
    MalformedHeader,
    /// The kind is neither `blob` nor `tree`.
    UnknownKind,
}

/// A tree payload could not be read.
#[derive(Debug, Clone, Copy, PartialEq, Eq, Structural)]
pub enum TreeParseError {
    /// The payload ends before a space, a NUL or the twenty digest bytes.
    Truncated,
    /// A mode or a name is not valid UTF-8.
    InvalidUtf8,
}

/// Why the file system, or a writer, refused an operation.
#[derive(Debug, Clone, Copy, PartialEq, Eq, Structural)]
pub enum IoError {
    /// Nothing exists at the path.
    NotFound,
    /// The operation is not permitted.
    Permission,
    /// Any other failure.
    Other,
}

/// A stored object could not be read back.
#[derive(Debug, Clone, Copy, PartialEq, Eq, Structural)]
pub enum ReadError {
    /// The object's file could not be read.
    Io(IoError),
    /// The stored bytes are not a complete compressed stream.
    Decode(DecodeError),
    /// The decoded bytes are not an envelope.
    Format(FormatError),
    /// The payload is not a list of tree entries.
    Tree(TreeParseError),
}

/// An object could not be built.
#[derive(Debug, Clone, Copy, PartialEq, Eq, Structural)]
pub enum BuildError {
    /// Reading the working directory, or writing the compressed stream, failed.
    Io(IoError),
}

impl FormatError {
    /// What the error says, in words.
    pub open spec fn text(self) -> Seq<char> {
        match self {
            FormatError::MissingHeader => "no NUL byte ends the header"@,
            FormatError::MalformedHeader => "malformed header"@,
            FormatError::UnknownKind => "unknown kind of object"@,
        }
    }

    /// A short description for diagnostics.
    pub fn message(&self) -> (text: &'static str)
        ensures
            text@ == self.text(),
    {
        match self {
            FormatError::MissingHeader => "no NUL byte ends the header",
            FormatError::MalformedHeader => "malformed header",
            FormatError::UnknownKind => "unknown kind of object",
        }
    }
}

impl TreeParseError {
    /// What the error says, in words.
    pub open spec fn text(self) -> Seq<char> {
        match self {
            TreeParseError::Truncated => "tree ends inside an entry"@,
            TreeParseError::InvalidUtf8 => "mode or name of an entry is not text"@,
        }
    }

    /// A short description for diagnostics.
    pub fn message(&self) -> (text: &'static str)
        ensures
            text@ == self.text(),
    {
        match self {
            TreeParseError::Truncated => "tree ends inside an entry",
            TreeParseError::InvalidUtf8 => "mode or name of an entry is not text",
        }
    }
}

impl IoError {
    /// What the error says, in words.
    pub open spec fn text(self) -> Seq<char> {
        match self {
            IoError::NotFound => "not found"@,
            IoError::Permission => "permission denied"@,
            IoError::Other => "input or output failed"@,
        }
    }

    /// A short description for diagnostics.
    pub fn message(&self) -> (text: &'static str)
        ensures
            text@ == self.text(),
    {
        match self {
            IoError::NotFound => "not found",
            IoError::Permission => "permission denied",
            IoError::Other => "input or output failed",
        }
    }
}

impl DecodeError {
    /// What the error says, in words.
    pub open spec fn text(self) -> Seq<char> {
        match self {
            DecodeError::Corrupt => "corrupt compressed stream"@,
            DecodeError::Truncated => "truncated compressed stream"@,
        }
    }

    /// A short description for diagnostics.
    pub fn message(&self) -> (text: &'static str)
        ensures
            text@ == self.text(),
    {
        match self {
            DecodeError::Corrupt => "corrupt compressed stream",
            DecodeError::Truncated => "truncated compressed stream",
        }
    }
}

impl ReadError {
    /// What the error says, in words: what the error inside says.
    pub open spec fn text(self) -> Seq<char> {
        match self {
            ReadError::Io(e) => e.text(),
            ReadError::Decode(e) => e.text(),
            ReadError::Format(e) => e.text(),
            ReadError::Tree(e) => e.text(),
        }
    }

    /// A short description for diagnostics.
    pub fn message(&self) -> (text: &'static str)
        ensures
            text@ == self.text(),
    {
        match self {
            ReadError::Io(e) => e.message(),
            ReadError::Decode(e) => e.message(),
            ReadError::Format(e) => e.message(),
            ReadError::Tree(e) => e.message(),
        }
    }
}

impl BuildError {
    /// What the error says, in words: what the error inside says.
    pub open spec fn text(self) -> Seq<char> {
        match self {
            BuildError::Io(e) => e.text(),
        }
    }

    /// A short description for diagnostics.
    pub fn message(&self) -> (text: &'static str)
        ensures
            text@ == self.text(),
    {
        match self {
            BuildError::Io(e) => e.message(),
        }
    }
}

} // verus!
