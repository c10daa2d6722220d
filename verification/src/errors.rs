//! Typed errors for the framing, header-parsing and JSON layers.
//!
//! Every failure is a recoverable, descriptive value: the caller is expected
//! to drop the offending connection and carry on.

use vstd::prelude::*;

verus! {

/// Spec-level mirror of [`JsonError`], with `String` payloads seen as
/// character sequences.
pub enum JsonErrorV {
    /// A byte at which no token can start; carries the byte.
    InvalidCharacter(u8),
    /// An integer literal outside the 64-bit signed range; carries the
    /// literal text.
    InvalidNumberLiteral(Seq<char>),
    /// The input ended before the closing quote of a string literal.
    UnterminatedString,
    /// A backslash followed by a byte outside the supported escape set;
    /// carries the byte.
    InvalidEscape(u8),
    /// A byte that is not a hexadecimal digit among the four expected after
    /// `\u`; carries the byte.
    InvalidHexDigit(u8),
    /// The input ended inside a `\u` escape.
    TruncatedEscape,
    /// Four hexadecimal digits naming a code point that is not a Unicode
    /// scalar value; carries the code point.
    InvalidCodepoint(u32),
    /// A token (or the end of input) where the grammar expects something
    /// else.
    UnexpectedToken,
    /// `{` immediately followed by `}`: the grammar requires at least one
    /// member in an object.
    EmptyObjectNotPermitted,
    /// A comma directly before the closing bracket or brace.
    TrailingComma,
    /// A complete value followed by further tokens.
    TrailingData,
    /// A failure inside the value of an object member; carries the member's
    /// key and the underlying error.
    InField(Seq<char>, Box<JsonErrorV>),
}

/// Errors from lexing or parsing a JSON document.
#[derive(Debug)]
pub enum JsonError {
    /// A byte at which no token can start; carries the byte.
    InvalidCharacter(u8),
    /// An integer literal outside the 64-bit signed range; carries the
    /// literal text.
    InvalidNumberLiteral(String),
    /// The input ended before the closing quote of a string literal.
    UnterminatedString,
    /// A backslash followed by a byte outside the supported escape set;
    /// carries the byte.
    InvalidEscape(u8),
    /// A byte that is not a hexadecimal digit among the four expected after
    /// `\u`; carries the byte.
    InvalidHexDigit(u8),
    /// The input ended inside a `\u` escape.
    TruncatedEscape,
    /// Four hexadecimal digits naming a code point that is not a Unicode
    /// scalar value; carries the code point.
    InvalidCodepoint(u32),
    /// A token (or the end of input) where the grammar expects something
    /// else.
    UnexpectedToken,
    /// `{` immediately followed by `}`: the grammar requires at least one
    /// member in an object.
    EmptyObjectNotPermitted,
    /// A comma directly before the closing bracket or brace.
    TrailingComma,
    /// A complete value followed by further tokens.
    TrailingData,
    /// A failure inside the value of an object member; carries the member's
    /// key and the underlying error.
    InField(String, Box<JsonError>),
}

/// The spec-level value of a [`JsonError`].
pub open spec fn json_error_view(e: JsonError) -> JsonErrorV
    decreases e,
{
    match e {
        JsonError::InvalidCharacter(b) => JsonErrorV::InvalidCharacter(b),
        JsonError::InvalidNumberLiteral(t) => JsonErrorV::InvalidNumberLiteral(t@),
        JsonError::UnterminatedString => JsonErrorV::UnterminatedString,
        JsonError::InvalidEscape(b) => JsonErrorV::InvalidEscape(b),
        JsonError::InvalidHexDigit(b) => JsonErrorV::InvalidHexDigit(b),
        JsonError::TruncatedEscape => JsonErrorV::TruncatedEscape,
        JsonError::InvalidCodepoint(c) => JsonErrorV::InvalidCodepoint(c),
        JsonError::UnexpectedToken => JsonErrorV::UnexpectedToken,
        JsonError::EmptyObjectNotPermitted => JsonErrorV::EmptyObjectNotPermitted,
        JsonError::TrailingComma => JsonErrorV::TrailingComma,
        JsonError::TrailingData => JsonErrorV::TrailingData,
        JsonError::InField(k, e2) => JsonErrorV::InField(k@, Box::new(json_error_view(*e2))),
    }
}

impl View for JsonError {
    type V = JsonErrorV;

    open spec fn view(&self) -> JsonErrorV {
        json_error_view(*self)
    }
}

/// Errors from parsing a request header block.
#[derive(Clone, Copy, PartialEq, Eq, Structural, Debug)]
pub enum HttpError {
    /// The header block is not valid UTF-8 text.
    Utf8Decode,
    /// The first line does not consist of exactly three space-separated
    /// tokens.
    MalformedRequestLine,
    /// A request-line verb outside the nine supported methods.
    UnsupportedMethod,
    /// No `Host` header with a non-empty value was present.
    MissingHost,
    /// A `Content-Type` value outside the supported set, on a method that
    /// takes a request body.
    UnsupportedContentType,
}

/// Errors from driving chunked reads of a request off a byte stream.
pub enum ReadError {
    /// The peer closed the connection before the request was complete.
    PeerDisconnected,
    /// A stream-level read failure; carries the reported message.
    Io(String),
    /// The header block was complete but did not parse.
    Header(HttpError),
}

/// Errors from interpreting command-line arguments.
#[derive(Clone, Copy, PartialEq, Eq, Structural, Debug)]
pub enum CliError {
    /// `new` without a database name after it.
    MissingDatabaseName,
    /// A database name with a character outside letters, digits and `_`.
    InvalidDatabaseName,
    /// A first argument that is none of `new`, `run`, `help`.
    UnknownCommand,
    /// `--root` as the last argument, with no path after it.
    MissingRootValue,
    /// `--port` as the last argument, with no number after it.
    MissingPortValue,
    /// A `--port` value that is not a number in the 16-bit unsigned range.
    InvalidPort,
    /// `--password` as the last argument, with no value after it.
    MissingPasswordValue,
    /// `--password` together with `--insecure`, in either order.
    ConflictingPasswordConfig,
    /// `--password` on a command other than `new`.
    PasswordOutsideNew,
    /// `--insecure` on a command other than `new`.
    InsecureOutsideNew,
    /// The `--root` path does not exist on disk.
    RootDoesNotExist,
    /// The `--root` path exists but is not a directory.
    RootNotADirectory,
    /// No `--root` was given and no home directory could be determined for
    /// the default.
    NoHomeDirectory,
}

} // verus!
