use vstd::prelude::*;
use vstd::string::StringExecFns;

verus! {

/// Why a pattern did not compile.
#[derive(Clone, Copy, Debug, PartialEq, Eq, Structural)]
pub enum ErrorKind {
    /// The pattern ends right after this character, which needs another.
    MissingChar(char),
    /// A quantifier (this character) with nothing before it to repeat.
    NothingBefore(char),
    /// A `{` without a `}` after it.
    MissingBrace,
    /// Bounds in braces without a `,` between them.
    MissingComma,
    /// A bound in braces that is not a number that fits.
    BadNumber,
    /// A `[` without its `]`.
    UnclosedClass,
    /// A range in a class that ends at the `]`.
    OpenRange,
    /// A `\k<` reference without its `>`.
    MissingAngle,
    /// A back-reference to a group that was not opened before it.
    UnknownGroup,
    /// A `(` without its `)`.
    UnclosedGroup,
}

/// The message that describes an error.
pub open spec fn message(kind: ErrorKind) -> Seq<char> {
    match kind {
        ErrorKind::MissingChar(c) => "Expected character after "@.push(c),
        ErrorKind::NothingBefore(c) => "Expected pattern before '"@.push(c) + "'"@,
        ErrorKind::MissingBrace => "Missing closing '}'"@,
        ErrorKind::MissingComma => "Range must be split by ','. Ex: {12,15}"@,
        ErrorKind::BadNumber => "Error parsing number"@,
        ErrorKind::UnclosedClass => "Missing closing ']'"@,
        ErrorKind::OpenRange => "Expected end of range [.. - ..]"@,
        ErrorKind::MissingAngle => "Expected closing '>'"@,
        ErrorKind::UnknownGroup => "Trying to recall uncaptured"@,
        ErrorKind::UnclosedGroup => "Missing closing ')'"@,
    }
}

/// Relies on `String::push`: appends one character.
#[verifier::external_body]
fn push_char(s: &mut String, c: char)
    ensures
        final(s)@ == old(s)@.push(c),
{
    s.push(c);
}

/// A compile error: its kind and the message that describes it.
pub struct RegexError {
    kind: ErrorKind,
    text: String,
}

impl RegexError {
    pub closed spec fn spec_kind(&self) -> ErrorKind {
        self.kind
    }

    pub closed spec fn spec_message(&self) -> Seq<char> {
        self.text@
    }

    pub fn new(kind: ErrorKind) -> (r: RegexError)
        ensures
            r.spec_kind() == kind,
            r.spec_message() == message(kind),
    {
        let text = match kind {
            ErrorKind::MissingChar(c) => {
                let mut s = String::from_str("Expected character after ");
                push_char(&mut s, c);
                s
            },
            ErrorKind::NothingBefore(c) => {
                let mut s = String::from_str("Expected pattern before '");
                push_char(&mut s, c);
                s.append("'");
                s
            },
            ErrorKind::MissingBrace => String::from_str("Missing closing '}'"),
            ErrorKind::MissingComma => String::from_str("Range must be split by ','. Ex: {12,15}"),
            ErrorKind::BadNumber => String::from_str("Error parsing number"),
            ErrorKind::UnclosedClass => String::from_str("Missing closing ']'"),
            ErrorKind::OpenRange => String::from_str("Expected end of range [.. - ..]"),
            ErrorKind::MissingAngle => String::from_str("Expected closing '>'"),
            ErrorKind::UnknownGroup => String::from_str("Trying to recall uncaptured"),
            ErrorKind::UnclosedGroup => String::from_str("Missing closing ')'"),
        };
        RegexError { kind, text }
    }

    /// The kind of the error.
    pub fn kind(&self) -> (r: ErrorKind)
        ensures
            r == self.spec_kind(),
    {
        self.kind
    }

    /// The message that describes the error.
    pub fn inner(&self) -> (r: &str)
        ensures
            r@ == self.spec_message(),
    {
        self.text.as_str()
    }

    /// The message that describes the error, as an owned string.
    pub fn to_string(&self) -> (r: String)
        ensures
            r@ == self.spec_message(),
    {
        self.text.clone()
    }
}

} // verus!
