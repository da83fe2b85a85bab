//! Errors of the library and their UI-facing form.

use vstd::prelude::*;

verus! {

broadcast use vstd::string::group_string_axioms;

/// `std::io::Error`, carried through as an opaque value.
#[verifier::external_type_specification]
#[verifier::external_body]
pub struct ExIoError(std::io::Error);

/// What can go wrong.
#[derive(Debug)]
pub enum Error {
    TaskNotFound(u32),
    Cancelled,
    Io(std::io::Error),
    Other(String),
}

/// UI-facing error: `{ kind, message }`. Commands return `Result<T, ErrorDto>`.
#[derive(Debug, Clone)]
pub struct ErrorDto {
    pub kind: String,
    pub message: String,
}

/// The decimal digits of `n`.
pub open spec fn decimal(n: nat) -> Seq<char>
    decreases n,
{
    if n < 10 {
        seq![digit_char(n)]
    } else {
        decimal(n / 10).push(digit_char(n % 10))
    }
}

/// The digit character for `d < 10`.
pub open spec fn digit_char(d: nat) -> char {
    if d == 0 { '0' } else if d == 1 { '1' } else if d == 2 { '2' } else if d == 3 { '3' } else if d == 4 { '4' }
    else if d == 5 { '5' } else if d == 6 { '6' } else if d == 7 { '7' } else if d == 8 { '8' } else { '9' }
}

fn digit_of(d: u32) -> (c: char)
    requires
        d < 10,
    ensures
        c == digit_char(d as nat),
{
    if d == 0 { '0' } else if d == 1 { '1' } else if d == 2 { '2' } else if d == 3 { '3' } else if d == 4 { '4' }
    else if d == 5 { '5' } else if d == 6 { '6' } else if d == 7 { '7' } else if d == 8 { '8' } else { '9' }
}

/// `n` written in decimal.
pub fn decimal_u64(n: u64) -> (s: String)
    ensures
        s@ == decimal(n as nat),
    decreases n,
{
    if n < 10 {
        let mut s = String::new();
        crate::text::push_char(&mut s, digit_of(n as u32));
        proof {
            assert(s@ =~= seq![digit_char(n as nat)]);
        }
        s
    } else {
        let mut s = decimal_u64(n / 10);
        crate::text::push_char(&mut s, digit_of((n % 10) as u32));
        s
    }
}

/// `n` written in decimal.
pub fn decimal_string(n: u32) -> (s: String)
    ensures
        s@ == decimal(n as nat),
    decreases n,
{
    if n < 10 {
        let mut s = String::new();
        crate::text::push_char(&mut s, digit_of(n));
        proof {
            assert(s@ =~= seq![digit_char(n as nat)]);
        }
        s
    } else {
        let mut s = decimal_string(n / 10);
        crate::text::push_char(&mut s, digit_of(n % 10));
        s
    }
}

/// Calls `Display` of `std::io::Error`; the text comes from the operating system, so nothing
/// is claimed of it.
#[verifier::external_body]
fn io_message(e: &std::io::Error) -> String {
    e.to_string()
}

impl Error {
    /// The error's kind, as the UI names it.
    pub fn kind(&self) -> (k: &'static str)
        ensures
            k@ == match self {
                Error::TaskNotFound(_) => "task_not_found"@,
                Error::Cancelled => "cancelled"@,
                Error::Io(_) => "io"@,
                Error::Other(_) => "error"@,
            },
    {
        match self {
            Error::TaskNotFound(_) => "task_not_found",
            Error::Cancelled => "cancelled",
            Error::Io(_) => "io",
            Error::Other(_) => "error",
        }
    }

    /// The message shown to the user.
    pub fn message(&self) -> (m: String)
        ensures
            self matches Error::TaskNotFound(n) ==> m@ == "task not found: "@ + decimal(n as nat),
            self is Cancelled ==> m@ == "cancelled"@,
            self matches Error::Other(s) ==> m@ == s@,
    {
        match self {
            Error::TaskNotFound(n) => {
                let mut s = String::from_str("task not found: ");
                let d = decimal_string(*n);
                s.append(d.as_str());
                s
            },
            Error::Cancelled => String::from_str("cancelled"),
            Error::Io(e) => io_message(e),
            Error::Other(s) => s.clone(),
        }
    }
}

impl ErrorDto {
    /// The UI form of `e`.
    pub fn from_error(e: &Error) -> (r: ErrorDto)
        ensures
            r.kind@ == e.kind_spec(),
            e matches Error::TaskNotFound(n) ==> r.message@ == "task not found: "@ + decimal(n as nat),
            e is Cancelled ==> r.message@ == "cancelled"@,
            e matches Error::Other(s) ==> r.message@ == s@,
    {
        let k = e.kind();
        ErrorDto { kind: String::from_str(k), message: e.message() }
    }
}

impl Error {
    /// The kind's text.
    pub open spec fn kind_spec(&self) -> Seq<char> {
        match self {
            Error::TaskNotFound(_) => "task_not_found"@,
            Error::Cancelled => "cancelled"@,
            Error::Io(_) => "io"@,
            Error::Other(_) => "error"@,
        }
    }
}

} // verus!
