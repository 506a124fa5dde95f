use vstd::prelude::*;
use crate::text::{chars_string, push_str};

verus! {

/// Why an expression or annotation could not be read.
#[derive(Debug, Clone)]
pub enum Error {
    Lex(String),
    Parse(String),
}

/// The model of an [`Error`]: its kind and the characters of its message.
pub enum SpecError {
    Lex(Seq<char>),
    Parse(Seq<char>),
}

impl View for Error {
    type V = SpecError;

    open spec fn view(&self) -> SpecError {
        match self {
            Error::Lex(m) => SpecError::Lex(m@),
            Error::Parse(m) => SpecError::Parse(m@),
        }
    }
}

/// The text that a user is shown for an error.
pub open spec fn error_text(e: SpecError) -> Seq<char> {
    match e {
        SpecError::Lex(m) => "lex error: "@ + m,
        SpecError::Parse(m) => "parse error: "@ + m,
    }
}

impl Error {
    /// The text that a user is shown for this error.
    pub fn message(&self) -> (s: String)
        ensures
            s@ == error_text(self@),
    {
        let mut v: Vec<char> = Vec::new();
        match self {
            Error::Lex(m) => {
                push_str(&mut v, "lex error: ");
                push_str(&mut v, m.as_str());
            },
            Error::Parse(m) => {
                push_str(&mut v, "parse error: ");
                push_str(&mut v, m.as_str());
            },
        }
        chars_string(&v)
    }
}

/// The decimal digit for `d`.
pub open spec fn digit(d: nat) -> char {
    seq!['0', '1', '2', '3', '4', '5', '6', '7', '8', '9'][d as int]
}

/// The decimal spelling of `n`, without leading zeros.
pub open spec fn decimal(n: nat) -> Seq<char>
    decreases n,
{
    if n < 10 {
        seq![digit(n)]
    } else {
        decimal(n / 10).push(digit(n % 10))
    }
}

/// The decimal spelling of `n`.
pub fn decimal_chars(n: usize) -> (v: Vec<char>)
    ensures
        v@ == decimal(n as nat),
    decreases n,
{
    let digits = ['0', '1', '2', '3', '4', '5', '6', '7', '8', '9'];
    if n < 10 {
        let d = digits[n];
        assert(d == digit(n as nat));
        vec![d]
    } else {
        let mut v = decimal_chars(n / 10);
        let d = digits[n % 10];
        assert(d == digit((n % 10) as nat));
        v.push(d);
        v
    }
}

} // verus!
