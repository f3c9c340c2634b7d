//! The errors of the engine.

use vstd::prelude::*;
use vstd::string::StringExecFns;

verus! {

/// Why an operation failed.
#[derive(Debug, Clone)]
pub enum Error {
    /// Reading or writing a file failed.
    Io(String),
    /// A file does not hold what it should.
    Corrupt(String),
    /// A vector does not have the store's dimension.
    DimensionMismatch { expected: usize, got: usize },
    /// No vector has this id.
    IdOutOfRange(u64),
    /// An argument cannot be served.
    InvalidArgument(String),
}

/// `e` reports a bad file with this text.
pub open spec fn is_corrupt(e: Error, text: Seq<char>) -> bool {
    e matches Error::Corrupt(s) && s@ == text
}

/// The decimal digit of `d`.
pub open spec fn digit(d: nat) -> char {
    ('0' as nat + d) as char
}

/// `n` in decimal notation.
pub open spec fn decimal(n: nat) -> Seq<char>
    decreases n,
{
    if n < 10 {
        seq![digit(n)]
    } else {
        decimal(n / 10).push(digit(n % 10))
    }
}

/// What a text of decimal digits says.
pub open spec fn value_of(text: Seq<char>) -> int
    decreases text.len(),
{
    if text.len() == 0 {
        0
    } else {
        10 * value_of(text.drop_last()) + (text.last() as int - '0' as int)
    }
}

/// The decimal notation of a number says that number, in nothing but digits and
/// without a zero in front, unless it is zero.
pub proof fn law_numbers_are_written_in_decimal(n: nat)
    ensures
        value_of(decimal(n)) == n,
        decimal(n).len() >= 1,
        forall|i: int| 0 <= i < decimal(n).len() ==> '0' <= #[trigger] decimal(n)[i] <= '9',
        n > 0 ==> decimal(n)[0] != '0',
    decreases n,
{
    let text = decimal(n);
    if n < 10 {
        assert(text.drop_last() =~= Seq::empty());
        assert(value_of(text.drop_last()) == 0);
    } else {
        law_numbers_are_written_in_decimal(n / 10);
        assert(text.drop_last() =~= decimal(n / 10));
        assert(text[0] == decimal(n / 10)[0]);
        assert forall|i: int| 0 <= i < text.len() implies '0' <= #[trigger] text[i] <= '9' by {
            if i < text.len() - 1 {
                assert(text[i] == decimal(n / 10)[i]);
            }
        }
    }
}

/// What an error says to a reader.
pub open spec fn display(e: Error) -> Seq<char> {
    match e {
        Error::Io(s) => "io error: "@ + s@,
        Error::Corrupt(s) => "bad file: "@ + s@,
        Error::DimensionMismatch { expected, got } => "dimension mismatch: store has "@ + decimal(
            expected as nat,
        ) + ", got "@ + decimal(got as nat),
        Error::IdOutOfRange(id) => "vector id "@ + decimal(id as nat) + " out of range"@,
        Error::InvalidArgument(s) => "invalid argument: "@ + s@,
    }
}

fn append_digit(out: &mut String, d: u64)
    requires
        d < 10,
    ensures
        final(out)@ == old(out)@.push(digit(d as nat)),
{
    proof {
        reveal_strlit("0");
        reveal_strlit("1");
        reveal_strlit("2");
        reveal_strlit("3");
        reveal_strlit("4");
        reveal_strlit("5");
        reveal_strlit("6");
        reveal_strlit("7");
        reveal_strlit("8");
        reveal_strlit("9");
    }
    let text: &str = if d == 0 {
        "0"
    } else if d == 1 {
        "1"
    } else if d == 2 {
        "2"
    } else if d == 3 {
        "3"
    } else if d == 4 {
        "4"
    } else if d == 5 {
        "5"
    } else if d == 6 {
        "6"
    } else if d == 7 {
        "7"
    } else if d == 8 {
        "8"
    } else {
        "9"
    };
    assert(text@ =~= seq![digit(d as nat)]);
    out.append(text);
    assert(out@ =~= old(out)@.push(digit(d as nat)));
}

/// Appends `n` in decimal notation.
pub fn append_decimal(out: &mut String, n: u64)
    ensures
        final(out)@ == old(out)@ + decimal(n as nat),
    decreases n,
{
    if n >= 10 {
        append_decimal(out, n / 10);
    }
    append_digit(out, n % 10);
    assert(out@ =~= old(out)@ + decimal(n as nat));
}

/// A [`Error::Corrupt`] with this text.
pub fn corrupt(text: &str) -> (e: Error)
    ensures
        is_corrupt(e, text@),
{
    Error::Corrupt(text.to_string())
}

impl Error {
    /// The error as one line of text.
    pub fn message(&self) -> (text: String)
        ensures
            text@ == display(*self),
    {
        let mut out: String = String::new();
        match self {
            Error::Io(s) => {
                out.append("io error: ");
                out.append(s.as_str());
            },
            Error::Corrupt(s) => {
                out.append("bad file: ");
                out.append(s.as_str());
            },
            Error::DimensionMismatch { expected, got } => {
                out.append("dimension mismatch: store has ");
                append_decimal(&mut out, *expected as u64);
                out.append(", got ");
                append_decimal(&mut out, *got as u64);
            },
            Error::IdOutOfRange(id) => {
                out.append("vector id ");
                append_decimal(&mut out, *id);
                out.append(" out of range");
            },
            Error::InvalidArgument(s) => {
                out.append("invalid argument: ");
                out.append(s.as_str());
            },
        }
        assert(out@ =~= display(*self));
        out
    }
}

} // verus!
