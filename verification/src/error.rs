use vstd::prelude::*;
use vstd::string::*;

verus! {

/// Errors reported by the index and buffer operations.
#[derive(Debug, PartialEq, Eq, Structural)]
pub enum ParsecError {
    DimensionMismatch { expected: usize, found: usize },
    VectorNotFound(u64),
}

/// The character of a decimal digit.
pub open spec fn digit_char(d: nat) -> char {
    if d == 0 { '0' }
    else if d == 1 { '1' }
    else if d == 2 { '2' }
    else if d == 3 { '3' }
    else if d == 4 { '4' }
    else if d == 5 { '5' }
    else if d == 6 { '6' }
    else if d == 7 { '7' }
    else if d == 8 { '8' }
    else { '9' }
}

/// The decimal representation of `n`, without leading zeros.
pub open spec fn decimal(n: nat) -> Seq<char>
    decreases n,
{
    if n < 10 {
        seq![digit_char(n)]
    } else {
        decimal(n / 10).push(digit_char(n % 10))
    }
}

fn digit_str(d: u64) -> (s: &'static str)
    requires
        d < 10,
    ensures
        s@ == seq![digit_char(d as nat)],
{
    proof {
        reveal_strlit("0");
        reveal_strlit("1");
        reveal_strlit("2");
        reveal_strlit("3");
        reveal_strlit("4");
        reveal_strlit("5");
        reveal_strlit("6");
        reveal_strlit("7");
        reveal_strlit("8");
        reveal_strlit("9");
    }
    if d == 0 { "0" }
    else if d == 1 { "1" }
    else if d == 2 { "2" }
    else if d == 3 { "3" }
    else if d == 4 { "4" }
    else if d == 5 { "5" }
    else if d == 6 { "6" }
    else if d == 7 { "7" }
    else if d == 8 { "8" }
    else { "9" }
}

/// Appends the decimal representation of `n` to `s`.
pub fn push_decimal(s: &mut String, n: u64)
    ensures
        final(s)@ == old(s)@ + decimal(n as nat),
    decreases n,
{
    if n >= 10 {
        push_decimal(s, n / 10);
    }
    s.append(digit_str(n % 10));
    proof {
        if n >= 10 {
            assert(decimal(n as nat) == decimal((n / 10) as nat).push(digit_char((n % 10) as nat)));
        }
    }
}

impl ParsecError {
    /// The human-readable description of the error.
    pub open spec fn description(&self) -> Seq<char> {
        match self {
            ParsecError::DimensionMismatch { expected, found } =>
                "Dimenson mismatch: expected "@ + decimal(*expected as nat) + ", but found "@
                    + decimal(*found as nat),
            ParsecError::VectorNotFound(id) =>
                "Vector with ID "@ + decimal(*id as nat) + " not found"@,
        }
    }

    /// Renders the error as text.
    pub fn to_string(&self) -> (s: String)
        ensures
            s@ == self.description(),
    {
        match self {
            ParsecError::DimensionMismatch { expected, found } => {
                let mut s = String::from_str("Dimenson mismatch: expected ");
                push_decimal(&mut s, *expected as u64);
                s.append(", but found ");
                push_decimal(&mut s, *found as u64);
                s
            },
            ParsecError::VectorNotFound(id) => {
                let mut s = String::from_str("Vector with ID ");
                push_decimal(&mut s, *id);
                s.append(" not found");
                s
            },
        }
    }
}

} // verus!
