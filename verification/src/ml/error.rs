//! The error type of the classic learning algorithms.

use crate::text::{decimal, push_decimal};
use vstd::prelude::*;

verus! {

/// Errors of the classic learning algorithms.
#[derive(Debug)]
pub enum Error {
    /// The input has other dimensions than expected.
    InvalidDimensions { expected: Vec<usize>, got: Vec<usize> },
    /// A parameter has an invalid value.
    InvalidParameter(String),
    /// An iteration did not converge.
    ConvergenceFailed(String),
    /// A numerical computation failed.
    NumericalError(String),
    /// An operation was called in a state that does not allow it.
    InvalidState(String),
    /// Another error, given by its message.
    Other(String),
}

/// The numbers written as a list: in square brackets, separated by a comma
/// and a space.
pub open spec fn number_list(v: Seq<usize>) -> Seq<char> {
    seq!['['] + number_items(v) + seq![']']
}

/// The numbers in decimal, separated by a comma and a space.
pub open spec fn number_items(v: Seq<usize>) -> Seq<char>
    decreases v.len(),
{
    if v.len() == 0 {
        Seq::empty()
    } else if v.len() == 1 {
        decimal(v[0] as nat)
    } else {
        number_items(v.drop_last()) + ", "@ + decimal(v.last() as nat)
    }
}

/// Appends the numbers written as a list.
fn push_number_list(s: &mut String, v: &Vec<usize>)
    ensures
        final(s)@ == old(s)@ + number_list(v@),
{
    s.push('[');
    let ghost start = s@;
    let mut k: usize = 0;
    while k < v.len()
        invariant
            0 <= k <= v@.len(),
            s@ == start + number_items(v@.subrange(0, k as int)),
        decreases v@.len() - k,
    {
        let ghost before = s@;
        if k > 0 {
            s.push_str(", ");
        }
        push_decimal(s, v[k]);
        proof {
            let done = v@.subrange(0, k + 1);
            assert(done.drop_last() =~= v@.subrange(0, k as int));
            assert(s@ =~= start + number_items(done));
        }
        k = k + 1;
    }
    proof {
        assert(v@.subrange(0, v@.len() as int) =~= v@);
    }
    s.push(']');
    proof {
        assert(s@ =~= old(s)@ + number_list(v@));
    }
}

impl Error {
    /// The text that describes the error.
    pub open spec fn message(&self) -> Seq<char> {
        match self {
            Error::InvalidDimensions { expected, got } => "Invalid input dimensions: expected "@
                + number_list(expected@) + ", got "@ + number_list(got@),
            Error::InvalidParameter(m) => "Invalid parameter value: "@ + m@,
            Error::ConvergenceFailed(m) => "Convergence failed: "@ + m@,
            Error::NumericalError(m) => "Numerical error: "@ + m@,
            Error::InvalidState(m) => "Invalid state: "@ + m@,
            Error::Other(m) => m@,
        }
    }

    /// Describes the error in words.
    pub fn to_string(&self) -> (s: String)
        ensures
            s@ == self.message(),
    {
        let mut s = String::new();
        match self {
            Error::InvalidDimensions { expected, got } => {
                s.push_str("Invalid input dimensions: expected ");
                push_number_list(&mut s, expected);
                s.push_str(", got ");
                push_number_list(&mut s, got);
                proof {
                    assert(s@ =~= self.message());
                }
            },
            Error::InvalidParameter(m) => {
                s.push_str("Invalid parameter value: ");
                s.push_str(m.as_str());
            },
            Error::ConvergenceFailed(m) => {
                s.push_str("Convergence failed: ");
                s.push_str(m.as_str());
            },
            Error::NumericalError(m) => {
                s.push_str("Numerical error: ");
                s.push_str(m.as_str());
            },
            Error::InvalidState(m) => {
                s.push_str("Invalid state: ");
                s.push_str(m.as_str());
            },
            Error::Other(m) => {
                s.push_str(m.as_str());
            },
        }
        s
    }
}

/// Checks that a data set of `rows` samples comes with as many labels:
/// `Ok` where it does, and otherwise an invalid-dimensions error that names
/// the number of samples as expected and the number of labels as got.
pub fn check_label_count(rows: usize, labels: usize) -> (r: Result<(), Error>)
    ensures
        rows == labels ==> r is Ok,
        rows != labels ==> (r matches Err(Error::InvalidDimensions { expected, got }) && expected@
            == seq![rows] && got@ == seq![labels]),
{
    if rows != labels {
        return Err(Error::InvalidDimensions { expected: vec![rows], got: vec![labels] });
    }
    Ok(())
}

} // verus!
