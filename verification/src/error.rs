//! The ways in which reading or solving a problem can fail.
use vstd::prelude::*;

verus! {

/// Why no system, or no optimum, could be given.
#[derive(Clone, Copy, Debug, PartialEq, Eq, Structural)]
pub enum Error {
    /// A line holds a character that is neither a digit, a sign, a lower-case
    /// letter nor a space.
    UnexpectedToken,
    /// The digits of one coefficient stand for more than a coefficient can hold.
    NumberTooLarge,
    /// There is no first line, or every line was read without error and the
    /// first one holds no coefficient.
    MissingObjective,
    /// A constraint does not have as many coefficients as the objective.
    UnevenRows,
    /// The entering variable can grow without bound: no constraint holds it back.
    Unbounded,
    /// The objective still had a positive coefficient after the last pivot
    /// that a solve may perform.
    NonConvergence,
}

impl Error {
    /// The text of `message`.
    pub open spec fn text(self) -> Seq<char> {
        match self {
            Error::UnexpectedToken => "Unexpected token"@,
            Error::NumberTooLarge => "Number too large"@,
            Error::MissingObjective => "Need at least one equation for the objective function"@,
            Error::UnevenRows => "Every line needs as many terms as the objective function"@,
            Error::Unbounded => "System is unbounded!"@,
            Error::NonConvergence => "Couldn't solve linear system within 100 moves"@,
        }
    }

    /// A sentence for the person who gave the input.
    pub fn message(&self) -> (s: &'static str)
        ensures
            s@ == self.text(),
    {
        match self {
            Error::UnexpectedToken => "Unexpected token",
            Error::NumberTooLarge => "Number too large",
            Error::MissingObjective => "Need at least one equation for the objective function",
            Error::UnevenRows => "Every line needs as many terms as the objective function",
            Error::Unbounded => "System is unbounded!",
            Error::NonConvergence => "Couldn't solve linear system within 100 moves",
        }
    }
}

} // verus!
