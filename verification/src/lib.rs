//! Solves small linear problems that are written down as text.
//!
//! The first line of the text is the objective, every further line a constraint
//! of the form `row >= 0`, and no variable may be negative. [`parser`] reads the
//! text into a [`solver::LinearSystem`]. [`solver`] holds the rules by which the
//! system is driven to its optimum, pivot by pivot: which variable enters, which
//! row leaves, and when the solve is over. [`scalar`] answers what those rules
//! ask of a number.
//!
//! The numbers of a system under way are binary32 numbers. The library sees them
//! as bit patterns and never computes with them: between two of its decisions
//! the caller rewrites the rows.
use vstd::prelude::*;
use vstd::std_specs::iter::IteratorSpec;

pub mod error;
pub mod parser;
pub mod scalar;
pub mod solver;

verus! {

/// What `read_args` says when no file is named.
pub open spec fn no_file() -> Seq<char> {
    "Not enough arguments, no file specified!"@
}

/// Picks the path of the problem file from the arguments of the program: the
/// one behind the program's own name.
pub fn read_args(mut args: impl Iterator<Item = String>) -> (path: Result<String, &'static str>)
    ensures
        args.obeys_prophetic_iter_laws() ==> match path {
            Ok(file) => args.remaining().len() >= 2 && file == args.remaining()[1],
            Err(e) => args.remaining().len() < 2 && e@ == no_file(),
        },
{
    args.next();
    if let Some(x) = args.next() {
        return Ok(x);
    } else {
        return Err("Not enough arguments, no file specified!");
    }
}

} // verus!
