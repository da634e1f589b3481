//! The linear system and the rules by which it is solved.
use crate::error::Error;
use crate::scalar::Scalar;
use vstd::prelude::*;

verus! {

/// A linear problem as mathematics sees it: the coefficients of the objective,
/// and one row of coefficients for each constraint `row >= 0`. The first
/// coefficient of a row is its constant term, the others belong to the
/// variables, in their order.
pub struct Problem {
    pub objective: Seq<i32>,
    pub constraints: Seq<Seq<i32>>,
}

impl Problem {
    /// There is a constant term, and every constraint is as long as the
    /// objective.
    pub open spec fn wf(self) -> bool {
        &&& self.objective.len() >= 1
        &&& forall|i: int|
            0 <= i < self.constraints.len() ==> (#[trigger] self.constraints[i]).len()
                == self.objective.len()
    }
}

/// The rows as sequences.
pub open spec fn rows_view(rows: Seq<Vec<i32>>) -> Seq<Seq<i32>> {
    Seq::new(rows.len(), |i: int| rows[i]@)
}

/// A linear problem as it was written down, before any pivot: whole numbers
/// throughout.
#[derive(Debug)]
pub struct LinearSystem {
    pub objective: Vec<i32>,
    pub constraints: Vec<Vec<i32>>,
}

impl View for LinearSystem {
    type V = Problem;

    open spec fn view(&self) -> Problem {
        Problem { objective: self.objective@, constraints: rows_view(self.constraints@) }
    }
}

/// The most pivots that one solve performs.
pub const MAX_PIVOTS: u8 = 100;

/// No variable improves the objective: no coefficient behind the constant term
/// is above zero.
pub open spec fn optimal(objective: Seq<Scalar>) -> bool {
    forall|j: int| 1 <= j < objective.len() ==> !(#[trigger] objective[j]).positive()
}

/// `x` is the entering variable: the first one whose coefficient in the
/// objective is above zero.
pub open spec fn enters(objective: Seq<Scalar>, x: int) -> bool {
    &&& 1 <= x < objective.len()
    &&& objective[x].positive()
    &&& forall|j: int| 1 <= j < x ==> !(#[trigger] objective[j]).positive()
}

/// Finds the entering variable, if the objective has one.
pub fn first_positive(objective: &Vec<Scalar>) -> (found: Option<usize>)
    ensures
        found matches Some(x) ==> enters(objective@, x as int),
        found is None ==> optimal(objective@),
{
    let mut i: usize = 1;
    while i < objective.len()
        invariant
            1 <= i,
            forall|j: int| 1 <= j < i && j < objective@.len() ==> !(#[trigger] objective@[j]).positive(),
        decreases objective.len() - i,
    {
        if objective[i].is_positive() {
            return Some(i);
        }
        i += 1;
    }
    None
}

/// Row `i` holds the entering variable back: its coefficient there is below
/// zero, so the row falls as the variable grows.
pub open spec fn candidate(column: Seq<Scalar>, i: int) -> bool {
    0 <= i < column.len() && column[i].negative()
}

/// No row holds the entering variable back.
pub open spec fn unbounded(column: Seq<Scalar>) -> bool {
    forall|i: int| 0 <= i < column.len() ==> !(#[trigger] column[i]).negative()
}

/// `a` and `b` are candidates, `a` before `b`, with no candidate between them.
pub open spec fn adjacent(column: Seq<Scalar>, a: int, b: int) -> bool {
    &&& a < b
    &&& candidate(column, a)
    &&& candidate(column, b)
    &&& forall|k: int| a < k < b ==> !candidate(column, k)
}

/// `row` is the leaving row.
///
/// The candidates are looked at in their order, and each one is taken in
/// place of the one before it while its ratio is above that one's ratio. The
/// first candidate whose ratio is not above ends the search, whatever comes
/// behind it. So the leaving row is the candidate up to which the ratios rise
/// from each candidate to the next, and whose own next candidate, if there is
/// one, does not rise above it.
pub open spec fn leaves(column: Seq<Scalar>, ratios: Seq<Scalar>, row: int) -> bool {
    &&& candidate(column, row)
    &&& forall|a: int, b: int|
        #[trigger] adjacent(column, a, b) && b <= row ==> ratios[a].less_than(ratios[b])
    &&& forall|b: int| #[trigger] adjacent(column, row, b) ==> !ratios[row].less_than(ratios[b])
}

/// The ratio test: picks the row to pivot on for an entering variable.
///
/// `column` holds the coefficient of the entering variable in each constraint,
/// `ratios` the constant term of each constraint divided by that coefficient.
/// The ratio of a row that is no candidate is not looked at.
pub fn pivot_row(column: &Vec<Scalar>, ratios: &Vec<Scalar>) -> (chosen: Result<usize, Error>)
    requires
        column@.len() == ratios@.len(),
    ensures
        chosen matches Ok(row) ==> leaves(column@, ratios@, row as int),
        chosen matches Err(e) ==> e == Error::Unbounded,
        chosen is Err <==> unbounded(column@),
{
    let mut most_restrictive: Option<usize> = None;
    let mut i: usize = 0;
    while i < column.len()
        invariant_except_break
            most_restrictive is None ==> forall|k: int|
                0 <= k < i ==> !(#[trigger] column@[k]).negative(),
            most_restrictive matches Some(row) ==> forall|k: int| row < k < i ==> !candidate(column@, k),
        invariant
            i <= column@.len(),
            column@.len() == ratios@.len(),
            most_restrictive matches Some(row) ==> {
                &&& row < i
                &&& candidate(column@, row as int)
                &&& forall|a: int, b: int|
                    #[trigger] adjacent(column@, a, b) && b <= row ==> ratios@[a].less_than(
                        ratios@[b],
                    )
            },
        ensures
            most_restrictive is None ==> unbounded(column@),
            most_restrictive matches Some(row) ==> leaves(column@, ratios@, row as int),
        decreases column.len() - i,
    {
        if column[i].is_negative() {
            if let Some(row) = most_restrictive {
                if !ratios[row].is_less_than(&ratios[i]) {
                    proof {
                        // No candidate stands between `row` and `i`, so the
                        // candidate next to `row` is `i`, which does not rise.
                        assert forall|b: int| #[trigger] adjacent(column@, row as int, b) implies
                            !ratios@[row as int].less_than(ratios@[b]) by {
                            if b > i {
                                assert(!candidate(column@, i as int));
                            }
                        }
                    }
                    break ;
                }
            }
            most_restrictive = Some(i);
        }
        i += 1;
    }
    match most_restrictive {
        Some(row) => Ok(row),
        None => Err(Error::Unbounded),
    }
}

/// There is one leaving row at most.
pub proof fn lemma_leaving_row_is_unique(
    column: Seq<Scalar>,
    ratios: Seq<Scalar>,
    first: int,
    second: int,
)
    requires
        leaves(column, ratios, first),
        leaves(column, ratios, second),
    ensures
        first == second,
{
    // The candidate next to the earlier of the two would have to rise above
    // it, to reach the later one, and not to rise, to end the search.
    if first < second {
        next_candidate(column, first, second);
    } else if second < first {
        next_candidate(column, second, first);
    }
}

/// The first candidate behind `from`, where `to` is a candidate behind it.
proof fn next_candidate(column: Seq<Scalar>, from: int, to: int) -> (next: int)
    requires
        candidate(column, from),
        candidate(column, to),
        from < to,
    ensures
        from < next <= to,
        adjacent(column, from, next),
    decreases to - from,
{
    if exists|k: int| from < k < to && candidate(column, k) {
        let k = choose|k: int| from < k < to && candidate(column, k);
        next_candidate(column, from, k)
    } else {
        to
    }
}

/// What a solve does next.
#[derive(Clone, Copy, Debug)]
pub enum Step {
    /// The objective cannot be improved: its constant term is the optimum.
    Optimal(Scalar),
    /// Pivot on this variable, then look at the objective again.
    Pivot(usize),
}

/// The course of one solve: it counts the pivots.
#[derive(Clone, Copy, Debug)]
pub struct Solver {
    /// The pivots that have been asked for so far.
    pub pivots: u8,
}

/// How `step` ends a solve that has made `pivots` pivots and finds this
/// objective row: with the optimum, or with a failure. `None` where the solve
/// goes on with one more pivot.
pub open spec fn verdict(pivots: int, objective: Seq<Scalar>) -> Option<Result<Scalar, Error>> {
    if optimal(objective) {
        Some(Ok(objective[0]))
    } else if pivots < MAX_PIVOTS {
        None
    } else {
        Some(Err(Error::NonConvergence))
    }
}

/// What a solve finds in one round: the objective row and, for the round's
/// entering variable, its coefficient in each constraint. Where the objective
/// has no entering variable, the column is of no account.
pub struct Round {
    pub objective: Seq<Scalar>,
    pub column: Seq<Scalar>,
}

/// How the round ends a solve that has made `pivots` pivots: as `verdict` says
/// of the objective, or else with a failure where no row holds the entering
/// variable back. `None` where the round ends with a pivot.
pub open spec fn round_end(pivots: int, round: Round) -> Option<Result<Scalar, Error>> {
    match verdict(pivots, round.objective) {
        Some(end) => Some(end),
        None => if unbounded(round.column) {
            Some(Err(Error::Unbounded))
        } else {
            None
        },
    }
}

/// How a solve ends that has made `pivots` pivots and then goes through
/// `rounds`, one pivot between each round and the next. `None` where it is not
/// over after the last of them.
pub open spec fn outcome(pivots: int, rounds: Seq<Round>) -> Option<Result<Scalar, Error>>
    decreases rounds.len(),
{
    if rounds.len() == 0 {
        None
    } else {
        match round_end(pivots, rounds[0]) {
            Some(end) => Some(end),
            None => outcome(pivots + 1, rounds.drop_first()),
        }
    }
}

impl Solver {
    /// A solve that has not pivoted yet.
    pub fn new() -> (solver: Solver)
        ensures
            solver.pivots == 0,
    {
        Solver { pivots: 0 }
    }

    /// Looks at the objective row and says what to do next.
    ///
    /// Where no variable improves the objective, the solve is over and the
    /// constant term is the optimum. Otherwise the entering variable is to be
    /// pivoted on, unless the solve has used up its pivots: then it fails.
    pub fn step(&mut self, objective: &Vec<Scalar>) -> (next: Result<Step, Error>)
        requires
            objective@.len() >= 1,
        ensures
            match next {
                Ok(Step::Optimal(value)) => {
                    &&& verdict(old(self).pivots as int, objective@) == Some(
                        Ok::<Scalar, Error>(value),
                    )
                    &&& final(self).pivots == old(self).pivots
                },
                Ok(Step::Pivot(x)) => {
                    &&& verdict(old(self).pivots as int, objective@) is None
                    &&& enters(objective@, x as int)
                    &&& final(self).pivots == old(self).pivots + 1
                },
                Err(e) => {
                    &&& verdict(old(self).pivots as int, objective@) == Some(
                        Err::<Scalar, Error>(e),
                    )
                    &&& final(self).pivots == old(self).pivots
                },
            },
    {
        match first_positive(objective) {
            None => Ok(Step::Optimal(objective[0])),
            Some(x) => {
                if self.pivots < MAX_PIVOTS {
                    self.pivots = self.pivots + 1;
                    Ok(Step::Pivot(x))
                } else {
                    Err(Error::NonConvergence)
                }
            },
        }
    }
}

/// The round can end with a pivot: the objective can be improved, and a row
/// holds the entering variable back.
pub open spec fn can_pivot(round: Round) -> bool {
    !optimal(round.objective) && !unbounded(round.column)
}

/// A solve ends with the optimum once the objective cannot be improved, if
/// that takes no more pivots than a solve may make.
///
/// The solve has made `pivots` pivots and pivots in every round but the last;
/// in the last its objective cannot be improved. It ends with the constant
/// term of that objective.
pub proof fn lemma_solve_reaches_optimum(pivots: int, rounds: Seq<Round>)
    requires
        rounds.len() >= 1,
        pivots + rounds.len() - 1 <= MAX_PIVOTS,
        forall|i: int| 0 <= i < rounds.len() - 1 ==> can_pivot(#[trigger] rounds[i]),
        optimal(rounds.last().objective),
    ensures
        outcome(pivots, rounds) == Some(Ok::<Scalar, Error>(rounds.last().objective[0])),
    decreases rounds.len(),
{
    if rounds.len() > 1 {
        lemma_solve_reaches_optimum(pivots + 1, rounds.drop_first());
    }
}

/// A solve whose entering variable no row holds back fails as unbounded, and
/// gives no number.
///
/// The solve has made `pivots` pivots and pivots in every round but the last;
/// in the last it still has a pivot left, and its objective can be improved,
/// but by a variable that is unbounded.
pub proof fn lemma_solve_tells_unbounded(pivots: int, rounds: Seq<Round>)
    requires
        rounds.len() >= 1,
        pivots + rounds.len() - 1 < MAX_PIVOTS,
        forall|i: int| 0 <= i < rounds.len() - 1 ==> can_pivot(#[trigger] rounds[i]),
        !optimal(rounds.last().objective),
        unbounded(rounds.last().column),
    ensures
        outcome(pivots, rounds) == Some(Err::<Scalar, Error>(Error::Unbounded)),
    decreases rounds.len(),
{
    if rounds.len() > 1 {
        lemma_solve_tells_unbounded(pivots + 1, rounds.drop_first());
    }
}

/// A solve whose objective can still be improved after the last pivot that a
/// solve may make fails for want of convergence, and gives no number.
///
/// The solve has made `pivots` pivots and pivots in every round but the last,
/// which makes as many pivots as a solve may make; in the last round its
/// objective can still be improved.
pub proof fn lemma_solve_gives_up(pivots: int, rounds: Seq<Round>)
    requires
        rounds.len() >= 1,
        pivots + rounds.len() - 1 == MAX_PIVOTS,
        forall|i: int| 0 <= i < rounds.len() - 1 ==> can_pivot(#[trigger] rounds[i]),
        !optimal(rounds.last().objective),
    ensures
        outcome(pivots, rounds) == Some(Err::<Scalar, Error>(Error::NonConvergence)),
    decreases rounds.len(),
{
    if rounds.len() > 1 {
        lemma_solve_gives_up(pivots + 1, rounds.drop_first());
    }
}

} // verus!
