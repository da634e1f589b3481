//! Reads a linear problem from text.
//!
//! A line is a sum of terms such as `4 - 2x1 + x2`. Reading it gives the
//! coefficient of each term, in the order of the line; the names of the variables
//! are passed over, so every line has to list the same variables in the same
//! order. The first line of a text is the objective, every further line a
//! constraint.
use crate::error::Error;
use crate::solver::{rows_view, LinearSystem, Problem};
use vstd::prelude::*;
use vstd::string::StrSliceExecFns;

verus! {

/// What the reader is in the middle of.
#[derive(Clone, Copy, Debug, PartialEq, Eq, Structural)]
pub enum ReadMode {
    /// The digits of a coefficient.
    Number,
    /// The name of a variable, which ends the digits of its term.
    Name,
}

/// The term that is being read.
#[derive(Clone, Copy, Debug)]
pub struct ParseState {
    /// The digits read so far, as a number; `None` before the first digit.
    pub number_buffer: Option<i32>,
    /// 1 after `+` and at the start of a line, -1 after `-`.
    pub parity: i32,
    pub mode: ReadMode,
}

/// A lower-case letter: such a character begins, or carries on, a name.
pub open spec fn is_letter(c: char) -> bool {
    'a' <= c <= 'z'
}

/// A decimal digit.
pub open spec fn is_digit(c: char) -> bool {
    '0' <= c <= '9'
}

/// The number that a decimal digit stands for.
pub open spec fn digit_value(c: char) -> i32
    recommends
        is_digit(c),
{
    (c as int - '0' as int) as i32
}

impl ParseState {
    /// The state at the start of a line: no digit yet, sign `+`.
    pub open spec fn start() -> ParseState {
        ParseState { number_buffer: None, parity: 1, mode: ReadMode::Number }
    }

    /// The state after a sign: no digit yet, and the sign kept.
    pub open spec fn after_sign(sign: char) -> ParseState {
        ParseState {
            number_buffer: None,
            parity: if sign == '+' {
                1i32
            } else {
                -1i32
            },
            mode: ReadMode::Number,
        }
    }

    /// The parity is a sign and the digits stand for no negative number.
    pub open spec fn wf(self) -> bool {
        &&& self.parity == 1 || self.parity == -1
        &&& self.number_buffer matches Some(n) ==> n >= 0
    }

    /// The coefficient of the term read so far: its digits with its sign; 1 with
    /// its sign where a name came without digits; none where nothing came.
    pub open spec fn submitted(self) -> Option<i32> {
        match self.number_buffer {
            Some(n) => Some((n * self.parity) as i32),
            None => match self.mode {
                ReadMode::Name => Some(self.parity),
                ReadMode::Number => None,
            },
        }
    }

    /// Whether one more digit `n` still gives a number that the buffer can hold.
    pub open spec fn can_append(self, n: i32) -> bool {
        match self.number_buffer {
            Some(x) => i32::MIN <= x * 10 <= i32::MAX && i32::MIN <= x * 10 + n <= i32::MAX,
            None => true,
        }
    }

    /// The state with the digit `n` written behind the digits read so far.
    pub open spec fn appended(self, n: i32) -> ParseState {
        ParseState {
            number_buffer: Some(
                match self.number_buffer {
                    Some(x) => (x * 10 + n) as i32,
                    None => n,
                },
            ),
            ..self
        }
    }

    /// Gives the coefficient of the term read so far, if there is one.
    pub fn submit(&mut self) -> (coefficient: Option<i32>)
        requires
            old(self).number_buffer matches Some(n) ==> i32::MIN <= n * old(self).parity
                <= i32::MAX,
        ensures
            coefficient == old(self).submitted(),
            *final(self) == *old(self),
    {
        match self.number_buffer {
            Some(n) => Some(n * self.parity),
            None => match self.mode {
                ReadMode::Name => Some(self.parity),
                ReadMode::Number => None,
            },
        }
    }

    /// Writes the digit `n` behind the digits read so far.
    pub fn append_number(&mut self, n: i32)
        requires
            old(self).can_append(n),
        ensures
            *final(self) == old(self).appended(n),
    {
        if let Some(x) = self.number_buffer {
            self.number_buffer = Some(x * 10 + n)
        } else {
            self.number_buffer = Some(n)
        }
    }
}

/// How far a line has been read: the coefficients of the terms that are closed,
/// and the term that is open.
pub struct Reading {
    pub coefficients: Seq<i32>,
    pub state: ParseState,
}

impl Reading {
    /// Nothing read yet.
    pub open spec fn start() -> Reading {
        Reading { coefficients: Seq::empty(), state: ParseState::start() }
    }

    /// The coefficients once the open term is closed.
    pub open spec fn closed(self) -> Seq<i32> {
        match self.state.submitted() {
            Some(coefficient) => self.coefficients.push(coefficient),
            None => self.coefficients,
        }
    }

    /// Reads one more character.
    ///
    /// A space changes nothing. A letter turns the open term to its name. A sign
    /// closes the open term and opens the next. A digit is written behind the
    /// digits of the open term, unless the term is at its name already, where it
    /// belongs to the name. Any other character is an error, and so is a digit
    /// that makes the number too large.
    pub open spec fn step(self, c: char) -> Result<Reading, Error> {
        if c == ' ' {
            Ok(self)
        } else if is_letter(c) {
            Ok(Reading { state: ParseState { mode: ReadMode::Name, ..self.state }, ..self })
        } else if c == '+' || c == '-' {
            Ok(Reading { coefficients: self.closed(), state: ParseState::after_sign(c) })
        } else if is_digit(c) {
            if self.state.mode == ReadMode::Name {
                Ok(self)
            } else if self.state.can_append(digit_value(c)) {
                Ok(Reading { state: self.state.appended(digit_value(c)), ..self })
            } else {
                Err(Error::NumberTooLarge)
            }
        } else {
            Err(Error::UnexpectedToken)
        }
    }
}

/// Reads `line` from its first character to its last; the first error ends it.
pub open spec fn read(line: Seq<char>) -> Result<Reading, Error>
    decreases line.len(),
{
    if line.len() == 0 {
        Ok(Reading::start())
    } else {
        match read(line.drop_last()) {
            Ok(reading) => reading.step(line.last()),
            Err(e) => Err(e),
        }
    }
}

/// The coefficients of `line`, or the first error in it.
pub open spec fn coefficients(line: Seq<char>) -> Result<Seq<i32>, Error> {
    match read(line) {
        Ok(reading) => Ok(reading.closed()),
        Err(e) => Err(e),
    }
}

/// Once a part of a line has given an error, the whole line gives that error.
pub proof fn lemma_error_ends_reading(line: Seq<char>, n: int)
    requires
        0 <= n <= line.len(),
        read(line.take(n)) is Err,
    ensures
        read(line) == read(line.take(n)),
    decreases line.len() - n,
{
    if n == line.len() {
        assert(line.take(n) == line);
    } else {
        assert(line.drop_last().take(n) == line.take(n));
        lemma_error_ends_reading(line.drop_last(), n);
    }
}

/// Parses one line into its coefficients: the i-th number is the factor of the
/// i-th term.
pub fn parse_line(line: &str) -> (result: Result<Vec<i32>, Error>)
    ensures
        result matches Ok(v) ==> coefficients(line@) == Ok::<Seq<i32>, Error>(v@),
        result matches Err(e) ==> coefficients(line@) == Err::<Seq<i32>, Error>(e),
{
    let mut result: Vec<i32> = Vec::new();
    let mut state = ParseState { number_buffer: None, parity: 1, mode: ReadMode::Number };
    for elem in it: line.chars()
        invariant
            it.seq() == line@,
            read(line@.take(it.index() as int)) == Ok::<Reading, Error>(
                Reading { coefficients: result@, state },
            ),
            state.wf(),
    {
        proof {
            assert(line@.take(it.index() + 1).drop_last() == line@.take(it.index() as int));
        }
        match elem {
            ' ' => {},
            'a'..='z' => {
                state.mode = ReadMode::Name;
            },
            '+' | '-' => {
                if let Some(n) = state.submit() {
                    result.push(n);
                }
                state.number_buffer = None;
                state.parity = if elem == '+' {
                    1
                } else {
                    -1
                };
                state.mode = ReadMode::Number;
            },
            '0'..='9' => {
                if let ReadMode::Number = state.mode {
                    let digit: i32 = (elem as u32 - '0' as u32) as i32;
                    let fits = match state.number_buffer {
                        Some(x) => x <= (i32::MAX - digit) / 10,
                        None => true,
                    };
                    if !fits {
                        proof {
                            lemma_error_ends_reading(line@, it.index() + 1);
                        }
                        return Err(Error::NumberTooLarge);
                    }
                    state.append_number(digit);
                }
            },
            _ => {
                proof {
                    lemma_error_ends_reading(line@, it.index() + 1);
                }
                return Err(Error::UnexpectedToken);
            },
        }
    }
    proof {
        assert(line@.take(line@.len() as int) == line@);
    }
    if let Some(n) = state.submit() {
        result.push(n);
    }
    Ok(result)
}

/// Where the first line of `text` ends: at its first line feed, or at the end
/// of the text where it holds none.
pub open spec fn first_line_end(text: Seq<char>) -> nat
    decreases text.len(),
{
    if text.len() == 0 || text[0] == '\n' {
        0
    } else {
        1 + first_line_end(text.drop_first())
    }
}

/// A line without the carriage return that stood before its line feed.
pub open spec fn without_carriage_return(line: Seq<char>) -> Seq<char> {
    if line.len() > 0 && line.last() == '\r' {
        line.drop_last()
    } else {
        line
    }
}

/// The lines of `text`.
///
/// A line ends at a line feed, or at a carriage return followed by a line
/// feed; neither belongs to the line. What stands behind the last line feed is
/// a line too, unless it is empty, and it keeps a carriage return at its end.
pub open spec fn lines_of(text: Seq<char>) -> Seq<Seq<char>>
    decreases text.len(),
{
    if text.len() == 0 {
        Seq::empty()
    } else {
        let end = first_line_end(text) as int;
        if end >= text.len() {
            seq![text]
        } else {
            seq![without_carriage_return(text.take(end))] + lines_of(text.skip(end + 1))
        }
    }
}

/// The texts of the lines.
pub open spec fn lines_view(lines: Seq<&str>) -> Seq<Seq<char>> {
    Seq::new(lines.len(), |i: int| lines[i]@)
}

/// The first line ends at `end` when no line feed stands before `end` and one
/// stands there, or the text ends there.
pub proof fn lemma_first_line_end(text: Seq<char>, end: int)
    requires
        0 <= end <= text.len(),
        forall|j: int| 0 <= j < end ==> text[j] != '\n',
        end < text.len() ==> text[end] == '\n',
    ensures
        first_line_end(text) == end,
    decreases end,
{
    if end > 0 {
        lemma_first_line_end(text.drop_first(), end - 1);
    }
}

/// Splits `text` into its lines.
pub fn lines<'a>(text: &'a str) -> (lines: Vec<&'a str>)
    ensures
        lines_view(lines@) == lines_of(text@),
{
    let total = text.unicode_len();
    let mut lines: Vec<&'a str> = Vec::new();
    let mut start: usize = 0;
    let mut i: usize = 0;
    let mut after_carriage_return = false;
    proof {
        assert(text@.skip(0) == text@);
    }
    for c in it: text.chars()
        invariant
            it.seq() == text@,
            total == text@.len(),
            i == it.index(),
            start <= i <= total,
            forall|j: int| start <= j < i ==> text@[j] != '\n',
            after_carriage_return <==> (start < i && text@[i - 1] == '\r'),
            lines_of(text@) == lines_view(lines@) + lines_of(text@.skip(start as int)),
    {
        if c == '\n' {
            let end = if after_carriage_return {
                i - 1
            } else {
                i
            };
            let line = text.substring_char(start, end);
            proof {
                let rest = text@.skip(start as int);
                lemma_first_line_end(rest, i - start);
                assert(without_carriage_return(rest.take(i - start)) == line@);
                assert(rest.skip(i - start + 1) == text@.skip(i + 1));
            }
            lines.push(line);
            start = i + 1;
            after_carriage_return = false;
        } else {
            after_carriage_return = c == '\r';
        }
        i += 1;
    }
    if start < total {
        let line = text.substring_char(start, total);
        proof {
            lemma_first_line_end(text@.skip(start as int), total - start);
        }
        lines.push(line);
    }
    lines
}

/// The rows that `lines` stand for, or the first error in them.
pub open spec fn rows_of(lines: Seq<Seq<char>>) -> Result<Seq<Seq<i32>>, Error>
    decreases lines.len(),
{
    if lines.len() == 0 {
        Ok(Seq::empty())
    } else {
        match rows_of(lines.drop_last()) {
            Ok(rows) => match coefficients(lines.last()) {
                Ok(row) => Ok(rows.push(row)),
                Err(e) => Err(e),
            },
            Err(e) => Err(e),
        }
    }
}

/// The problem that `lines` stand for: the first line is the objective, every
/// further line a constraint.
///
/// There must be a first line, every line must be read without error, the
/// first line must hold at least one coefficient, and every constraint must
/// have as many coefficients as the objective. An error in reading a line comes
/// before everything else that is wrong with the lines, and the error of an
/// earlier line before that of a later one; an objective without a coefficient
/// comes before a wrong length.
pub open spec fn problem_of(lines: Seq<Seq<char>>) -> Result<Problem, Error> {
    if lines.len() == 0 {
        Err(Error::MissingObjective)
    } else {
        match coefficients(lines[0]) {
            Err(e) => Err(e),
            Ok(objective) => match rows_of(lines.skip(1)) {
                Err(e) => Err(e),
                Ok(constraints) => {
                    let problem = Problem { objective, constraints };
                    if objective.len() == 0 {
                        Err(Error::MissingObjective)
                    } else if problem.wf() {
                        Ok(problem)
                    } else {
                        Err(Error::UnevenRows)
                    }
                },
            },
        }
    }
}

/// Once some of the lines have given an error, all of them give that error.
pub proof fn lemma_error_ends_rows(lines: Seq<Seq<char>>, n: int)
    requires
        0 <= n <= lines.len(),
        rows_of(lines.take(n)) is Err,
    ensures
        rows_of(lines) == rows_of(lines.take(n)),
    decreases lines.len() - n,
{
    if n == lines.len() {
        assert(lines.take(n) == lines);
    } else {
        assert(lines.drop_last().take(n) == lines.take(n));
        lemma_error_ends_rows(lines.drop_last(), n);
    }
}

/// Lines that are all read without error give rows.
proof fn lemma_good_lines_give_rows(lines: Seq<Seq<char>>)
    requires
        forall|j: int| 0 <= j < lines.len() ==> coefficients(#[trigger] lines[j]) is Ok,
    ensures
        rows_of(lines) is Ok,
    decreases lines.len(),
{
    if lines.len() > 0 {
        assert(coefficients(lines[lines.len() - 1]) is Ok);
        lemma_good_lines_give_rows(lines.drop_last());
    }
}

/// The first line that cannot be read decides: its error is the error of the
/// whole problem, whatever else is wrong with the lines.
pub proof fn lemma_first_bad_line_is_told(lines: Seq<Seq<char>>, bad: int)
    requires
        0 <= bad < lines.len(),
        coefficients(lines[bad]) is Err,
        forall|j: int| 0 <= j < bad ==> coefficients(#[trigger] lines[j]) is Ok,
    ensures
        problem_of(lines) == Err::<Problem, Error>(coefficients(lines[bad])->Err_0),
{
    if bad > 0 {
        let rest = lines.skip(1);
        let upto = rest.take(bad);
        assert(upto.last() == lines[bad]);
        assert forall|j: int| 0 <= j < upto.drop_last().len() implies coefficients(
            #[trigger] upto.drop_last()[j],
        ) is Ok by {
            assert(upto.drop_last()[j] == lines[j + 1]);
        }
        lemma_good_lines_give_rows(upto.drop_last());
        lemma_error_ends_rows(rest, bad);
        assert(coefficients(lines[0]) is Ok);
    }
}

/// Parses a text of several lines into a linear system: the first line is the
/// objective, every further line a constraint.
pub fn parse_to_system(arg: String) -> (result: Result<LinearSystem, Error>)
    ensures
        result matches Ok(system) ==> problem_of(lines_of(arg@)) == Ok::<Problem, Error>(system@),
        result matches Ok(system) ==> system@.wf(),
        result matches Err(e) ==> problem_of(lines_of(arg@)) == Err::<Problem, Error>(e),
{
    let lines = lines(arg.as_str());
    if lines.len() == 0 {
        return Err(Error::MissingObjective);
    }
    let objective = match parse_line(lines[0]) {
        Ok(objective) => objective,
        Err(e) => {
            return Err(e);
        },
    };
    let ghost rest = lines_of(arg@).skip(1);
    let mut constraints: Vec<Vec<i32>> = Vec::new();
    let mut even = true;
    let mut k: usize = 1;
    proof {
        assert(rows_view(constraints@) == Seq::<Seq<i32>>::empty());
    }
    while k < lines.len()
        invariant
            1 <= k <= lines.len(),
            lines_view(lines@) == lines_of(arg@),
            coefficients(lines_of(arg@)[0]) == Ok::<Seq<i32>, Error>(objective@),
            rest == lines_of(arg@).skip(1),
            constraints@.len() == k - 1,
            rows_of(rest.take(k - 1)) == Ok::<Seq<Seq<i32>>, Error>(rows_view(constraints@)),
            even <==> forall|i: int|
                0 <= i < constraints@.len() ==> (#[trigger] constraints@[i])@.len()
                    == objective@.len(),
        decreases lines.len() - k,
    {
        proof {
            assert(rest.take(k as int).drop_last() == rest.take(k - 1));
        }
        match parse_line(lines[k]) {
            Ok(row) => {
                if row.len() != objective.len() {
                    even = false;
                }
                let ghost before = constraints@;
                proof {
                    assert(rows_view(before.push(row)) == rows_view(before).push(row@));
                }
                constraints.push(row);
                proof {
                    assert(constraints@[k - 1] == row);
                    assert(forall|i: int| 0 <= i < k - 1 ==> constraints@[i] == before[i]);
                }
            },
            Err(e) => {
                proof {
                    lemma_error_ends_rows(rest, k as int);
                }
                return Err(e);
            },
        }
        k += 1;
    }
    let system = LinearSystem { objective, constraints };
    proof {
        assert(rest.take(k - 1) == rest);
        assert(forall|i: int|
            0 <= i < system@.constraints.len() ==> #[trigger] system@.constraints[i]
                == system.constraints@[i]@);
        if system@.wf() {
            assert forall|i: int| 0 <= i < system.constraints@.len() implies (
            #[trigger] system.constraints@[i])@.len() == system.objective@.len() by {
                assert(system@.constraints[i] == system.constraints@[i]@);
            }
        }
    }
    if system.objective.len() == 0 {
        return Err(Error::MissingObjective);
    }
    if !even {
        return Err(Error::UnevenRows);
    }
    Ok(system)
}

} // verus!
