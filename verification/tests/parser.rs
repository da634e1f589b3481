use lin_solver::error::Error;
use lin_solver::parser::{lines, parse_line, parse_to_system, ParseState, ReadMode};
use nalgebra::{DMatrix, Matrix2, RowDVector};

fn as_row(parsed: Result<Vec<i32>, Error>) -> Result<RowDVector<f32>, Error> {
    parsed.map(|coefficients| {
        RowDVector::from_vec(coefficients.into_iter().map(|c| c as f32).collect())
    })
}

fn as_matrix(rows: &[Vec<i32>], columns: usize) -> DMatrix<f32> {
    let flat: Vec<f32> = rows.iter().flatten().map(|&c| c as f32).collect();
    DMatrix::from_row_slice(rows.len(), columns, &flat)
}

#[test]
fn constant() {
    let input = "1";
    let vec = as_row(parse_line(input));

    assert_eq!(vec, Ok(RowDVector::from_vec(vec![1.0])));
}

#[test]
fn variable() {
    let input = "4 -x1 + 3x2";
    let vec = as_row(parse_line(input));

    assert_eq!(vec, Ok(RowDVector::from_vec(vec![4.0, -1.0, 3.0])));
}

#[test]
fn zero_value() {
    let input = "-0 +2x1 -0x2";
    let vec = as_row(parse_line(input));

    assert_eq!(vec, Ok(RowDVector::from_vec(vec![0.0, 2.0, 0.0])));
}

#[test]
fn four_terms() {
    let res = as_row(parse_line("2 + 1x1 + 0x2 - 4x3")).unwrap();
    assert_eq!(res, RowDVector::from_vec(vec![2.0, 1.0, 0.0, -4.0]));
}

#[test]
fn names_are_passed_over() {
    let res = as_row(parse_line("0 + 1 + 2a - 3a")).unwrap();
    assert_eq!(res, RowDVector::from_vec(vec![0.0, 1.0, 2.0, -3.0]));
}

#[test]
fn constant_five() {
    assert_eq!(parse_line("5"), Ok(vec![5]));
}

#[test]
fn zero_has_no_sign() {
    assert_eq!(parse_line("-0 +2x1 -0x2"), Ok(vec![0, 2, 0]));
}

#[test]
fn empty_line_has_no_coefficient() {
    assert_eq!(parse_line(""), Ok(vec![]));
    assert_eq!(parse_line("   "), Ok(vec![]));
}

#[test]
fn sign_alone_opens_no_term() {
    assert_eq!(parse_line("+"), Ok(vec![]));
    assert_eq!(parse_line("1 +"), Ok(vec![1]));
    assert_eq!(parse_line("1 + - 2"), Ok(vec![1, -2]));
}

#[test]
fn name_without_digits_counts_once() {
    assert_eq!(parse_line("x"), Ok(vec![1]));
    assert_eq!(parse_line("-x"), Ok(vec![-1]));
    assert_eq!(parse_line("1 + x - y"), Ok(vec![1, 1, -1]));
}

#[test]
fn digits_gather_over_spaces() {
    assert_eq!(parse_line("1 2 + 3 4x"), Ok(vec![12, 34]));
}

#[test]
fn long_name_is_one_name() {
    assert_eq!(parse_line("2xy + 3"), Ok(vec![2, 3]));
    assert_eq!(parse_line("1 + 2ab1c2 + 3c"), Ok(vec![1, 2, 3]));
}

#[test]
fn digits_behind_a_name_belong_to_it() {
    assert_eq!(parse_line("7x123456789012345"), Ok(vec![7]));
}

#[test]
fn unknown_character_is_refused() {
    assert_eq!(parse_line("2$"), Err(Error::UnexpectedToken));
    assert_eq!(parse_line("2 * x"), Err(Error::UnexpectedToken));
    assert_eq!(parse_line("2X"), Err(Error::UnexpectedToken));
    assert_eq!(parse_line("1\t+ x"), Err(Error::UnexpectedToken));
    assert_eq!(parse_line("3x_1"), Err(Error::UnexpectedToken));
    assert_eq!(parse_line("1 + x\n2"), Err(Error::UnexpectedToken));
}

#[test]
fn largest_coefficient() {
    assert_eq!(parse_line("2147483647"), Ok(vec![2147483647]));
    assert_eq!(parse_line("-2147483647x"), Ok(vec![-2147483647]));
    assert_eq!(parse_line("0000000000002147483647"), Ok(vec![2147483647]));
}

#[test]
fn too_large_a_number_is_refused() {
    assert_eq!(parse_line("2147483648"), Err(Error::NumberTooLarge));
    assert_eq!(parse_line("1 + 99999999999x"), Err(Error::NumberTooLarge));
}

#[test]
fn first_error_wins() {
    assert_eq!(parse_line("99999999999 $"), Err(Error::NumberTooLarge));
    assert_eq!(parse_line("$ 99999999999"), Err(Error::UnexpectedToken));
}

#[test]
fn state_appends_digits() {
    let mut state = ParseState { number_buffer: None, parity: 1, mode: ReadMode::Number };
    state.append_number(4);
    assert_eq!(state.number_buffer, Some(4));
    state.append_number(2);
    assert_eq!(state.number_buffer, Some(42));
    state.append_number(0);
    assert_eq!(state.number_buffer, Some(420));
    assert_eq!(state.parity, 1);
    assert_eq!(state.mode, ReadMode::Number);
}

#[test]
fn state_submits_its_term() {
    let mut state = ParseState { number_buffer: Some(42), parity: -1, mode: ReadMode::Number };
    assert_eq!(state.submit(), Some(-42));
    assert_eq!(state.number_buffer, Some(42));
    let mut named = ParseState { number_buffer: Some(3), parity: 1, mode: ReadMode::Name };
    assert_eq!(named.submit(), Some(3));
    let mut bare = ParseState { number_buffer: None, parity: -1, mode: ReadMode::Name };
    assert_eq!(bare.submit(), Some(-1));
    let mut nothing = ParseState { number_buffer: None, parity: -1, mode: ReadMode::Number };
    assert_eq!(nothing.submit(), None);
}

#[test]
fn lines_end_at_line_feeds() {
    assert_eq!(lines(""), Vec::<&str>::new());
    assert_eq!(lines("a"), vec!["a"]);
    assert_eq!(lines("a\n"), vec!["a"]);
    assert_eq!(lines("a\nb"), vec!["a", "b"]);
    assert_eq!(lines("a\n\nb\n"), vec!["a", "", "b"]);
    assert_eq!(lines("\n"), vec![""]);
    assert_eq!(lines("\n\n"), vec!["", ""]);
}

#[test]
fn lines_drop_the_carriage_return_before_a_line_feed() {
    assert_eq!(lines("a\r\nb\r\n"), vec!["a", "b"]);
    assert_eq!(lines("a\r\nb\r"), vec!["a", "b\r"]);
    assert_eq!(lines("a\r\r\nb"), vec!["a\r", "b"]);
    assert_eq!(lines("\r\n"), vec![""]);
    assert_eq!(lines("a\rb\n"), vec!["a\rb"]);
}

#[test]
fn lines_agree_with_the_standard_library() {
    let texts = [
        "",
        "\n",
        "\r",
        "\r\n",
        "1 + 2x\n4 - 2x\n0 + x",
        "1 + 2x\r\n4 - 2x\r\n0 + x\r\n",
        "a\n\n\nb",
        "\n\na",
        "a\r\n\r\n\rb\r",
        "é + λ\n\u{1F600}\r\nz",
    ];
    for text in texts {
        let expected: Vec<&str> = text.lines().collect();
        assert_eq!(lines(text), expected);
    }
}

#[test]
fn system_of_three_lines() {
    let input = String::from(
        "0 + x
                            3 - x
                            -2 + 4x",
    );
    let res = parse_to_system(input).unwrap();
    assert_eq!(
        RowDVector::from_vec(res.objective.iter().map(|&c| c as f32).collect::<Vec<f32>>()),
        RowDVector::from_vec(vec![0.0, 1.0])
    );
    assert_eq!(as_matrix(&res.constraints, 2), Matrix2::new(3.0, -1.0, -2.0, 4.0));
}

#[test]
fn system_of_the_worked_example() {
    let input = "1 + 2x
            4 - 2x
            0 + x";
    let system = parse_to_system(input.to_string()).unwrap();
    assert_eq!(system.objective, vec![1, 2]);
    assert_eq!(system.constraints, vec![vec![4, -2], vec![0, 1]]);
}

#[test]
fn system_without_constraints() {
    let system = parse_to_system("5".to_string()).unwrap();
    assert_eq!(system.objective, vec![5]);
    assert_eq!(system.constraints, Vec::<Vec<i32>>::new());
}

#[test]
fn system_needs_an_objective() {
    assert_eq!(parse_to_system(String::new()).unwrap_err(), Error::MissingObjective);
    assert_eq!(parse_to_system("\n1 + x".to_string()).unwrap_err(), Error::MissingObjective);
    assert_eq!(parse_to_system("  \n".to_string()).unwrap_err(), Error::MissingObjective);
}

#[test]
fn system_needs_even_rows() {
    assert_eq!(parse_to_system("1 + x\n2".to_string()).unwrap_err(), Error::UnevenRows);
    assert_eq!(parse_to_system("1 + x\n2 + x + y".to_string()).unwrap_err(), Error::UnevenRows);
    assert_eq!(parse_to_system("1 + x\n2 - x\n\n".to_string()).unwrap_err(), Error::UnevenRows);
}

#[test]
fn system_gives_the_error_of_its_first_bad_line() {
    assert_eq!(parse_to_system("1 + x$\n2 - x".to_string()).unwrap_err(), Error::UnexpectedToken);
    assert_eq!(
        parse_to_system("1 + x\n2 - 99999999999x\n3 ? x".to_string()).unwrap_err(),
        Error::NumberTooLarge
    );
    assert_eq!(parse_to_system("1 + x\n2\n3 ? x".to_string()).unwrap_err(), Error::UnexpectedToken);
    assert_eq!(parse_to_system("1 + 2x\n4 ? 2x".to_string()).unwrap_err(), Error::UnexpectedToken);
}

#[test]
fn bad_line_is_told_before_a_missing_objective() {
    assert_eq!(parse_to_system("\n4 ? 2x".to_string()).unwrap_err(), Error::UnexpectedToken);
    assert_eq!(parse_to_system("+\n1 + x\n3 ? x".to_string()).unwrap_err(), Error::UnexpectedToken);
    assert_eq!(
        parse_to_system("  \n1 + 99999999999x".to_string()).unwrap_err(),
        Error::NumberTooLarge
    );
    assert_eq!(parse_to_system("?\n4 + 2x".to_string()).unwrap_err(), Error::UnexpectedToken);
}

#[test]
fn missing_objective_is_told_before_uneven_rows() {
    assert_eq!(parse_to_system("\n1 + x\n2".to_string()).unwrap_err(), Error::MissingObjective);
    assert_eq!(parse_to_system("-\n\n".to_string()).unwrap_err(), Error::MissingObjective);
}

#[test]
fn system_reads_text_with_carriage_returns() {
    let system = parse_to_system("1 + 2x\r\n4 - 2x\r\n".to_string()).unwrap();
    assert_eq!(system.objective, vec![1, 2]);
    assert_eq!(system.constraints, vec![vec![4, -2]]);
}

#[test]
fn every_error_has_its_message() {
    assert_eq!(Error::UnexpectedToken.message(), "Unexpected token");
    assert_eq!(Error::NumberTooLarge.message(), "Number too large");
    assert_eq!(
        Error::MissingObjective.message(),
        "Need at least one equation for the objective function"
    );
    assert_eq!(
        Error::UnevenRows.message(),
        "Every line needs as many terms as the objective function"
    );
    assert_eq!(Error::Unbounded.message(), "System is unbounded!");
    assert_eq!(Error::NonConvergence.message(), "Couldn't solve linear system within 100 moves");
}

/// Reads a line term by term: the line without its spaces is cut before each
/// sign, and each piece is its sign, its digits and its name.
fn term_by_term(line: &str) -> Vec<i32> {
    let mut pieces: Vec<(i32, String)> = vec![(1, String::new())];
    for c in line.chars().filter(|&c| c != ' ') {
        if c == '+' {
            pieces.push((1, String::new()));
        } else if c == '-' {
            pieces.push((-1, String::new()));
        } else {
            pieces.last_mut().unwrap().1.push(c);
        }
    }
    let mut coefficients = Vec::new();
    for (sign, body) in pieces {
        if body.is_empty() {
            continue;
        }
        let digits: String = body.chars().take_while(|c| c.is_ascii_digit()).collect();
        if digits.is_empty() {
            coefficients.push(sign);
        } else {
            coefficients.push(sign * digits.parse::<i32>().unwrap());
        }
    }
    coefficients
}

#[test]
fn reading_agrees_with_reading_term_by_term() {
    let alphabet = [' ', ' ', '+', '-', '0', '1', '2', '7', '9', 'a', 'x', 'z'];
    let mut seed: u32 = 0x2545_f491;
    for round in 0..4000 {
        let length = round % 12;
        let mut line = String::new();
        for _ in 0..length {
            seed = seed.wrapping_mul(1664525).wrapping_add(1013904223);
            line.push(alphabet[(seed >> 16) as usize % alphabet.len()]);
        }
        assert_eq!(parse_line(&line), Ok(term_by_term(&line)), "{:?}", line);
    }
}
