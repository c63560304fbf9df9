use knapsack::file_reader::{
    file_argument, find, parse_number, parse_pair, parse_problem, split_first, split_line, PairError, ParseError,
};

#[test]
fn parses_header_and_items() {
    let problem = parse_problem(b"3 50\n60 10\n100 20\n120 30\n").unwrap();
    assert_eq!(problem.n_items, 3);
    assert_eq!(problem.capacity, 50);
    let pairs: Vec<(usize, usize)> =
        problem.treasure_items.iter().map(|item| (item.value, item.weight)).collect();
    assert_eq!(pairs, vec![(60, 10), (100, 20), (120, 30)]);
}

#[test]
fn parses_without_final_newline_and_with_carriage_returns() {
    let problem = parse_problem(b"2 7\r\n+5 3 ignored\r\n007 0").unwrap();
    assert_eq!((problem.n_items, problem.capacity), (2, 7));
    let pairs: Vec<(usize, usize)> =
        problem.treasure_items.iter().map(|item| (item.value, item.weight)).collect();
    assert_eq!(pairs, vec![(5, 3), (7, 0)]);
}

#[test]
fn parses_an_instance_without_items() {
    let problem = parse_problem(b"0 9").unwrap();
    assert_eq!((problem.n_items, problem.capacity), (0, 9));
    assert!(problem.treasure_items.is_empty());
}

#[test]
fn each_fault_has_its_error() {
    assert_eq!(parse_problem(b"").unwrap_err(), ParseError::Empty);
    assert_eq!(parse_problem(b"x 5\n").unwrap_err(), ParseError::BadItemCount);
    assert_eq!(parse_problem(b"\n1 1\n").unwrap_err(), ParseError::BadItemCount);
    assert_eq!(parse_problem(b"3\n").unwrap_err(), ParseError::MissingCapacity);
    assert_eq!(parse_problem(b"3 \n").unwrap_err(), ParseError::BadCapacity);
    assert_eq!(parse_problem(b"3  5\n").unwrap_err(), ParseError::BadCapacity);
    assert_eq!(parse_problem(b"1 5\n-1 2\n").unwrap_err(), ParseError::BadValue);
    assert_eq!(parse_problem(b"1 5\n1 2\n\n").unwrap_err(), ParseError::BadValue);
    assert_eq!(parse_problem(b"1 5\n12\n").unwrap_err(), ParseError::MissingWeight);
    assert_eq!(parse_problem(b"1 5\n1 2.5\n").unwrap_err(), ParseError::BadWeight);
    assert_eq!(parse_problem(b"2 5\n1 2\n").unwrap_err(), ParseError::CountMismatch);
    assert_eq!(parse_problem(b"1 5\n1 2\n3 4\n").unwrap_err(), ParseError::CountMismatch);
}

#[test]
fn first_fault_wins() {
    assert_eq!(parse_problem(b"5 5\n1 2\nx 1\n1 y\n").unwrap_err(), ParseError::BadValue);
    assert_eq!(parse_problem(b"5 5\n1 y\nx 1\n").unwrap_err(), ParseError::BadWeight);
}

#[test]
fn numbers_are_decimal_and_fit_a_word() {
    assert_eq!(parse_number(b"0"), Some(0));
    assert_eq!(parse_number(b"+42"), Some(42));
    assert_eq!(parse_number(b"000123"), Some(123));
    assert_eq!(parse_number(usize::MAX.to_string().as_bytes()), Some(usize::MAX));
    assert_eq!(parse_number(format!("{}0", usize::MAX).as_bytes()), None);
    assert_eq!(parse_number((usize::MAX as u128 + 1).to_string().as_bytes()), None);
    assert_eq!(parse_number(b""), None);
    assert_eq!(parse_number(b"+"), None);
    assert_eq!(parse_number(b"++1"), None);
    assert_eq!(parse_number(b"-1"), None);
    assert_eq!(parse_number(b"1 "), None);
    assert_eq!(parse_number(b"12a"), None);
    assert_eq!(parse_number(b"99999999999999999999999999x"), None);
}

#[test]
fn pairs_are_split_at_single_spaces() {
    assert_eq!(parse_pair(b"1 2"), Ok((1, 2)));
    assert_eq!(parse_pair(b"1 2 3 4"), Ok((1, 2)));
    assert_eq!(parse_pair(b"1 2 x"), Ok((1, 2)));
    assert_eq!(parse_pair(b" 1 2"), Err(PairError::BadFirst));
    assert_eq!(parse_pair(b"1"), Err(PairError::MissingSecond));
    assert_eq!(parse_pair(b"1  2"), Err(PairError::BadSecond));
    assert_eq!(parse_pair(b"1\t2"), Err(PairError::BadFirst));
}

#[test]
fn splitting_finds_the_first_separator() {
    assert_eq!(find(b"abc", b'b'), 1);
    assert_eq!(find(b"abcb", b'x'), 4);
    assert_eq!(find(b"", b'x'), 0);
    assert_eq!(split_first(b"a,b,c", b','), (&b"a"[..], Some(&b"b,c"[..])));
    assert_eq!(split_first(b"abc", b','), (&b"abc"[..], None));
    assert_eq!(split_first(b"abc,", b','), (&b"abc"[..], Some(&b""[..])));
    assert_eq!(split_first(b",abc", b','), (&b""[..], Some(&b"abc"[..])));
}

#[test]
fn lines_end_at_newline_or_carriage_return_newline() {
    assert_eq!(split_line(b"ab\ncd\n"), (&b"ab"[..], &b"cd\n"[..]));
    assert_eq!(split_line(b"ab\r\ncd"), (&b"ab"[..], &b"cd"[..]));
    assert_eq!(split_line(b"ab\r"), (&b"ab\r"[..], &b""[..]));
    assert_eq!(split_line(b"ab"), (&b"ab"[..], &b""[..]));
    assert_eq!(split_line(b"\n"), (&b""[..], &b""[..]));
    assert_eq!(split_line(b"\r\n\r\n"), (&b""[..], &b"\r\n"[..]));
}

#[test]
fn file_flag_names_the_input() {
    assert_eq!(file_argument(b"-file=data/ks_4_0"), Some(&b"data/ks_4_0"[..]));
    assert_eq!(file_argument(b"-file="), Some(&b""[..]));
    assert_eq!(file_argument(b"-file"), None);
    assert_eq!(file_argument(b"--file=x"), None);
    assert_eq!(file_argument(b"-fil=e"), None);
    assert_eq!(file_argument(b""), None);
}
