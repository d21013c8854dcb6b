use cnf::{
    convert_string, handle_clause, handle_line_parts, handle_problem, parse_lines,
    parse_read_lines, CNFError, CNFLine, CNF,
};

fn lines_of(text: &[&str]) -> Vec<String> {
    text.iter().map(|l| String::from(*l)).collect()
}

fn parse_text(text: &[&str]) -> Result<CNF, CNFError> {
    parse_lines(&lines_of(text))
}

#[test]
fn minimal_valid_input() {
    let cnf = parse_text(&["p cnf 2 2", "1 -2 0", "-1 2 0"]).unwrap();
    assert_eq!(cnf.format, "cnf");
    assert_eq!(cnf.variable_count, 2);
    assert_eq!(cnf.clause_count, 2);
    assert_eq!(cnf.clauses, vec![vec![1, -2], vec![-1, 2]]);
    assert!(cnf.comments.is_empty());
}

#[test]
fn comments_and_blank_lines_tolerated() {
    let cnf = parse_text(&["c hello", "", "p cnf 1 1", "c another", "1 0"]).unwrap();
    assert_eq!(cnf.comments, vec![String::from("hello"), String::from("another")]);
    assert_eq!(cnf.clauses, vec![vec![1]]);
}

#[test]
fn wrong_format_rejected() {
    match parse_text(&["p sat 1 1", "1 0"]) {
        Err(CNFError::NotCNF(f)) => assert_eq!(f, "sat"),
        other => panic!("unexpected result: {:?}", other),
    }
}

#[test]
fn extra_header_token_rejected() {
    match parse_text(&["p cnf 1 2 asdf"]) {
        Err(CNFError::BadProblemLine(s)) => assert_eq!(s, "cnf 1 2 asdf"),
        other => panic!("unexpected result: {:?}", other),
    }
}

#[test]
fn non_numeric_literal_rejected() {
    match parse_text(&["p cnf 1 1", "-1 1 asdf"]) {
        Err(CNFError::BadProblemLine(s)) => assert_eq!(s, "asdf"),
        other => panic!("unexpected result: {:?}", other),
    }
}

#[test]
fn missing_terminating_zero_tolerated() {
    let cnf = parse_text(&["p cnf 2 1", "1 -2"]).unwrap();
    assert_eq!(cnf.clauses, vec![vec![1, -2]]);
}

#[test]
fn format_is_cnf_after_header() {
    let cnf = parse_text(&["c x", "p cnf 3 1", "1 2 3 0"]).unwrap();
    assert_eq!(cnf.format, "cnf");
}

#[test]
fn format_empty_without_header() {
    let cnf = parse_text(&["1 2 0"]).unwrap();
    assert_eq!(cnf.format, "");
}

#[test]
fn counts_follow_line_kinds() {
    let cnf = parse_text(&["c a", "  c b  ", "p cnf 3 2", "1 0", "-2 3", "c", "x 1", "0 1"]).unwrap();
    assert_eq!(cnf.comments.len(), 2);
    assert_eq!(cnf.clauses.len(), 2);
}

#[test]
fn zero_tokens_dropped_from_clauses() {
    let cnf = parse_text(&["1 0 2 0", "-3 0 0"]).unwrap();
    assert_eq!(cnf.clauses, vec![vec![1, 2], vec![-3]]);
}

#[test]
fn padded_zero_token_is_kept() {
    let cnf = parse_text(&["1 00"]).unwrap();
    assert_eq!(cnf.clauses, vec![vec![1, 0]]);
}

#[test]
fn ignored_lines_change_nothing() {
    let a = parse_text(&["p cnf 2 1", "1 2 0"]).unwrap();
    let b = parse_text(&["", "   ", "p cnf 2 1", "0 5 6", "x y", "1 2 0", "%", "c"]).unwrap();
    assert_eq!(a.comments, b.comments);
    assert_eq!(a.format, b.format);
    assert_eq!(a.variable_count, b.variable_count);
    assert_eq!(a.clause_count, b.clause_count);
    assert_eq!(a.clauses, b.clauses);
}

#[test]
fn round_trip_through_text() {
    let a = parse_text(&["c first", "c  second", "p cnf 4 3", "1 -2 0", "-9223372036854775808 4", "3 0"]).unwrap();
    let mut text: Vec<String> = Vec::new();
    for c in &a.comments {
        text.push(format!("c {}", c));
    }
    text.push(format!("p cnf {} {}", a.variable_count, a.clause_count));
    for clause in &a.clauses {
        let mut line = String::new();
        for lit in clause {
            line.push_str(&format!("{} ", lit));
        }
        line.push('0');
        text.push(line);
    }
    let b = parse_lines(&text).unwrap();
    assert_eq!(a.comments, b.comments);
    assert_eq!(a.format, b.format);
    assert_eq!(a.variable_count, b.variable_count);
    assert_eq!(a.clause_count, b.clause_count);
    assert_eq!(a.clauses, b.clauses);
}

#[test]
fn second_header_overwrites_first() {
    let cnf = parse_text(&["p cnf 1 1", "p cnf 5 7"]).unwrap();
    assert_eq!(cnf.format, "cnf");
    assert_eq!(cnf.variable_count, 5);
    assert_eq!(cnf.clause_count, 7);
}

#[test]
fn short_header_keeps_zero_counts() {
    let cnf = parse_text(&["p cnf"]).unwrap();
    assert_eq!(cnf.format, "cnf");
    assert_eq!(cnf.variable_count, 0);
    assert_eq!(cnf.clause_count, 0);
    let cnf = parse_text(&["p cnf 4"]).unwrap();
    assert_eq!(cnf.variable_count, 4);
    assert_eq!(cnf.clause_count, 0);
}

#[test]
fn non_numeric_header_count_rejected() {
    match handle_problem("cnf x 2") {
        Err(CNFError::BadProblemLine(s)) => assert_eq!(s, "x"),
        other => panic!("unexpected result: {:?}", other),
    }
    match handle_problem("cnf 2 -1") {
        Err(CNFError::BadProblemLine(s)) => assert_eq!(s, "-1"),
        other => panic!("unexpected result: {:?}", other),
    }
}

#[test]
fn first_error_stops_parsing() {
    match parse_text(&["p cnf 1 1", "1 q", "p dnf 1 1"]) {
        Err(CNFError::BadProblemLine(s)) => assert_eq!(s, "q"),
        other => panic!("unexpected result: {:?}", other),
    }
}

#[test]
fn line_starting_with_zero_is_ignored() {
    assert_eq!(handle_line_parts("0 1 2", 0).unwrap(), CNFLine::Ignore);
    assert_eq!(handle_line_parts("", 0).unwrap(), CNFLine::Ignore);
    assert_eq!(handle_line_parts(" \t ", 0).unwrap(), CNFLine::Ignore);
    assert_eq!(handle_line_parts("cx", 0).unwrap(), CNFLine::Ignore);
}

#[test]
fn lines_are_trimmed_first() {
    assert_eq!(
        handle_line_parts("\u{3000} c  spaced out \t", 0).unwrap(),
        CNFLine::Comment(String::from(" spaced out"))
    );
    assert_eq!(handle_line_parts("  7\t-8 0 ", 0).unwrap(), CNFLine::Clause(vec![7, -8]));
}

#[test]
fn clause_tokens_split_on_ascii_whitespace() {
    assert_eq!(handle_clause("1\t2\r3\x0C4 0", 0).unwrap(), vec![1, 2, 3, 4]);
    assert!(handle_clause("1\u{A0}2", 0).is_err());
}

#[test]
fn integer_tokens_read_like_std() {
    assert_eq!(convert_string::<usize>("+17").unwrap(), 17);
    assert_eq!(convert_string::<usize>("007").unwrap(), 7);
    assert!(convert_string::<usize>("-1").is_err());
    assert!(convert_string::<usize>("").is_err());
    assert!(convert_string::<usize>("+").is_err());
    assert_eq!(convert_string::<usize>("18446744073709551615").unwrap(), usize::MAX);
    assert!(convert_string::<usize>("18446744073709551616").is_err());
    assert_eq!(convert_string::<isize>("-42").unwrap(), -42);
    assert_eq!(convert_string::<isize>("+42").unwrap(), 42);
    assert_eq!(convert_string::<isize>("-9223372036854775808").unwrap(), isize::MIN);
    assert_eq!(convert_string::<isize>("9223372036854775807").unwrap(), isize::MAX);
    assert!(convert_string::<isize>("9223372036854775808").is_err());
    assert!(convert_string::<isize>("-9223372036854775809").is_err());
    assert!(convert_string::<isize>("-").is_err());
    assert!(convert_string::<isize>("--1").is_err());
    match convert_string::<isize>("1x") {
        Err(CNFError::BadProblemLine(s)) => assert_eq!(s, "1x"),
        other => panic!("unexpected result: {:?}", other),
    }
}

#[test]
fn read_error_reported_after_clean_lines() {
    let lines = lines_of(&["p cnf 1 1", "1 0"]);
    let err = std::io::Error::new(std::io::ErrorKind::Other, "read failed");
    assert!(matches!(parse_read_lines(&lines, Some(err)), Err(CNFError::FileError(_))));
    let cnf = parse_read_lines(&lines, None).unwrap();
    assert_eq!(cnf.clauses, vec![vec![1]]);
}

#[test]
fn line_error_reported_before_read_error() {
    let lines = lines_of(&["p xyz"]);
    let err = std::io::Error::new(std::io::ErrorKind::Other, "read failed");
    match parse_read_lines(&lines, Some(err)) {
        Err(CNFError::NotCNF(f)) => assert_eq!(f, "xyz"),
        other => panic!("unexpected result: {:?}", other),
    }
}
