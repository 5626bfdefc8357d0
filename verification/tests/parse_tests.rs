use sat3_anneal::model::{Clause3, Formula};
use sat3_anneal::parse::ParseError;

const INSTANCE: &str = "c a small weighted instance\np cnf 5 2\nw 1 1 1 1 1\n-1 2 3\n2 4 5\n";

#[test]
fn parses_the_whole_instance() {
    let f = Formula::from_str(INSTANCE).unwrap();
    assert_eq!(f.vars_n, 5);
    assert_eq!(f.weights, vec![1, 1, 1, 1, 1]);
    assert_eq!(f.clauses.len(), 2);
    assert_eq!(f.clauses[0], Clause3 { a: -1, b: 2, c: 3 });
    assert_eq!(f.clauses[1], Clause3 { a: 2, b: 4, c: 5 });
}

#[test]
fn parsing_twice_is_deterministic() {
    let f1 = Formula::from_str(INSTANCE).unwrap();
    let f2 = Formula::from_str(INSTANCE).unwrap();
    assert_eq!(f1.vars_n, f2.vars_n);
    assert_eq!(f1.weights, f2.weights);
    assert_eq!(f1.clauses, f2.clauses);
}

#[test]
fn zero_weights_are_dropped() {
    let f = Formula::from_str("w 3 0 2 0 7\n").unwrap();
    assert_eq!(f.weights, vec![3, 2, 7]);
}

#[test]
fn missing_header_defaults_vars_to_zero() {
    let f = Formula::from_str("1 2 3\n").unwrap();
    assert_eq!(f.vars_n, 0);
    assert_eq!(f.clauses.len(), 1);
}

#[test]
fn empty_lines_and_comments_are_skipped() {
    let f = Formula::from_str("\nc note\n\n1 2 3\n\n").unwrap();
    assert_eq!(f.clauses.len(), 1);
}

#[test]
fn crlf_lines_parse() {
    let f = Formula::from_str("p cnf 3 1\r\nw 1 2 3\r\n1 2 -3\r\n").unwrap();
    assert_eq!(f.vars_n, 3);
    assert_eq!(f.weights, vec![1, 2, 3]);
    assert_eq!(f.clauses[0], Clause3 { a: 1, b: 2, c: -3 });
}

#[test]
fn header_missing_token() {
    assert_eq!(Formula::from_str("p cnf\n"), Err(ParseError::MissingToken));
}

#[test]
fn header_bad_number() {
    assert_eq!(
        Formula::from_str("p cnf many\n"),
        Err(ParseError::InvalidNumber)
    );
}

#[test]
fn clause_missing_token() {
    assert_eq!(Formula::from_str("1 2\n"), Err(ParseError::MissingToken));
}

#[test]
fn clause_bad_number() {
    assert_eq!(Formula::from_str("1 2 x\n"), Err(ParseError::InvalidNumber));
    assert_eq!(
        Formula::from_str("99999999999999999999 1 1\n"),
        Err(ParseError::InvalidNumber)
    );
}

#[test]
fn weight_bad_number() {
    assert_eq!(
        Formula::from_str("w 1 -2 3\n"),
        Err(ParseError::InvalidNumber)
    );
    assert_eq!(
        Formula::from_str("w 5000000000\n"),
        Err(ParseError::InvalidNumber)
    );
}

#[test]
fn clause_from_str_cases() {
    assert_eq!(
        Clause3::from_str("-1 2 3"),
        Ok(Clause3 { a: -1, b: 2, c: 3 })
    );
    assert_eq!(
        Clause3::from_str("+4  5\t6"),
        Ok(Clause3 { a: 4, b: 5, c: 6 })
    );
    // tokens past the third are ignored
    assert_eq!(
        Clause3::from_str("1 2 3 0"),
        Ok(Clause3 { a: 1, b: 2, c: 3 })
    );
    assert_eq!(Clause3::from_str("1 2"), Err(ParseError::MissingToken));
    assert_eq!(Clause3::from_str(""), Err(ParseError::MissingToken));
    assert_eq!(Clause3::from_str("a b c"), Err(ParseError::InvalidNumber));
}

#[test]
fn extreme_literal_values() {
    let f = Clause3::from_str("-9223372036854775808 9223372036854775807 1").unwrap();
    assert_eq!(f.a, i64::MIN);
    assert_eq!(f.b, i64::MAX);
}
