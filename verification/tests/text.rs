use packrat::input::{Input, ParseError, ParseResult};
use packrat::markup::{Attributes, take_prefix, take_until};
use packrat::pattern::Pat;

fn lit(s: &str) -> Pat {
    Pat::Lit(s.to_string())
}

#[test]
fn test_line_col() {
    let input = Input::from("\nHello World!\nThis is a test of some stuff.");
    println!("{:?}", input);
    assert_eq!(input.line_idx(5), 1);
    assert_eq!(input.line_idx(0), 0);
    assert_eq!(input.line_idx(13), 1);
    assert_eq!(input.line_idx(14), 2);
}

#[test]
fn error_reports_line_column_and_snippet() {
    let mut input = Input::from("first\nsecond line\nthird");
    assert!(input.expect_pattern(&lit("first\nsec")).is_ok());
    let e = input.error("something");
    assert_eq!(e.expected, "something");
    assert_eq!(e.at, (2, 3));
    assert_eq!(e.line, "second line");
}

#[test]
fn expect_pattern_takes_maximal_runs() {
    let mut input = Input::from("aaab");
    assert_eq!(input.expect_pattern(&lit("a")).unwrap(), "aaa");
    let err = input.expect_pattern(&lit("a")).unwrap_err();
    assert_eq!(err.expected, "a");
    assert_eq!(input.expect_pattern(&lit("b")).unwrap(), "b");
    assert!(input.expect_eoi().is_ok());
}

#[test]
fn expect_antipattern_stops_before_the_match() {
    let mut input = Input::from("code```rest");
    assert_eq!(input.expect_antipattern(&lit("```")).unwrap(), "code");
    assert_eq!(input.expect_pattern(&lit("```")).unwrap(), "```");
    // With no match ahead the whole remainder comes back, but nothing is
    // consumed.
    assert_eq!(input.expect_antipattern(&lit("!")).unwrap(), "rest");
    assert_eq!(input.expect_pattern(&lit("rest")).unwrap(), "rest");
}

#[test]
fn expect_lineend_accepts_eoi_lf_and_crlf() {
    let mut input = Input::from("a\r\nb\nc");
    assert_eq!(input.expect_pattern(&lit("a")).unwrap(), "a");
    assert!(input.expect_lineend().is_ok());
    assert_eq!(input.expect_pattern(&lit("b")).unwrap(), "b");
    assert!(input.expect_lineend().is_ok());
    let e = input.expect_lineend().unwrap_err();
    assert_eq!(e.expected, "<Newline or EOI>");
    assert_eq!(input.expect_pattern(&lit("c")).unwrap(), "c");
    assert!(input.expect_lineend().is_ok());
}

#[test]
fn expect_eoi_only_at_the_end() {
    let mut input = Input::from("x");
    let e = input.expect_eoi().unwrap_err();
    assert_eq!(e.expected, "<EOI>");
    assert_eq!(input.expect_pattern(&lit("x")).unwrap(), "x");
    assert!(input.expect_eoi().is_ok());
}

#[test]
fn expect_line_takes_text_and_terminator() {
    let mut input = Input::from("title line\nnext");
    assert_eq!(input.expect_line().unwrap(), "title line");
    assert_eq!(input.expect_line().unwrap(), "next");
    assert!(input.expect_line().is_err());
}

fn needs_ab(input: &mut Input) -> ParseResult<String> {
    let a = input.expect_pattern(&Pat::Lit("a".to_string()))?;
    let b = input.expect_pattern(&Pat::Lit("b".to_string()))?;
    Ok(a + &b)
}

#[test]
fn expect_backtracks_on_failure() {
    let mut input = Input::from("ac");
    // The sub-parser consumes "a" before failing; expect undoes that.
    assert!(input.expect(needs_ab).is_err());
    assert_eq!(input.expect_pattern(&lit("ac")).unwrap(), "ac");
}

#[test]
fn expect_star_collects_until_failure() {
    let mut input = Input::from("ababx");
    let v = input.expect_star(needs_ab);
    assert_eq!(v, vec!["ab".to_string(), "ab".to_string()]);
    assert_eq!(input.expect_pattern(&lit("x")).unwrap(), "x");
}

#[test]
fn expect_keeps_a_success() {
    let mut input = Input::from("abc");
    assert_eq!(input.expect(needs_ab).unwrap(), "ab");
    assert_eq!(input.expect_pattern(&lit("c")).unwrap(), "c");
}

#[test]
fn input_returns_the_remainder() {
    let mut input = Input::from("one two");
    assert_eq!(input.input(), "one two");
    assert!(input.expect_pattern(&lit("one")).is_ok());
    assert_eq!(input.input(), " two");
}

#[test]
fn parse_error_values_compare() {
    let input = Input::from("x");
    let a = input.error("thing");
    assert_eq!(
        a,
        ParseError { expected: "thing".to_string(), at: (1, 0), line: "x".to_string() }
    );
}

#[test]
fn mod_t1() {
    let mut t = String::from("#this.cant.be.real");
    assert_eq!(
        Attributes::new(&mut t),
        Attributes {
            id: Some("this".to_string()),
            classes: vec!["cant".to_string(), "be".to_string(), "real".to_string()],
            attributes: vec![],
        }
    );
    assert!(t.is_empty());
}

#[test]
fn attributes_without_id_or_classes() {
    let mut t = String::from("plain text");
    assert_eq!(
        Attributes::new(&mut t),
        Attributes { id: None, classes: vec![], attributes: vec![] }
    );
    assert_eq!(t, "plain text");
}

#[test]
fn attributes_allow_empty_class_names() {
    let mut t = String::from("..a rest");
    assert_eq!(
        Attributes::new(&mut t),
        Attributes { id: None, classes: vec!["".to_string(), "a".to_string()], attributes: vec![] }
    );
    assert_eq!(t, " rest");
}

#[test]
fn take_prefix_and_take_until_split_strings() {
    let mut s = String::from("#ident.rest");
    assert_eq!(take_prefix(&mut s, &lit("#")), Some("#".to_string()));
    assert_eq!(take_until(&mut s, &Pat::NonAlnum), "ident");
    assert_eq!(s, ".rest");
    assert_eq!(take_prefix(&mut s, &lit("x")), None);
    assert_eq!(s, ".rest");
    assert_eq!(take_until(&mut s, &lit("zz")), ".rest");
    assert_eq!(s, "");
}
