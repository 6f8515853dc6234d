use std::cell::Cell;

use packrat::engine::{LexRes, Lexer, NoLex, PackRat, ParseError, take_pattern};
use packrat::pattern::Pat;

fn lit(s: &str) -> Pat {
    Pat::Lit(s.to_string())
}

#[test]
fn tests_t1() {
    let test = "This is a simple test.";
    let mut pr: PackRat<NoLex, (), (), ()> = PackRat::new(test);
    assert_eq!(pr.is_eoi(), false);
    assert_eq!(pr.epat(&lit("This")), Some("This".to_string()));
    assert_eq!(pr.epat(&Pat::Whitespace), Some(" ".to_string()));
    assert_eq!(pr.epat(&lit("psych!")), None);
    assert_eq!(pr.epat(&lit("is")), Some("is".to_string()));
    assert_eq!(pr.epat(&lit(" a simple test.")), Some(" a simple test.".to_string()));
    assert_eq!(pr.epat(&Pat::AnyChar), None);
}

#[derive(Debug, PartialEq, Clone)]
enum AST {
    Bracket(Vec<AST>),
    Brace(Vec<AST>),
}

fn parse_items(pr: &mut PackRat<NoLex, (), (), AST>) -> Vec<AST> {
    let mut items = Vec::new();
    loop {
        if let Some(i) = pr.epar(1, parse_brackets) {
            items.push(i);
        } else if let Some(i) = pr.epar(2, parse_braces) {
            items.push(i);
        } else {
            break items;
        }
    }
}

fn parse_brackets(pr: &mut PackRat<NoLex, (), (), AST>) -> Option<AST> {
    pr.epat(&lit("["))?;
    let children = parse_items(pr);
    pr.epat(&lit("]"))?;
    Some(AST::Bracket(children))
}

fn parse_braces(pr: &mut PackRat<NoLex, (), (), AST>) -> Option<AST> {
    pr.epat(&lit("{"))?;
    let children = parse_items(pr);
    pr.epat(&lit("}"))?;
    Some(AST::Brace(children))
}

#[test]
fn t2() {
    let input = "[][{}]{}{{}{}}";
    assert_eq!(
        parse_items(&mut PackRat::new(input)),
        vec![
            AST::Bracket(vec![]),
            AST::Bracket(vec![AST::Brace(vec![])]),
            AST::Brace(vec![]),
            AST::Brace(vec![AST::Brace(vec![]), AST::Brace(vec![])])
        ]
    )
}

#[derive(Debug, PartialEq, Clone, Copy)]
enum ABCToken {
    A,
    B,
    C,
}

struct ABCLex {
    input: String,
    pos: usize,
}

fn is_abc(c: char) -> bool {
    c == 'a' || c == 'b' || c == 'c'
}

impl Lexer<ABCToken, ()> for ABCLex {
    fn new(s: &str) -> Self {
        ABCLex { input: s.to_string(), pos: 0 }
    }

    fn next(&mut self) -> Option<LexRes<ABCToken, ()>> {
        let rest = &self.input[self.pos..];
        if rest.is_empty() {
            return None;
        }
        let c = rest.chars().next().unwrap();
        if is_abc(c) {
            self.pos += c.len_utf8();
            Some(LexRes::Token(match c {
                'a' => ABCToken::A,
                'b' => ABCToken::B,
                'c' => ABCToken::C,
                _ => unreachable!(),
            }))
        } else {
            let end = rest.find(is_abc).unwrap_or(rest.len());
            let ret = rest[..end].to_string();
            self.pos += end;
            Some(LexRes::Text(ret))
        }
    }
}

#[test]
fn t3() {
    let input = "this b is a test of a cabweird lexer.";
    let mut pr: PackRat<ABCLex, ABCToken, (), ()> = PackRat::new(input);
    assert_eq!(pr.epat(&lit("this b is a")), None);
    assert_eq!(pr.epat(&lit("this")), Some("this".to_string()));
    assert_eq!(pr.epat(&Pat::Whitespace), Some(" ".to_string()));
    // No more characters can be read until the pending token is handled.
    assert_eq!(pr.epat(&Pat::AnyChar), None);
    assert_eq!(pr.etok(ABCToken::A), None);
    assert_eq!(pr.etok(ABCToken::B), Some(ABCToken::B));
    assert_eq!(pr.epat(&lit(" is ")), Some(" is ".to_string()));
    assert_eq!(pr.etok(ABCToken::A), Some(ABCToken::A));
    assert_eq!(pr.epat(&lit(" test of ")), Some(" test of ".to_string()));
    assert_eq!(pr.etok(ABCToken::A), Some(ABCToken::A));
    assert_eq!(pr.epat(&Pat::Whitespace), Some(" ".to_string()));
    assert_eq!(pr.etok(ABCToken::C), Some(ABCToken::C));
    assert_eq!(pr.etok(ABCToken::A), Some(ABCToken::A));
    assert_eq!(pr.etok(ABCToken::B), Some(ABCToken::B));
    assert_eq!(pr.epat(&lit("weird lexer.")), Some("weird lexer.".to_string()));
}

#[test]
fn scenario_full_consume_reaches_eoi() {
    let mut pr: PackRat<NoLex, (), (), ()> = PackRat::new("This is a simple test.");
    assert_eq!(pr.is_eoi(), false);
    assert_eq!(pr.epat(&lit("This")), Some("This".to_string()));
    assert_eq!(pr.epat(&Pat::Whitespace), Some(" ".to_string()));
    assert_eq!(pr.epat(&lit("is")), Some("is".to_string()));
    assert_eq!(pr.epat(&lit(" a simple test.")), Some(" a simple test.".to_string()));
    assert_eq!(pr.is_eoi(), true);
}

#[test]
fn eoi_on_empty_input() {
    let mut pr: PackRat<NoLex, (), (), ()> = PackRat::new("");
    assert_eq!(pr.is_eoi(), true);
}

#[test]
fn epat_rejects_zero_width_literal() {
    let mut pr: PackRat<NoLex, (), (), ()> = PackRat::new("abc");
    assert_eq!(pr.epat(&lit("")), None);
    assert_eq!(pr.epat(&lit("abc")), Some("abc".to_string()));
}

fn consume_a_then_fail(pr: &mut PackRat<NoLex, (), (), String>) -> Option<String> {
    pr.epat(&lit("ab"))?;
    pr.epat(&lit("zz"))
}

#[test]
fn backtrack_restores_position() {
    let mut pr: PackRat<NoLex, (), (), String> = PackRat::new("abcd");
    // The sub-parser consumes "ab" before failing; epar undoes that.
    assert_eq!(pr.epar(7, consume_a_then_fail), None);
    assert_eq!(pr.epat(&lit("abcd")), Some("abcd".to_string()));
}

#[test]
fn memoized_failure_runs_once_and_records_one_diagnostic() {
    let mut pr: PackRat<NoLex, (), (), String> = PackRat::new("abcd");
    let runs = Cell::new(0u32);
    let rule = |pr: &mut PackRat<NoLex, (), (), String>| -> Option<String> {
        runs.set(runs.get() + 1);
        pr.epat(&lit("zz"))
    };
    assert_eq!(pr.epar(3, &rule), None);
    assert_eq!(pr.epar(3, &rule), None);
    // The second call replayed the memoized failure: the parser did not run
    // again and no second diagnostic was recorded.
    assert_eq!(runs.get(), 1);
    assert_eq!(pr.diagnostics().len(), 1);
}

#[test]
fn memoized_success_replays_output() {
    let mut pr: PackRat<NoLex, (), (), String> = PackRat::new("ab");
    let runs = Cell::new(0u32);
    let rule_a = |pr: &mut PackRat<NoLex, (), (), String>| -> Option<String> {
        runs.set(runs.get() + 1);
        pr.epat(&lit("a"))
    };
    let first = |pr: &mut PackRat<NoLex, (), (), String>| -> Option<String> {
        pr.epar(1, &rule_a)?;
        pr.epat(&lit("z"))
    };
    let second = |pr: &mut PackRat<NoLex, (), (), String>| -> Option<String> {
        let a = pr.epar(1, &rule_a)?;
        let b = pr.epat(&lit("b"))?;
        Some(a + &b)
    };
    assert_eq!(pr.epar(2, &first), None);
    assert_eq!(pr.epar(3, &second), Some("ab".to_string()));
    // The shared rule ran once: its success at position zero was replayed.
    assert_eq!(runs.get(), 1);
    assert_eq!(pr.is_eoi(), true);
}

#[test]
fn best_error_picks_the_furthest_failure() {
    let mut pr: PackRat<NoLex, (), (), ()> = PackRat::new("hello world");
    assert_eq!(pr.epat(&lit("help")), None);
    assert_eq!(pr.epat(&lit("hello")), Some("hello".to_string()));
    assert_eq!(pr.epat(&lit("planet")), None);
    let best = pr.best_error().unwrap();
    assert_eq!(best.0, 0);
    assert_eq!(best.1, 5);
    assert_eq!(best.2, ParseError::ExpectedPattern { pattern: "planet".to_string() });
}

#[test]
fn best_error_tie_reports_the_first_recorded() {
    let mut pr: PackRat<NoLex, (), (), ()> = PackRat::new("x");
    assert_eq!(pr.epat(&lit("aa")), None);
    assert_eq!(pr.epat(&lit("bb")), None);
    let best = pr.best_error().unwrap();
    assert_eq!((best.0, best.1), (0, 0));
    assert_eq!(best.2, ParseError::ExpectedPattern { pattern: "aa".to_string() });
}

#[test]
fn best_errors_surfaces_all_ties_together() {
    let mut pr: PackRat<NoLex, (), (), ()> = PackRat::new("hello");
    assert_eq!(pr.epat(&lit("hex")), None);
    assert_eq!(pr.epat(&lit("hem")), None);
    assert_eq!(pr.epat(&lit("he")), Some("he".to_string()));
    assert_eq!(pr.epat(&lit("xx")), None);
    assert_eq!(pr.epat(&lit("yy")), None);
    let tied = pr.best_errors();
    assert_eq!(tied.len(), 2);
    assert_eq!(*tied[0], (0, 2, ParseError::ExpectedPattern { pattern: "xx".to_string() }));
    assert_eq!(*tied[1], (0, 2, ParseError::ExpectedPattern { pattern: "yy".to_string() }));
}

#[test]
fn best_errors_empty_ledger() {
    let pr: PackRat<NoLex, (), (), ()> = PackRat::new("x");
    assert_eq!(pr.best_errors().len(), 0);
}

#[test]
fn whitespace_pattern_accepts_unicode_spaces() {
    let mut pr: PackRat<NoLex, (), (), ()> = PackRat::new("\u{A0}\u{2003}x");
    assert_eq!(pr.epat(&Pat::Whitespace), Some("\u{A0}".to_string()));
    assert_eq!(pr.epat(&Pat::Whitespace), Some("\u{2003}".to_string()));
    assert_eq!(pr.epat(&Pat::Whitespace), None);
    assert_eq!(pr.epat(&lit("x")), Some("x".to_string()));
}

#[test]
fn best_error_empty_ledger() {
    let pr: PackRat<NoLex, (), (), ()> = PackRat::new("x");
    assert!(pr.best_error().is_none());
}

struct FailLex {
    sent: bool,
}

impl Lexer<(), u8> for FailLex {
    fn new(_s: &str) -> Self {
        FailLex { sent: false }
    }

    fn next(&mut self) -> Option<LexRes<(), u8>> {
        if self.sent {
            None
        } else {
            self.sent = true;
            Some(LexRes::LexError(42))
        }
    }
}

#[test]
fn etok_mismatch_records_the_expected_token() {
    let mut pr: PackRat<ABCLex, ABCToken, (), ()> = PackRat::new("a");
    assert_eq!(pr.etok(ABCToken::B), None);
    let best = pr.best_error().unwrap();
    assert_eq!((best.0, best.1), (0, 0));
    assert_eq!(best.2, ParseError::ExpectedToken { expected: ABCToken::B });
}

#[test]
fn lex_error_item_fails_matchers_and_is_recorded() {
    let mut pr: PackRat<FailLex, (), u8, ()> = PackRat::new("whatever");
    assert_eq!(pr.epat(&Pat::AnyChar), None);
    assert_eq!(pr.etok(()), None);
    let best = pr.best_error().unwrap();
    assert_eq!((best.0, best.1), (0, 0));
    assert_eq!(best.2, ParseError::LexError { e: 42 });
}

#[test]
fn get_token_and_get_input_peek_without_advancing() {
    let mut pr: PackRat<ABCLex, ABCToken, (), ()> = PackRat::new("xy a");
    assert_eq!(pr.get_token(), None);
    assert_eq!(pr.get_input(), Some("xy ".to_string()));
    assert_eq!(pr.epat(&lit("xy")), Some("xy".to_string()));
    assert_eq!(pr.get_input(), Some(" ".to_string()));
    assert_eq!(pr.epat(&Pat::Whitespace), Some(" ".to_string()));
    assert_eq!(pr.get_input(), None);
    assert_eq!(pr.get_token(), Some(ABCToken::A));
    // Peeking did not advance: the token is still there to match.
    assert_eq!(pr.etok(ABCToken::A), Some(ABCToken::A));
    assert_eq!(pr.is_eoi(), true);
}

#[test]
fn contract_walkthroughs_execute() {
    packrat::scenario::simple_sentence_walkthrough();
    packrat::scenario::token_boundary_walkthrough();
}

#[test]
fn take_pattern_splits_off_the_prefix() {
    let mut s = "then rest".to_string();
    assert_eq!(take_pattern(&mut s, &lit("then")), Some("then".to_string()));
    assert_eq!(s, " rest");
    assert_eq!(take_pattern(&mut s, &lit("nope")), None);
    assert_eq!(s, " rest");
    assert_eq!(take_pattern(&mut s, &Pat::Whitespace), Some(" ".to_string()));
    assert_eq!(s, "rest");
}
