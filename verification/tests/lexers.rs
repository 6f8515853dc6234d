use packrat::blex::{BasicLexError, BasicLexer, BasicTokenKind};
use packrat::engine::{LexRes, Lexer as LexerTrait};
use packrat::indent::{Lexer, Token};

#[test]
fn blex_t1() {
    let mut blex = BasicLexer::from("Test ❄");
    assert_eq!(blex.get_token().unwrap(), (BasicTokenKind::Text, "T".to_string()));
    assert_eq!(blex.get_token().unwrap(), (BasicTokenKind::Text, "e".to_string()));
    assert_eq!(blex.get_token().unwrap(), (BasicTokenKind::Text, "s".to_string()));
    assert_eq!(blex.get_token().unwrap(), (BasicTokenKind::Text, "t".to_string()));
    assert_eq!(blex.get_token().unwrap(), (BasicTokenKind::Text, " ".to_string()));
    assert_eq!(blex.get_token().unwrap(), (BasicTokenKind::Text, "❄".to_string()));
    assert_eq!(blex.get_token().unwrap(), (BasicTokenKind::End, "".to_string()));
    assert_eq!(blex.get_token(), Err(BasicLexError::PastEnd));
}

fn collect_items(lx: &mut Lexer) -> Vec<LexRes<Token, ()>> {
    let mut out = Vec::new();
    while let Some(item) = lx.next() {
        out.push(item);
    }
    out
}

use Token::{BlankLine, Dedent, Indent, Newline};

#[test]
fn lexer_t1() {
    let input = "This is \na multi line string.\n\twith some indents,\n\t  using mixed ws,\n\tbut it should all,\n             \n\t\t   \n\t\t\twork out";
    let mut lx = <Lexer as LexerTrait<Token, ()>>::new(input);
    assert_eq!(
        collect_items(&mut lx),
        vec![
            LexRes::Text("This is ".to_string()),
            LexRes::Token(Newline),
            LexRes::Text("a multi line string.".to_string()),
            LexRes::Token(Newline),
            LexRes::Token(Indent),
            LexRes::Text("with some indents,".to_string()),
            LexRes::Token(Newline),
            LexRes::Token(Indent),
            LexRes::Text("using mixed ws,".to_string()),
            LexRes::Token(Newline),
            LexRes::Token(Dedent),
            LexRes::Text("but it should all,".to_string()),
            LexRes::Token(BlankLine),
            LexRes::Token(Indent),
            LexRes::Text("work out".to_string()),
            LexRes::Token(Dedent),
            LexRes::Token(Dedent),
        ]
    );
}

#[test]
fn indent_lexer_handles_crlf_and_trailing_newline() {
    let input = "one\r\ntwo\n";
    let mut lx = <Lexer as LexerTrait<Token, ()>>::new(input);
    assert_eq!(
        collect_items(&mut lx),
        vec![
            LexRes::Text("one".to_string()),
            LexRes::Token(Token::Newline),
            LexRes::Text("two".to_string()),
        ]
    );
}

#[test]
fn indent_lexer_empty_input_ends_at_once() {
    let mut lx = <Lexer as LexerTrait<Token, ()>>::new("");
    assert_eq!(lx.next(), None);
}

#[test]
fn blex_empty_input_emits_only_the_end_marker() {
    let mut blex = BasicLexer::from("");
    assert_eq!(blex.get_token().unwrap(), (BasicTokenKind::End, "".to_string()));
    assert_eq!(blex.get_token(), Err(BasicLexError::PastEnd));
}
