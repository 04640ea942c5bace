use staff_lang::errors::ParseError;
use staff_lang::lexer::Lexer;
use staff_lang::parser::Parser;
use staff_lang::tokens::{Keyword, Location, Separator, Token, TokenType};

fn at(line: usize, col: usize) -> Location {
    Location { line, col }
}

#[test]
fn there_is_no_current_token_before_the_first_is_read() {
    let mut parser = Parser::new(Lexer::new("a b c "));
    assert_eq!(parser.peek(), Err(ParseError::Unknown));
    assert_eq!(parser.prev(), Err(ParseError::Unknown));
    assert_eq!(parser.next(), Ok(Token::Identifier("a", at(1, 1))));
    assert_eq!(parser.peek(), Ok(Token::Identifier("a", at(1, 1))));
}

#[test]
fn next_and_prev_walk_the_stream() {
    let mut parser = Parser::new(Lexer::new("a b c "));
    let a = Token::Identifier("a", at(1, 1));
    let b = Token::Identifier("b", at(1, 3));
    let c = Token::Identifier("c", at(1, 5));
    assert_eq!(parser.next(), Ok(a));
    assert_eq!(parser.next(), Ok(b));
    assert_eq!(parser.next(), Ok(c));
    assert_eq!(parser.prev(), Ok(b));
    assert_eq!(parser.prev(), Ok(a));
    assert_eq!(parser.prev(), Err(ParseError::Unknown));
    assert_eq!(parser.prev(), Err(ParseError::Unknown));
    assert_eq!(parser.next(), Ok(a));
    assert_eq!(parser.next(), Ok(b));
    assert_eq!(parser.peek(), Ok(b));
}

#[test]
fn the_cursor_stops_right_behind_the_end_of_the_stream() {
    let mut parser = Parser::new(Lexer::new("a b "));
    let b = Token::Identifier("b", at(1, 3));
    assert!(parser.next().is_ok());
    assert_eq!(parser.next(), Ok(b));
    assert_eq!(parser.next(), Err(ParseError::Unknown));
    assert_eq!(parser.peek(), Err(ParseError::Unknown));
    assert_eq!(parser.next(), Err(ParseError::Unknown));
    assert_eq!(parser.next(), Err(ParseError::Unknown));
    assert_eq!(parser.prev(), Ok(b));
}

#[test]
fn restore_goes_back_to_the_checkpoint() {
    let mut parser = Parser::new(Lexer::new("a b c d "));
    let b = Token::Identifier("b", at(1, 3));
    let c = Token::Identifier("c", at(1, 5));
    assert!(parser.next().is_ok());
    assert_eq!(parser.next(), Ok(b));
    parser.quicksave();
    assert_eq!(parser.next(), Ok(c));
    assert!(parser.next().is_ok());
    assert_eq!(parser.next(), Err(ParseError::Unknown));
    parser.restore();
    assert_eq!(parser.peek(), Ok(b));
    assert_eq!(parser.next(), Ok(c));
    parser.restore();
    assert_eq!(parser.peek(), Ok(b));
}

#[test]
fn a_checkpoint_and_a_restore_at_once_change_nothing() {
    let mut parser = Parser::new(Lexer::new("a b c "));
    assert!(parser.next().is_ok());
    let before = parser.peek();
    parser.quicksave();
    parser.restore();
    assert_eq!(parser.peek(), before);
    assert_eq!(parser.next(), Ok(Token::Identifier("b", at(1, 3))));
}

#[test]
fn there_is_one_checkpoint_only() {
    let mut parser = Parser::new(Lexer::new("a b c "));
    assert!(parser.next().is_ok());
    parser.quicksave();
    assert!(parser.next().is_ok());
    parser.quicksave();
    assert!(parser.next().is_ok());
    parser.restore();
    assert_eq!(parser.peek(), Ok(Token::Identifier("b", at(1, 3))));
    parser.restore();
    assert_eq!(parser.peek(), Ok(Token::Identifier("b", at(1, 3))));
}

#[test]
fn a_new_parser_restores_to_the_start() {
    let mut parser = Parser::new(Lexer::new("a b "));
    assert!(parser.next().is_ok());
    parser.restore();
    assert_eq!(parser.peek(), Err(ParseError::Unknown));
    assert_eq!(parser.next(), Ok(Token::Identifier("a", at(1, 1))));
}

#[test]
fn a_parser_reads_on_from_where_its_lexer_stands() {
    let mut lexer = Lexer::new("a b c ");
    assert!(lexer.lex().is_some());
    let mut parser = Parser::new(lexer);
    assert_eq!(parser.next(), Ok(Token::Identifier("b", at(1, 3))));
}

#[test]
fn next_of_a_category_reads_one_token() {
    let mut parser = Parser::new(Lexer::new("a \"s\" [2/4] in "));
    assert_eq!(parser.next_identifier(), Ok(Token::Identifier("a", at(1, 1))));
    assert_eq!(parser.next_literal(), Ok(Token::Literal("s", at(1, 4))));
    assert_eq!(parser.next_signature(), Ok(Token::Signature(2, 4, at(1, 10))));
    assert_eq!(parser.next_identifier(), Err(ParseError::ExpectedType(TokenType::Identifier)));
    assert_eq!(parser.peek(), Ok(Token::Keyword(Keyword::In, at(1, 14))));
    assert_eq!(parser.next_literal(), Err(ParseError::ExpectedType(TokenType::Literal)));
    assert_eq!(parser.next_signature(), Err(ParseError::ExpectedType(TokenType::Signature)));
}

#[test]
fn a_rule_that_does_not_apply_leaves_the_checkpoint_alone() {
    let mut parser = Parser::new(Lexer::new("a b ; "));
    parser.quicksave();
    assert_eq!(parser.call(), None);
    parser.restore();
    assert_eq!(parser.peek(), Err(ParseError::Unknown));
    assert!(parser.next().is_ok());
    parser.quicksave();
    assert_eq!(parser.call(), None);
    assert_eq!(parser.peek(), Ok(Token::Separator(Separator::Semicolon, at(1, 4))));
    parser.restore();
    assert_eq!(parser.peek(), Ok(Token::Identifier("a", at(1, 1))));
    assert_eq!(parser.import(), None);
    assert_eq!(parser.staff(), None);
    assert_eq!(parser.pickup(), None);
    assert_eq!(parser.measure(), None);
    assert_eq!(parser.declaration(), None);
}

#[test]
fn an_argument_is_a_literal_an_identifier_or_a_number() {
    let mut parser = Parser::new(Lexer::new("\"s\" x 7 ( "));
    assert_eq!(parser.argument().unwrap().argument, Token::Literal("s", at(1, 2)));
    assert_eq!(parser.argument().unwrap().argument, Token::Identifier("x", at(1, 5)));
    assert_eq!(parser.argument().unwrap().argument, Token::Number(7, at(1, 7)));
    assert_eq!(parser.argument(), Err(ParseError::ExpectedArgument));
    assert_eq!(parser.argument(), Err(ParseError::ExpectedArgument));
}

#[test]
fn a_statement_is_a_measure_or_a_call() {
    let mut parser = Parser::new(Lexer::new("measure { } f(1) } "));
    assert!(matches!(
        parser.staff_statement(),
        Some(Ok(staff_lang::nodes::StaffStatementNode::Measure(_)))
    ));
    assert!(matches!(
        parser.staff_statement(),
        Some(Ok(staff_lang::nodes::StaffStatementNode::Call(_)))
    ));
    assert_eq!(parser.staff_statement(), None);
}

#[test]
fn a_call_with_reads_its_modifiers_and_steps_back() {
    let mut parser = Parser::new(Lexer::new("f(1) with g } "));
    let found = parser.call_with().unwrap().unwrap();
    assert_eq!(found.with.len(), 1);
    assert_eq!(parser.peek(), Ok(Token::Identifier("g", at(1, 11))));
    assert_eq!(parser.call_with(), None);
}

#[test]
fn the_inner_rules_report_without_a_place() {
    let mut parser = Parser::new(Lexer::new("meta { } "));
    assert_eq!(parser.parse_inner(), Err(ParseError::EmptyMeta));
    let mut parser = Parser::new(Lexer::new("meta { } "));
    assert_eq!(parser.meta(), Err(ParseError::EmptyMeta));
    let mut parser = Parser::new(Lexer::new("S is T(x) in [4/4] { } "));
    assert!(parser.staff_inner().is_ok());
}
