//! Places of tokens in texts that mix every kind of token and blank.

use staff_lang::lexer::Lexer;
use staff_lang::tokens::{Keyword, Location, Separator, Token};

fn at(line: usize, col: usize) -> Location {
    Location { line, col }
}

fn all_tokens(source: &str) -> Vec<Token<'_>> {
    let mut lexer = Lexer::new(source);
    let mut tokens = Vec::new();
    while let Some(token) = lexer.lex() {
        tokens.push(token);
    }
    tokens
}

#[test]
fn places_a_signature_first() {
    assert_eq!(
        all_tokens("[1  / \t2 \t] staff\td/e q] ,\"a{b}\"\nd/e \n 1;"),
        vec![
            Token::Signature(1, 2, at(1, 10)),
            Token::Keyword(Keyword::Staff, at(1, 17)),
            Token::Identifier("d/e", at(1, 21)),
            Token::Identifier("q]", at(1, 24)),
            Token::Separator(Separator::Comma, at(1, 25)),
            Token::Literal("a{b}", at(1, 31)),
            Token::Identifier("d/e", at(2, 3)),
            Token::Number(1, at(3, 2)),
            Token::Separator(Separator::Semicolon, at(3, 2)),
        ]
    );
}

#[test]
fn places_literals_and_blank_lines() {
    assert_eq!(
        all_tokens("q] \"two words\" \n \"\"\n\nin2\tq]\n\n12 is\t\"l1\\nl2\" \n ,  (\t)"),
        vec![
            Token::Identifier("q]", at(1, 2)),
            Token::Literal("two words", at(1, 13)),
            Token::Literal("", at(2, 2)),
            Token::Identifier("in2", at(4, 3)),
            Token::Identifier("q]", at(4, 6)),
            Token::Number(12, at(6, 2)),
            Token::Keyword(Keyword::Is, at(6, 5)),
            Token::Literal("l1\\nl2", at(6, 13)),
            Token::Separator(Separator::Comma, at(7, 1)),
            Token::Separator(Separator::LParan, at(7, 4)),
            Token::Separator(Separator::RParan, at(7, 6)),
        ]
    );
}

#[test]
fn places_tabs_and_line_ends() {
    assert_eq!(
        all_tokens("d/e\n\"two words\"\t[ \t12 \t/\n2]\r\n[1  / \t16  ]T \"a{b}\"a\n\ntempo\t7  120;\t4096)"),
        vec![
            Token::Identifier("d/e", at(1, 3)),
            Token::Literal("two words", at(2, 10)),
            Token::Signature(12, 2, at(3, 1)),
            Token::Signature(1, 16, at(4, 11)),
            Token::Identifier("T", at(4, 13)),
            Token::Literal("a{b}", at(4, 19)),
            Token::Identifier("a", at(4, 21)),
            Token::Identifier("tempo", at(6, 5)),
            Token::Number(7, at(6, 7)),
            Token::Number(120, at(6, 12)),
            Token::Separator(Separator::Semicolon, at(6, 12)),
            Token::Number(4096, at(6, 18)),
            Token::Separator(Separator::RParan, at(6, 18)),
        ]
    );
}

#[test]
fn places_long_mixed_text() {
    assert_eq!(
        all_tokens("\"\"\n\n{  in \n 12\n\"l1\\nl2\"\n\n\"l1\\nl2\"\r\n)\n)\t[4\n/  4 \t]\n,pickup\twith\n\n\"l1\\nl2\"Meta "),
        vec![
            Token::Literal("", at(1, 1)),
            Token::Separator(Separator::LCurly, at(3, 0)),
            Token::Keyword(Keyword::In, at(3, 5)),
            Token::Number(12, at(4, 3)),
            Token::Literal("l1\\nl2", at(5, 7)),
            Token::Literal("l1\\nl2", at(7, 7)),
            Token::Separator(Separator::RParan, at(8, 0)),
            Token::Separator(Separator::RParan, at(9, 0)),
            Token::Signature(4, 4, at(10, 6)),
            Token::Separator(Separator::Comma, at(11, 0)),
            Token::Keyword(Keyword::Pickup, at(11, 7)),
            Token::Keyword(Keyword::With, at(11, 12)),
            Token::Literal("l1\\nl2", at(13, 7)),
            Token::Identifier("Meta", at(13, 12)),
        ]
    );
}

#[test]
fn places_words_with_marks() {
    assert_eq!(
        all_tokens("007\tMeta\n[ \t12 \t/  4 ]Meta ( in\n\ntempo \n \"two words\"a\tin\nx1;"),
        vec![
            Token::Number(7, at(1, 3)),
            Token::Identifier("Meta", at(1, 8)),
            Token::Signature(12, 4, at(2, 12)),
            Token::Identifier("Meta", at(2, 17)),
            Token::Separator(Separator::LParan, at(2, 18)),
            Token::Keyword(Keyword::In, at(2, 22)),
            Token::Identifier("tempo", at(4, 5)),
            Token::Literal("two words", at(5, 11)),
            Token::Identifier("a", at(5, 13)),
            Token::Keyword(Keyword::In, at(5, 16)),
            Token::Identifier("x1", at(6, 2)),
            Token::Separator(Separator::Semicolon, at(6, 2)),
        ]
    );
}

#[test]
fn places_numbers_between_marks() {
    assert_eq!(
        all_tokens("measure\n4294967295 b\n\nb\r\n12\na\t4294967295;\n{"),
        vec![
            Token::Keyword(Keyword::Measure, at(1, 7)),
            Token::Number(4294967295, at(2, 10)),
            Token::Identifier("b", at(2, 12)),
            Token::Identifier("b", at(4, 1)),
            Token::Number(12, at(5, 2)),
            Token::Identifier("a", at(6, 1)),
            Token::Number(4294967295, at(6, 12)),
            Token::Separator(Separator::Semicolon, at(6, 12)),
            Token::Separator(Separator::LCurly, at(7, 0)),
        ]
    );
}

#[test]
fn places_nested_looking_text() {
    assert_eq!(
        all_tokens("\"a{b}\"meta q]  \"two words\"\r\n\"l1\\nl2\"(\"l1\\nl2\"zz\n\"a{b}\"  , 12 ,\r\nnote_c  120 }"),
        vec![
            Token::Literal("a{b}", at(1, 5)),
            Token::Keyword(Keyword::Meta, at(1, 10)),
            Token::Identifier("q]", at(1, 13)),
            Token::Literal("two words", at(1, 25)),
            Token::Literal("l1\\nl2", at(2, 7)),
            Token::Separator(Separator::LParan, at(2, 8)),
            Token::Literal("l1\\nl2", at(2, 16)),
            Token::Identifier("zz", at(2, 19)),
            Token::Literal("a{b}", at(3, 5)),
            Token::Separator(Separator::Comma, at(3, 8)),
            Token::Number(12, at(3, 12)),
            Token::Separator(Separator::Comma, at(3, 13)),
            Token::Identifier("note_c", at(4, 6)),
            Token::Number(120, at(4, 11)),
            Token::Separator(Separator::RCurly, at(4, 12)),
        ]
    );
}

#[test]
fn places_many_lines() {
    assert_eq!(
        all_tokens("tempo  with\n\nmeta,,\r\npickup\nb\n0 a \n [  4 \t/ \t16  ] [\n1\n/ \t2  ]\n\n\"x\"a "),
        vec![
            Token::Identifier("tempo", at(1, 5)),
            Token::Keyword(Keyword::With, at(1, 11)),
            Token::Keyword(Keyword::Meta, at(3, 4)),
            Token::Separator(Separator::Comma, at(3, 4)),
            Token::Separator(Separator::Comma, at(3, 5)),
            Token::Keyword(Keyword::Pickup, at(4, 6)),
            Token::Identifier("b", at(5, 1)),
            Token::Number(0, at(6, 1)),
            Token::Identifier("a", at(6, 3)),
            Token::Signature(4, 16, at(7, 14)),
            Token::Signature(1, 2, at(9, 6)),
            Token::Literal("x", at(11, 2)),
            Token::Identifier("a", at(11, 4)),
        ]
    );
}
