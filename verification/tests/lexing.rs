use staff_lang::lexer::Lexer;
use staff_lang::tokens::{Keyword, Location, Separator, Token};

fn all_tokens(source: &str) -> Vec<Token<'_>> {
    let mut lexer = Lexer::new(source);
    let mut tokens = Vec::new();
    while let Some(token) = lexer.lex() {
        tokens.push(token);
    }
    tokens
}

fn at(line: usize, col: usize) -> Location {
    Location { line, col }
}

#[test]
fn lexes_a_meta_block_with_places() {
    assert_eq!(
        all_tokens("meta {\n a(1) }"),
        vec![
            Token::Keyword(Keyword::Meta, at(1, 4)),
            Token::Separator(Separator::LCurly, at(1, 5)),
            Token::Identifier("a", at(2, 2)),
            Token::Separator(Separator::LParan, at(2, 2)),
            Token::Number(1, at(2, 4)),
            Token::Separator(Separator::RParan, at(2, 4)),
            Token::Separator(Separator::RCurly, at(2, 6)),
        ]
    );
}

#[test]
fn lexes_every_keyword() {
    assert_eq!(
        all_tokens("import meta staff pickup measure from with is in "),
        vec![
            Token::Keyword(Keyword::Import, at(1, 6)),
            Token::Keyword(Keyword::Meta, at(1, 11)),
            Token::Keyword(Keyword::Staff, at(1, 17)),
            Token::Keyword(Keyword::Pickup, at(1, 24)),
            Token::Keyword(Keyword::Measure, at(1, 32)),
            Token::Keyword(Keyword::From, at(1, 37)),
            Token::Keyword(Keyword::With, at(1, 42)),
            Token::Keyword(Keyword::Is, at(1, 45)),
            Token::Keyword(Keyword::In, at(1, 48)),
        ]
    );
}

#[test]
fn lexes_every_separator() {
    assert_eq!(
        all_tokens("(){};,"),
        vec![
            Token::Separator(Separator::LParan, at(1, 0)),
            Token::Separator(Separator::RParan, at(1, 1)),
            Token::Separator(Separator::LCurly, at(1, 2)),
            Token::Separator(Separator::RCurly, at(1, 3)),
            Token::Separator(Separator::Semicolon, at(1, 4)),
            Token::Separator(Separator::Comma, at(1, 5)),
        ]
    );
}

#[test]
fn a_word_that_only_starts_like_a_keyword_is_an_identifier() {
    assert_eq!(
        all_tokens("imports Meta staff_ i "),
        vec![
            Token::Identifier("imports", at(1, 7)),
            Token::Identifier("Meta", at(1, 12)),
            Token::Identifier("staff_", at(1, 19)),
            Token::Identifier("i", at(1, 21)),
        ]
    );
}

#[test]
fn a_word_ends_at_a_separator_and_keeps_other_marks() {
    assert_eq!(
        all_tokens("a[b]/c\"d("),
        vec![
            Token::Identifier("a[b]/c\"d", at(1, 8)),
            Token::Separator(Separator::LParan, at(1, 8)),
        ]
    );
}

#[test]
fn a_word_may_hold_characters_of_several_bytes() {
    assert_eq!(
        all_tokens("é caf\u{e9} \u{4e16}\u{754c};"),
        vec![
            Token::Identifier("é", at(1, 2)),
            Token::Identifier("caf\u{e9}", at(1, 8)),
            Token::Identifier("\u{4e16}\u{754c}", at(1, 15)),
            Token::Separator(Separator::Semicolon, at(1, 15)),
        ]
    );
}

#[test]
fn lexes_a_literal_without_escapes() {
    assert_eq!(
        all_tokens("meta { a(\"two words\", 7, x) }"),
        vec![
            Token::Keyword(Keyword::Meta, at(1, 4)),
            Token::Separator(Separator::LCurly, at(1, 5)),
            Token::Identifier("a", at(1, 8)),
            Token::Separator(Separator::LParan, at(1, 8)),
            Token::Literal("two words", at(1, 19)),
            Token::Separator(Separator::Comma, at(1, 20)),
            Token::Number(7, at(1, 23)),
            Token::Separator(Separator::Comma, at(1, 23)),
            Token::Identifier("x", at(1, 26)),
            Token::Separator(Separator::RParan, at(1, 26)),
            Token::Separator(Separator::RCurly, at(1, 28)),
        ]
    );
}

#[test]
fn a_literal_may_be_empty_and_may_span_lines() {
    assert_eq!(
        all_tokens("\"\" \"a\\\nb\" x "),
        vec![
            Token::Literal("", at(1, 1)),
            Token::Literal("a\\\nb", at(1, 8)),
            Token::Identifier("x", at(1, 11)),
        ]
    );
}

#[test]
fn an_unterminated_literal_is_no_token() {
    let mut lexer = Lexer::new("a \"never closed");
    assert_eq!(lexer.lex(), Some(Token::Identifier("a", at(1, 1))));
    assert_eq!(lexer.lex(), None);
    assert_eq!(lexer.lex(), None);
}

#[test]
fn lexes_numbers_up_to_32_bits() {
    assert_eq!(
        all_tokens("0 007 4294967295 "),
        vec![
            Token::Number(0, at(1, 1)),
            Token::Number(7, at(1, 5)),
            Token::Number(4294967295, at(1, 16)),
        ]
    );
}

#[test]
fn a_number_that_does_not_fit_is_no_token() {
    let mut lexer = Lexer::new("1 4294967296 2 ");
    assert_eq!(lexer.lex(), Some(Token::Number(1, at(1, 1))));
    assert_eq!(lexer.lex(), None);
    assert_eq!(lexer.lex(), None);
}

#[test]
fn a_number_with_very_many_digits_is_no_token() {
    assert_eq!(all_tokens("99999999999999999999999999999999999999999999 "), vec![]);
}

#[test]
fn a_number_ends_before_the_first_byte_that_is_no_digit() {
    assert_eq!(
        all_tokens("12ab 3) "),
        vec![
            Token::Number(12, at(1, 2)),
            Token::Identifier("ab", at(1, 4)),
            Token::Number(3, at(1, 6)),
            Token::Separator(Separator::RParan, at(1, 6)),
        ]
    );
}

#[test]
fn a_number_or_a_word_at_the_very_end_is_no_token() {
    assert_eq!(all_tokens("42"), vec![]);
    assert_eq!(all_tokens("word"), vec![]);
    assert_eq!(all_tokens("a 42"), vec![Token::Identifier("a", at(1, 1))]);
    assert_eq!(all_tokens("a b"), vec![Token::Identifier("a", at(1, 1))]);
}

#[test]
fn lexes_a_signature() {
    assert_eq!(all_tokens("[4/4]"), vec![Token::Signature(4, 4, at(1, 4))]);
    assert_eq!(all_tokens("[ 12 / 8 ]"), vec![Token::Signature(12, 8, at(1, 9))]);
    assert_eq!(all_tokens("[3\n/\n4\n]"), vec![Token::Signature(3, 4, at(4, 0))]);
}

#[test]
fn a_signature_in_a_staff_header() {
    assert_eq!(
        all_tokens("staff S is T(1) in [ 12 / 8 ] { }"),
        vec![
            Token::Keyword(Keyword::Staff, at(1, 5)),
            Token::Identifier("S", at(1, 7)),
            Token::Keyword(Keyword::Is, at(1, 10)),
            Token::Identifier("T", at(1, 12)),
            Token::Separator(Separator::LParan, at(1, 12)),
            Token::Number(1, at(1, 14)),
            Token::Separator(Separator::RParan, at(1, 14)),
            Token::Keyword(Keyword::In, at(1, 18)),
            Token::Signature(12, 8, at(1, 28)),
            Token::Separator(Separator::LCurly, at(1, 30)),
            Token::Separator(Separator::RCurly, at(1, 32)),
        ]
    );
}

#[test]
fn a_signature_without_its_second_number_is_no_token() {
    let mut lexer = Lexer::new("[4/]");
    assert_eq!(lexer.lex(), None);
    assert_eq!(lexer.lex(), None);
}

#[test]
fn a_signature_of_any_other_shape_is_no_token() {
    for source in [
        "[", "[4", "[4/", "[4/4", "[/4]", "[4 4]", "[4/4)", "[a/4]", "[4/b]", "[+4/4]", "[4/+4]",
        "[-4/4]", "[4//4]", "[]", "[4/4294967296]", "[4294967296/4]", "[4.0/4]",
    ] {
        assert_eq!(all_tokens(source), vec![], "{}", source);
    }
}

#[test]
fn nothing_is_lexed_after_a_failure() {
    let mut lexer = Lexer::new("a [4/] b c ");
    assert_eq!(lexer.lex(), Some(Token::Identifier("a", at(1, 1))));
    assert_eq!(lexer.lex(), None);
    assert_eq!(lexer.lex(), None);
    assert_eq!(lexer.lex(), None);
}

#[test]
fn an_empty_or_blank_text_has_no_token() {
    assert_eq!(all_tokens(""), vec![]);
    assert_eq!(all_tokens(" \t\r\n \n"), vec![]);
}

#[test]
fn blanks_before_the_first_token_are_skipped() {
    assert_eq!(
        all_tokens("  meta\n\n  { "),
        vec![
            Token::Keyword(Keyword::Meta, at(1, 6)),
            Token::Separator(Separator::LCurly, at(3, 2)),
        ]
    );
    assert_eq!(all_tokens("\nx "), vec![Token::Identifier("x", at(2, 1))]);
}

#[test]
fn a_token_of_one_byte_at_the_start_is_lexed_once() {
    assert_eq!(
        all_tokens("(a)"),
        vec![
            Token::Separator(Separator::LParan, at(1, 0)),
            Token::Identifier("a", at(1, 2)),
            Token::Separator(Separator::RParan, at(1, 2)),
        ]
    );
    assert_eq!(
        all_tokens("x y "),
        vec![Token::Identifier("x", at(1, 1)), Token::Identifier("y", at(1, 3))]
    );
}

#[test]
fn carriage_return_is_a_blank_and_starts_no_line() {
    assert_eq!(
        all_tokens("a\r\nb\rc "),
        vec![
            Token::Identifier("a", at(1, 1)),
            Token::Identifier("b", at(2, 1)),
            Token::Identifier("c", at(2, 3)),
        ]
    );
}

#[test]
fn lexes_a_whole_program() {
    let source = "import { a, b } from \"x\"\nmeta { tempo(120) }\nstaff S is T(x) in [4/4] { pickup { a(1) } measure { b(2) with c(3) with d } }\n";
    assert_eq!(
        all_tokens(source),
        vec![
            Token::Keyword(Keyword::Import, at(1, 6)),
            Token::Separator(Separator::LCurly, at(1, 7)),
            Token::Identifier("a", at(1, 10)),
            Token::Separator(Separator::Comma, at(1, 10)),
            Token::Identifier("b", at(1, 13)),
            Token::Separator(Separator::RCurly, at(1, 14)),
            Token::Keyword(Keyword::From, at(1, 20)),
            Token::Literal("x", at(1, 23)),
            Token::Keyword(Keyword::Meta, at(2, 4)),
            Token::Separator(Separator::LCurly, at(2, 5)),
            Token::Identifier("tempo", at(2, 12)),
            Token::Separator(Separator::LParan, at(2, 12)),
            Token::Number(120, at(2, 16)),
            Token::Separator(Separator::RParan, at(2, 16)),
            Token::Separator(Separator::RCurly, at(2, 18)),
            Token::Keyword(Keyword::Staff, at(3, 5)),
            Token::Identifier("S", at(3, 7)),
            Token::Keyword(Keyword::Is, at(3, 10)),
            Token::Identifier("T", at(3, 12)),
            Token::Separator(Separator::LParan, at(3, 12)),
            Token::Identifier("x", at(3, 14)),
            Token::Separator(Separator::RParan, at(3, 14)),
            Token::Keyword(Keyword::In, at(3, 18)),
            Token::Signature(4, 4, at(3, 23)),
            Token::Separator(Separator::LCurly, at(3, 25)),
            Token::Keyword(Keyword::Pickup, at(3, 33)),
            Token::Separator(Separator::LCurly, at(3, 34)),
            Token::Identifier("a", at(3, 37)),
            Token::Separator(Separator::LParan, at(3, 37)),
            Token::Number(1, at(3, 39)),
            Token::Separator(Separator::RParan, at(3, 39)),
            Token::Separator(Separator::RCurly, at(3, 41)),
            Token::Keyword(Keyword::Measure, at(3, 50)),
            Token::Separator(Separator::LCurly, at(3, 51)),
            Token::Identifier("b", at(3, 54)),
            Token::Separator(Separator::LParan, at(3, 54)),
            Token::Number(2, at(3, 56)),
            Token::Separator(Separator::RParan, at(3, 56)),
            Token::Keyword(Keyword::With, at(3, 62)),
            Token::Identifier("c", at(3, 64)),
            Token::Separator(Separator::LParan, at(3, 64)),
            Token::Number(3, at(3, 66)),
            Token::Separator(Separator::RParan, at(3, 66)),
            Token::Keyword(Keyword::With, at(3, 72)),
            Token::Identifier("d", at(3, 74)),
            Token::Separator(Separator::RCurly, at(3, 75)),
            Token::Separator(Separator::RCurly, at(3, 77)),
        ]
    );
}

#[test]
fn the_text_of_a_token_is_a_slice_of_the_source() {
    let source = String::from("meta { name(\"lit\") }");
    let tokens = all_tokens(&source);
    let range = source.as_bytes().as_ptr_range();
    let mut seen = 0;
    for token in tokens {
        if let Token::Identifier(text, _) | Token::Literal(text, _) = token {
            assert!(range.contains(&text.as_ptr()));
            seen += 1;
        }
    }
    assert_eq!(seen, 2);
}

#[test]
fn a_column_is_the_distance_from_the_start_of_the_line() {
    let source = "alpha (beta)\n  gamma \"delta\" 12;\n[3/4] omega\n";
    let lines: Vec<&str> = source.lines().collect();
    let column = |line: usize, text: &str| lines[line - 1].find(text).unwrap();
    assert_eq!(
        all_tokens(source),
        vec![
            // A word and a number are placed at the byte that ends them.
            Token::Identifier("alpha", at(1, column(1, "alpha") + 5)),
            // A separator is placed at its own byte.
            Token::Separator(Separator::LParan, at(1, column(1, "("))),
            Token::Identifier("beta", at(1, column(1, "beta") + 4)),
            Token::Separator(Separator::RParan, at(1, column(1, ")"))),
            Token::Identifier("gamma", at(2, column(2, "gamma") + 5)),
            // A literal is placed at its closing quote.
            Token::Literal("delta", at(2, column(2, "\"delta\"") + 6)),
            Token::Number(12, at(2, column(2, "12") + 2)),
            Token::Separator(Separator::Semicolon, at(2, column(2, ";"))),
            // A signature is placed at its closing bracket.
            Token::Signature(3, 4, at(3, column(3, "]"))),
            Token::Identifier("omega", at(3, column(3, "omega") + 5)),
        ]
    );
    assert_eq!(column(1, "("), 6);
    assert_eq!(column(2, "gamma"), 2);
    assert_eq!(column(3, "]"), 4);
}

#[test]
fn the_first_byte_of_every_line_has_column_zero() {
    assert_eq!(
        all_tokens("(\n(\n\n("),
        vec![
            Token::Separator(Separator::LParan, at(1, 0)),
            Token::Separator(Separator::LParan, at(2, 0)),
            Token::Separator(Separator::LParan, at(4, 0)),
        ]
    );
}

#[test]
fn words_on_a_line_do_not_push_the_columns_on() {
    // Ten words of one letter: the last one ends at byte 19 and is placed
    // there, however many words stand before it.
    let source = "a b c d e f g h i j ";
    let tokens = all_tokens(source);
    assert_eq!(tokens.len(), 10);
    for (i, token) in tokens.iter().enumerate() {
        assert_eq!(token.location(), at(1, 2 * i + 1));
    }
}
