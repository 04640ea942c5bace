use staff_lang::lexer::Lexer;
use staff_lang::nodes::ImportDeclarationNode;
use staff_lang::parser::Parser;
use staff_lang::tokens::{decimal_string, Keyword, Location, Note, Separator, Token};

fn here() -> Location {
    Location { line: 1, col: 0 }
}

#[test]
fn a_separator_is_written_as_its_character() {
    let all = [
        (Separator::LParan, "("),
        (Separator::RParan, ")"),
        (Separator::Semicolon, ";"),
        (Separator::LCurly, "{"),
        (Separator::RCurly, "}"),
        (Separator::Comma, ","),
    ];
    for (sep, text) in all {
        assert_eq!(sep.to_string(), text);
        assert_eq!(sep.as_str(), text);
        assert_eq!(Token::Separator(sep, here()).to_string(), text);
        assert_eq!(Separator::from_byte(text.as_bytes()[0]), Some(sep));
    }
    assert_eq!(Separator::from_byte(b'['), None);
    assert_eq!(Separator::from_byte(b' '), None);
}

#[test]
fn a_keyword_is_written_in_lower_case() {
    let all = [
        (Keyword::Import, "import"),
        (Keyword::Meta, "meta"),
        (Keyword::Staff, "staff"),
        (Keyword::Pickup, "pickup"),
        (Keyword::Measure, "measure"),
        (Keyword::From, "from"),
        (Keyword::With, "with"),
        (Keyword::Is, "is"),
        (Keyword::In, "in"),
    ];
    for (word, text) in all {
        assert_eq!(word.as_str(), text);
        assert_eq!(Token::Keyword(word, here()).to_string(), text);
        assert_eq!(format!("{:?}", word).to_lowercase(), text);
        assert_eq!(Keyword::from_bytes(text.as_bytes()), Some(word));
    }
    assert_eq!(Keyword::from_bytes(b"Import"), None);
    assert_eq!(Keyword::from_bytes(b"i"), None);
    assert_eq!(Keyword::from_bytes(b""), None);
    assert_eq!(Keyword::from_bytes(b"metal"), None);
}

#[test]
fn a_separator_or_a_keyword_is_lexed_back_from_what_it_is_written_as() {
    let written = format!(
        "{} {} {} ",
        Token::Keyword(Keyword::Measure, here()).to_string(),
        Token::Separator(Separator::LCurly, here()).to_string(),
        Token::Separator(Separator::Semicolon, here()).to_string()
    );
    let mut lexer = Lexer::new(&written);
    assert!(lexer.lex().unwrap().is_keyword(Keyword::Measure));
    assert!(lexer.lex().unwrap().is_separator(Separator::LCurly));
    assert!(lexer.lex().unwrap().is_separator(Separator::Semicolon));
    assert_eq!(lexer.lex(), None);
}

#[test]
fn the_other_tokens_are_written_as_in_the_source() {
    assert_eq!(Token::Literal("two words", here()).to_string(), "\"two words\"");
    assert_eq!(Token::Literal("", here()).to_string(), "\"\"");
    assert_eq!(Token::Identifier("caf\u{e9}", here()).to_string(), "caf\u{e9}");
    assert_eq!(Token::Signature(4, 4, here()).to_string(), "[4/4]");
    assert_eq!(Token::Signature(12, 0, here()).to_string(), "[12/0]");
    assert_eq!(Token::Number(0, here()).to_string(), "0");
    assert_eq!(Token::Number(4294967295, here()).to_string(), "4294967295");
    assert_eq!(Token::Note(Note::Cs, 4, here()).to_string(), "Cs_4");
    assert_eq!(Token::Note(Note::B, 255, here()).to_string(), "B_255");
    assert_eq!(Token::EOF(here()).to_string(), "EOF");
}

#[test]
fn every_note_is_written_by_its_name() {
    let all = [
        (Note::C, "C"),
        (Note::Cs, "Cs"),
        (Note::Db, "Db"),
        (Note::D, "D"),
        (Note::Ds, "Ds"),
        (Note::Eb, "Eb"),
        (Note::E, "E"),
        (Note::F, "F"),
        (Note::Fs, "Fs"),
        (Note::Gb, "Gb"),
        (Note::G, "G"),
        (Note::Gs, "Gs"),
        (Note::Ab, "Ab"),
        (Note::A, "A"),
        (Note::As, "As"),
        (Note::Bb, "Bb"),
        (Note::B, "B"),
    ];
    for (note, text) in all {
        assert_eq!(note.as_str(), text);
        assert_eq!(format!("{:?}", note), text);
        assert_eq!(Token::Note(note, 0, here()).to_string(), format!("{}_0", text));
    }
}

#[test]
fn numbers_are_written_in_decimal() {
    for n in [0u32, 1, 9, 10, 11, 99, 100, 101, 1000, 65535, 65536, 4294967294, 4294967295] {
        assert_eq!(decimal_string(n), format!("{}", n));
    }
}

#[test]
fn a_number_is_lexed_back_from_what_it_is_written_as() {
    for n in [0u32, 7, 10, 120, 4294967295] {
        let written = format!("{} ", Token::Number(n, here()).to_string());
        let mut lexer = Lexer::new(&written);
        assert!(matches!(lexer.lex(), Some(Token::Number(m, _)) if m == n));
    }
}

#[test]
fn an_import_is_written_with_a_comma_after_every_name() {
    let import = ImportDeclarationNode {
        items: vec![Token::Identifier("a", here()), Token::Identifier("b", here())],
        source: Token::Literal("x", here()),
    };
    assert_eq!(import.items(), "a, b, ");
    assert_eq!(import.to_string(), "import { a, b,  } from \"x\"");
    let one = ImportDeclarationNode {
        items: vec![Token::Identifier("only", here())],
        source: Token::Literal("lib/one", here()),
    };
    assert_eq!(one.items(), "only, ");
    assert_eq!(one.to_string(), "import { only,  } from \"lib/one\"");
    let none = ImportDeclarationNode { items: vec![], source: Token::Literal("", here()) };
    assert_eq!(none.items(), "");
    assert_eq!(none.to_string(), "import {  } from \"\"");
}

#[test]
fn a_parsed_import_is_written_from_its_tokens() {
    let source = "import { first, second } from \"lib\" meta { a(1) }";
    let program = Parser::new(Lexer::new(source)).parse().unwrap();
    assert_eq!(program.imports[0].to_string(), "import { first, second,  } from \"lib\"");
}

#[test]
fn a_token_knows_its_place() {
    let place = Location { line: 3, col: 14 };
    assert_eq!(Token::Separator(Separator::Comma, place).location(), place);
    assert_eq!(Token::Literal("s", place).location(), place);
    assert_eq!(Token::Identifier("s", place).location(), place);
    assert_eq!(Token::Signature(1, 2, place).location(), place);
    assert_eq!(Token::Number(1, place).location(), place);
    assert_eq!(Token::Note(Note::A, 1, place).location(), place);
    assert_eq!(Token::Keyword(Keyword::In, place).location(), place);
    assert_eq!(Token::EOF(place).location(), place);
}
