use staff_lang::errors::ParseError;
use staff_lang::lexer::Lexer;
use staff_lang::nodes::{
    ArgumentNode, BlockNode, CallNode, CallWithNode, DeclarationNode, ImportDeclarationNode,
    MeasureNode, MetaDeclarationNode, PickupNode, ProgramNode, StaffDeclarationNode,
    StaffStatementNode, WithNode,
};
use staff_lang::parser::Parser;
use staff_lang::tokens::{Keyword, Location, Separator, Token, TokenType};

fn parser(source: &str) -> Parser<'_> {
    Parser::new(Lexer::new(source))
}

fn at(line: usize, col: usize) -> Location {
    Location { line, col }
}

fn name(text: &str, col: usize) -> Token<'_> {
    Token::Identifier(text, at(1, col))
}

fn call<'a>(identifier: Token<'a>, arguments: Vec<Token<'a>>) -> CallNode<'a> {
    CallNode {
        identifier,
        arguments: arguments.into_iter().map(|argument| ArgumentNode { argument }).collect(),
    }
}

fn plain(call: CallNode<'_>) -> CallWithNode<'_> {
    CallWithNode { call, with: vec![] }
}

const HEAD: &str = "meta { a(1) } staff S is T(x) in [4/4] ";

fn head_meta() -> MetaDeclarationNode<'static> {
    MetaDeclarationNode { configs: vec![call(name("a", 8), vec![Token::Number(1, at(1, 10))])] }
}

fn head_staff<'a>(
    pickup: Option<PickupNode<'a>>,
    statements: Vec<StaffStatementNode<'a>>,
) -> DeclarationNode<'a> {
    DeclarationNode {
        staff: StaffDeclarationNode {
            identifier: name("S", 21),
            staff_type: call(name("T", 26), vec![name("x", 28)]),
            signature: Token::Signature(4, 4, at(1, 37)),
            pickup,
            statements,
        },
    }
}

#[test]
fn a_staff_with_an_empty_body() {
    let source = format!("{}{}", HEAD, "{ }");
    let program = parser(&source).parse().unwrap();
    let staff = &program.declarations[0].staff;
    assert_eq!(staff.signature, Token::Signature(4, 4, at(1, 37)));
    assert_eq!(staff.pickup, None);
    assert_eq!(staff.statements, vec![]);
    assert_eq!(
        program,
        ProgramNode {
            imports: vec![],
            meta: head_meta(),
            declarations: vec![head_staff(None, vec![])],
        }
    );
}

#[test]
fn the_staff_rule_alone_reads_a_staff_with_an_empty_body() {
    let mut parser = parser("staff S is T(x) in [4/4] { }");
    let staff = parser.staff().unwrap().unwrap();
    assert_eq!(staff.identifier, name("S", 7));
    assert_eq!(staff.staff_type, call(name("T", 12), vec![name("x", 14)]));
    assert_eq!(staff.signature, Token::Signature(4, 4, at(1, 23)));
    assert_eq!(staff.pickup, None);
    assert_eq!(staff.statements, vec![]);
}

#[test]
fn a_call_without_arguments_is_refused() {
    let mut parser = parser("staff S is T() in [4/4] { }");
    assert_eq!(parser.staff(), Some(Err(ParseError::ExpectedArgument)));
    let mut parser = parser_of_calls("a()");
    assert_eq!(parser.call(), Some(Err(ParseError::ExpectedArgument)));
}

fn parser_of_calls(source: &str) -> Parser<'_> {
    parser(source)
}

#[test]
fn a_staff_with_a_pickup_and_a_measure() {
    let source = format!("{}{}", HEAD, "{ pickup { a(1) } measure { b(2) with c(3) } }");
    let program = parser(&source).parse().unwrap();
    let staff = &program.declarations[0].staff;
    assert_eq!(
        staff.pickup.as_ref().unwrap().block.calls,
        vec![plain(call(name("a", 51), vec![Token::Number(1, at(1, 53))]))]
    );
    assert_eq!(
        staff.statements,
        vec![StaffStatementNode::Measure(MeasureNode {
            block: BlockNode {
                calls: vec![CallWithNode {
                    call: call(name("b", 68), vec![Token::Number(2, at(1, 70))]),
                    with: vec![WithNode::Call(call(
                        name("c", 78),
                        vec![Token::Number(3, at(1, 80))]
                    ))],
                }],
            },
        })]
    );
}

#[test]
fn a_staff_without_a_pickup_may_begin_with_a_measure_or_a_call() {
    let source = format!("{}{}", HEAD, "{ measure { b(2) } c(3) }");
    let program = parser(&source).parse().unwrap();
    assert_eq!(
        program.declarations,
        vec![head_staff(
            None,
            vec![
                StaffStatementNode::Measure(MeasureNode {
                    block: BlockNode {
                        calls: vec![plain(call(name("b", 52), vec![Token::Number(2, at(1, 54))]))],
                    },
                }),
                StaffStatementNode::Call(call(name("c", 59), vec![Token::Number(3, at(1, 61))])),
            ]
        )]
    );
    let source = format!("{}{}", HEAD, "{ c(3) }");
    let program = parser(&source).parse().unwrap();
    assert_eq!(
        program.declarations,
        vec![head_staff(
            None,
            vec![StaffStatementNode::Call(call(
                name("c", 42),
                vec![Token::Number(3, at(1, 44))]
            ))]
        )]
    );
}

#[test]
fn modifiers_are_calls_or_bare_names() {
    let source = format!("{}{}", HEAD, "{ measure { x(1) with y with z(2) with w } }");
    let program = parser(&source).parse().unwrap();
    match &program.declarations[0].staff.statements[0] {
        StaffStatementNode::Measure(measure) => {
            assert_eq!(measure.block.calls.len(), 1);
            let item = &measure.block.calls[0];
            assert_eq!(item.call.identifier, name("x", 52));
            assert_eq!(
                item.with,
                vec![
                    WithNode::Identifier(name("y", 62)),
                    WithNode::Call(call(name("z", 69), vec![Token::Number(2, at(1, 71))])),
                    WithNode::Identifier(name("w", 79)),
                ]
            );
        }
        other => panic!("{:?}", other),
    }
}

#[test]
fn a_block_may_hold_several_calls() {
    let mut parser = parser("{ a(1) b(\"s\", c) with d e(2) }");
    let block = parser.block().unwrap();
    assert_eq!(block.calls.len(), 3);
    assert_eq!(block.calls[0].with, vec![]);
    assert_eq!(block.calls[1].call.arguments.len(), 2);
    assert_eq!(block.calls[1].with.len(), 1);
    assert_eq!(block.calls[2].call.identifier, name("e", 25));
    assert!(parser.peek().unwrap().is_separator(Separator::RCurly));
}

#[test]
fn imports_keep_the_order_and_the_spelling_of_the_source() {
    let source = "import { a, b } from \"x\"\nimport { c } from \"y\"\nmeta { tempo(120) }\n";
    let program = parser(source).parse().unwrap();
    assert_eq!(
        program.imports,
        vec![
            ImportDeclarationNode {
                items: vec![name("a", 10), name("b", 13)],
                source: Token::Literal("x", at(1, 23)),
            },
            ImportDeclarationNode {
                items: vec![Token::Identifier("c", at(2, 10))],
                source: Token::Literal("y", at(2, 20)),
            },
        ]
    );
    assert_eq!(
        program.meta,
        MetaDeclarationNode {
            configs: vec![call(
                Token::Identifier("tempo", at(3, 12)),
                vec![Token::Number(120, at(3, 16))]
            )]
        }
    );
    assert_eq!(program.declarations, vec![]);
}

#[test]
fn many_imports_come_out_in_source_order() {
    let mut source = String::new();
    for i in 0..50 {
        source.push_str(&format!("import {{ n{}, m{} }} from \"s{}\"\n", i, i, i));
    }
    source.push_str("meta { a(1) }");
    let program = parser(&source).parse().unwrap();
    assert_eq!(program.imports.len(), 50);
    for (i, import) in program.imports.iter().enumerate() {
        let names: Vec<String> = import.items.iter().map(|item| item.to_string()).collect();
        assert_eq!(names, vec![format!("n{}", i), format!("m{}", i)]);
        assert_eq!(import.source.to_string(), format!("\"s{}\"", i));
    }
}

#[test]
fn an_import_without_names_is_refused() {
    assert_eq!(
        parser("import {} from \"x\"").parse(),
        Err((ParseError::ExpectedType(TokenType::Identifier), at(1, 7)))
    );
}

#[test]
fn an_import_with_a_comma_after_the_last_name_is_refused() {
    assert_eq!(
        parser("import { a, } from \"x\" meta { a(1) }").parse(),
        Err((ParseError::ExpectedType(TokenType::Identifier), at(1, 10)))
    );
}

#[test]
fn an_empty_meta_block_is_refused() {
    assert_eq!(parser("meta { }").parse(), Err((ParseError::EmptyMeta, at(1, 5))));
    assert_eq!(
        parser("import { a } from \"x\" meta { } staff S is T(x) in [4/4] { }").parse(),
        Err((ParseError::EmptyMeta, at(1, 27)))
    );
    assert_eq!(parser("meta { b }").parse(), Err((ParseError::EmptyMeta, at(1, 5))));
    assert_eq!(parser("meta { 1 }").parse(), Err((ParseError::EmptyMeta, at(1, 5))));
}

#[test]
fn a_signature_that_is_no_token_is_reported_before_its_bracket() {
    let source = "meta { a(b) } staff Vln is T(x) in [4/] { }";
    let failure = parser(source).parse().unwrap_err();
    assert_eq!(failure.0, ParseError::ExpectedType(TokenType::Signature));
    // The place is that of `in`, the last token that was read: the byte at
    // which its scan ended, right behind the word.
    let behind_in = source.find(" in ").unwrap() + 3;
    assert_eq!(behind_in, 34);
    assert_eq!(failure.1, at(1, behind_in));
    // The closing bracket stands further on in the line.
    let bracket = source.find(']').unwrap();
    assert_eq!(bracket, 38);
    assert!(failure.1.line == 1 && failure.1.col <= bracket);
}

#[test]
fn a_signature_that_is_no_token_on_a_later_line_is_reported_before_its_bracket() {
    let source = "meta { a(b) }\nstaff Vln is T(x)\n  in\n  [4/] { }";
    let failure = parser(source).parse().unwrap_err();
    assert_eq!(failure.0, ParseError::ExpectedType(TokenType::Signature));
    // `in` stands on the third line at columns 2 and 3; its scan ended on
    // the line feed behind it.
    assert_eq!(failure.1, at(3, 4));
    // The closing bracket stands on the fourth line, at column 5.
    let last_line = source.lines().nth(3).unwrap();
    assert_eq!(last_line.find(']'), Some(5));
    assert!(failure.1.line < 4);
}

#[test]
fn the_lone_signature_without_its_second_number_is_reported_at_the_start() {
    let source = "[4/]";
    let failure = parser(source).parse().unwrap_err();
    assert_eq!(failure, (ParseError::ExpectedKeyword(Keyword::Meta), at(1, 0)));
    assert!(failure.1.col <= source.find(']').unwrap());
}

#[test]
fn a_program_must_begin_with_an_import_or_the_meta_block() {
    assert_eq!(
        parser("staff S is T(x) in [4/4] { }").parse(),
        Err((ParseError::ExpectedKeyword(Keyword::Meta), at(1, 0)))
    );
    assert_eq!(parser("").parse(), Err((ParseError::ExpectedKeyword(Keyword::Meta), at(1, 0))));
    assert_eq!(
        parser("[4/]").parse(),
        Err((ParseError::ExpectedKeyword(Keyword::Meta), at(1, 0)))
    );
    assert_eq!(
        parser("import { a } from \"x\" staff ").parse(),
        Err((ParseError::ExpectedKeyword(Keyword::Meta), at(1, 20)))
    );
}

#[test]
fn each_missing_token_of_an_import_has_its_error() {
    assert_eq!(
        parser("import a").parse(),
        Err((ParseError::ExpectedSeparator(Separator::LCurly), at(1, 6)))
    );
    assert_eq!(
        parser("import { a b } from \"x\"").parse(),
        Err((ParseError::ExpectedSeparator(Separator::Comma), at(1, 10)))
    );
    assert_eq!(
        parser("import { a } \"x\"").parse(),
        Err((ParseError::ExpectedKeyword(Keyword::From), at(1, 11)))
    );
    assert_eq!(
        parser("import { a } from x ").parse(),
        Err((ParseError::ExpectedType(TokenType::Literal), at(1, 17)))
    );
}

#[test]
fn each_missing_token_of_the_meta_block_has_its_error() {
    assert_eq!(
        parser("meta a(1) }").parse(),
        Err((ParseError::ExpectedSeparator(Separator::LCurly), at(1, 4)))
    );
    assert_eq!(
        parser("meta { a(1) b }").parse(),
        Err((ParseError::ExpectedSeparator(Separator::RCurly), at(1, 10)))
    );
    assert_eq!(
        parser("meta { a(1) ").parse(),
        Err((ParseError::ExpectedSeparator(Separator::RCurly), at(1, 10)))
    );
}

#[test]
fn each_missing_token_of_a_call_has_its_error() {
    assert_eq!(
        parser("meta { a(1 2) }").parse(),
        Err((ParseError::ExpectedSeparator(Separator::Comma), at(1, 10)))
    );
    assert_eq!(parser("meta { a(, 2) }").parse(), Err((ParseError::ExpectedArgument, at(1, 8))));
    assert_eq!(parser("meta { a(1, ) }").parse(), Err((ParseError::ExpectedArgument, at(1, 10))));
    assert_eq!(parser("meta { a(in) }").parse(), Err((ParseError::ExpectedArgument, at(1, 8))));
    assert_eq!(
        parser("meta { a([4/4]) }").parse(),
        Err((ParseError::ExpectedArgument, at(1, 8)))
    );
}

#[test]
fn each_missing_token_of_a_staff_has_its_error() {
    let meta = "meta { a(1) } ";
    let cases = [
        ("staff is", ParseError::ExpectedType(TokenType::Identifier), at(1, 19)),
        ("staff S in", ParseError::ExpectedKeyword(Keyword::Is), at(1, 21)),
        ("staff S is in", ParseError::ExpectedType(TokenType::Identifier), at(1, 24)),
        ("staff S is T in", ParseError::ExpectedType(TokenType::Identifier), at(1, 26)),
        ("staff S is T(x) [4/4]", ParseError::ExpectedKeyword(Keyword::In), at(1, 28)),
        ("staff S is T(x) in { }", ParseError::ExpectedType(TokenType::Signature), at(1, 32)),
        ("staff S is T(x) in [4/4] }", ParseError::ExpectedSeparator(Separator::LCurly), at(1, 37)),
        ("staff S is T(x) in [4/4] { ", ParseError::ExpectedSeparator(Separator::RCurly), at(1, 39)),
        (
            "staff S is T(x) in [4/4] { pickup }",
            ParseError::ExpectedSeparator(Separator::LCurly),
            at(1, 47),
        ),
        (
            "staff S is T(x) in [4/4] { measure { a(1) ",
            ParseError::ExpectedSeparator(Separator::RCurly),
            at(1, 54),
        ),
        (
            "staff S is T(x) in [4/4] { a(1) with b }",
            ParseError::ExpectedSeparator(Separator::RCurly),
            at(1, 44),
        ),
        (
            "staff S is T(x) in [4/4] { measure { a(1) with } }",
            ParseError::ExpectedType(TokenType::Identifier),
            at(1, 60),
        ),
    ];
    for (rest, error, place) in cases {
        let source = format!("{}{}", meta, rest);
        assert_eq!(parser(&source).parse(), Err((error, place)), "{}", source);
    }
}

#[test]
fn a_failed_call_inside_a_block_is_reported_as_such() {
    let source = format!("{}{}", HEAD, "{ measure { a(1 } }");
    assert_eq!(
        parser(&source).parse(),
        Err((ParseError::ExpectedSeparator(Separator::Comma), at(1, 54)))
    );
}

#[test]
fn what_follows_the_last_declaration_is_not_read() {
    let source = format!("{}{}", HEAD, "{ } \"left over\" [");
    let program = parser(&source).parse().unwrap();
    assert_eq!(program.declarations.len(), 1);
    let program = parser("meta { a(1) } is in").parse().unwrap();
    assert_eq!(program.declarations.len(), 0);
}

#[test]
fn several_staffs_are_read_in_order() {
    let source = "meta { a(1) }\nstaff A is T(1) in [3/4] { }\nstaff B is U(2) in [6/8] { }\n";
    let program = parser(source).parse().unwrap();
    assert_eq!(program.declarations.len(), 2);
    assert_eq!(program.declarations[0].staff.identifier.to_string(), "A");
    assert_eq!(program.declarations[0].staff.signature.to_string(), "[3/4]");
    assert_eq!(program.declarations[1].staff.identifier.to_string(), "B");
    assert_eq!(program.declarations[1].staff.signature.to_string(), "[6/8]");
}

#[test]
fn the_parser_ends_on_the_last_token_of_the_program() {
    let mut parser = parser("meta { a(1) } ");
    parser.parse().unwrap();
    assert_eq!(parser.peek(), Ok(Token::Separator(Separator::RCurly, at(1, 12))));
    assert_eq!(parser.next(), Err(ParseError::Unknown));
}

#[test]
fn a_parse_is_the_same_after_a_checkpoint_and_a_restore() {
    let source = format!("{}{}", HEAD, "{ pickup { a(1) } measure { b(2) with c(3) } }");
    let plain = parser(&source).parse();
    let mut parser = parser(&source);
    parser.quicksave();
    parser.restore();
    assert_eq!(parser.parse(), plain);
    let failing = "meta { a(1) } staff S is T(x) in { }";
    let plain = Parser::new(Lexer::new(failing)).parse();
    let mut parser = Parser::new(Lexer::new(failing));
    parser.quicksave();
    parser.restore();
    assert_eq!(parser.parse(), plain);
}
