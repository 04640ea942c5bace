//! The grammar of the language, stated on token streams, and what the parser
//! has to do with it.
//!
//! ```text
//! Program        := Import* Meta Declaration*
//! Import         := "import" "{" Identifier ("," Identifier)* "}" "from" Literal
//! Meta           := "meta" "{" Call+ "}"
//! Declaration    := Staff
//! Staff          := "staff" Identifier "is" Call "in" Signature
//!                   "{" Pickup? StaffStatement* "}"
//! Pickup         := "pickup" Block
//! StaffStatement := Measure | Call
//! Measure        := "measure" Block
//! Block          := "{" CallWith* "}"
//! CallWith       := Call ("with" (Call | Identifier))*
//! Call           := Identifier "(" Argument ("," Argument)* ")"
//! Argument       := Literal | Identifier | Note | Number
//! ```
//!
//! For each rule there is a predicate that says when the tokens from an index
//! on are written by a given tree, and a function that counts the tokens the
//! tree is written with. Keywords and punctuation are not kept in a tree, so
//! the predicates ask for their kind only; names, literals, numbers and
//! signatures are kept, place and all.

use crate::errors::ParseError;
use crate::nodes::{
    block_well_formed, CallView, CallWithView, ImportView, ProgramView, StaffView, StatementView,
    WithView,
};
use crate::rules;
use crate::rules::Cursor;
use crate::tokens::{Keyword, Separator, TokenType, TokenView};
use vstd::prelude::*;

verus! {

/// Whether the token at index `i` is the given separator.
pub open spec fn separator_at(tokens: Seq<TokenView>, i: nat, sep: Separator) -> bool {
    i < tokens.len() && tokens[i as int].is_separator(sep)
}

/// Whether the token at index `i` is the given reserved word.
pub open spec fn keyword_at(tokens: Seq<TokenView>, i: nat, word: Keyword) -> bool {
    i < tokens.len() && tokens[i as int].is_keyword(word)
}

/// Whether the token at index `i` is `token` and of the given category.
pub open spec fn token_at(
    tokens: Seq<TokenView>,
    i: nat,
    token: TokenView,
    kind: TokenType,
) -> bool {
    i < tokens.len() && tokens[i as int] == token && token.kind() == kind
}

/// The number of tokens that a list of arguments or of names is written
/// with, the separator after each of them counted in.
pub open spec fn listed_len(items: Seq<TokenView>) -> nat {
    2 * items.len()
}

/// Argument ("," Argument)* ")"
pub open spec fn arguments_at(tokens: Seq<TokenView>, i: nat, arguments: Seq<TokenView>) -> bool
    decreases arguments.len(),
{
    &&& arguments.len() >= 1
    &&& i < tokens.len()
    &&& tokens[i as int] == arguments[0]
    &&& arguments[0].is_argument()
    &&& if arguments.len() == 1 {
        separator_at(tokens, i + 1, Separator::RParan)
    } else {
        &&& separator_at(tokens, i + 1, Separator::Comma)
        &&& arguments_at(tokens, i + 2, arguments.drop_first())
    }
}

/// The number of tokens that a call is written with.
pub open spec fn call_len(call: CallView) -> nat {
    2 + listed_len(call.arguments)
}

/// Call := Identifier "(" Argument ("," Argument)* ")"
pub open spec fn call_at(tokens: Seq<TokenView>, i: nat, call: CallView) -> bool {
    &&& token_at(tokens, i, call.identifier, TokenType::Identifier)
    &&& separator_at(tokens, i + 1, Separator::LParan)
    &&& arguments_at(tokens, i + 2, call.arguments)
}

/// The number of tokens that one modifier is written with, its `with`
/// counted in.
pub open spec fn with_len(with: WithView) -> nat {
    match with {
        WithView::Identifier(_) => 2,
        WithView::Call(call) => 1 + call_len(call),
    }
}

/// "with" (Call | Identifier)
pub open spec fn with_at(tokens: Seq<TokenView>, i: nat, with: WithView) -> bool {
    &&& keyword_at(tokens, i, Keyword::With)
    &&& match with {
        WithView::Identifier(identifier) => token_at(
            tokens,
            i + 1,
            identifier,
            TokenType::Identifier,
        ),
        WithView::Call(call) => call_at(tokens, i + 1, call),
    }
}

/// The number of tokens that a list of modifiers is written with.
pub open spec fn withs_len(withs: Seq<WithView>) -> nat
    decreases withs.len(),
{
    if withs.len() == 0 {
        0
    } else {
        with_len(withs[0]) + withs_len(withs.drop_first())
    }
}

/// ("with" (Call | Identifier))*
pub open spec fn withs_at(tokens: Seq<TokenView>, i: nat, withs: Seq<WithView>) -> bool
    decreases withs.len(),
{
    withs.len() > 0 ==> {
        &&& with_at(tokens, i, withs[0])
        &&& withs_at(tokens, i + with_len(withs[0]), withs.drop_first())
    }
}

/// The number of tokens that a call with its modifiers is written with.
pub open spec fn call_with_len(item: CallWithView) -> nat {
    call_len(item.call) + withs_len(item.with)
}

/// CallWith := Call ("with" (Call | Identifier))*
pub open spec fn call_with_at(tokens: Seq<TokenView>, i: nat, item: CallWithView) -> bool {
    &&& call_at(tokens, i, item.call)
    &&& withs_at(tokens, i + call_len(item.call), item.with)
}

/// The number of tokens that the calls of a block are written with.
pub open spec fn block_calls_len(calls: Seq<CallWithView>) -> nat
    decreases calls.len(),
{
    if calls.len() == 0 {
        0
    } else {
        call_with_len(calls[0]) + block_calls_len(calls.drop_first())
    }
}

/// CallWith*
pub open spec fn block_calls_at(tokens: Seq<TokenView>, i: nat, calls: Seq<CallWithView>) -> bool
    decreases calls.len(),
{
    calls.len() > 0 ==> {
        &&& call_with_at(tokens, i, calls[0])
        &&& block_calls_at(tokens, i + call_with_len(calls[0]), calls.drop_first())
    }
}

/// The number of tokens that a block is written with.
pub open spec fn block_len(calls: Seq<CallWithView>) -> nat {
    2 + block_calls_len(calls)
}

/// Block := "{" CallWith* "}"
pub open spec fn block_at(tokens: Seq<TokenView>, i: nat, calls: Seq<CallWithView>) -> bool {
    &&& separator_at(tokens, i, Separator::LCurly)
    &&& block_calls_at(tokens, i + 1, calls)
    &&& separator_at(tokens, i + 1 + block_calls_len(calls), Separator::RCurly)
}

/// The number of tokens that a statement is written with.
pub open spec fn statement_len(statement: StatementView) -> nat {
    match statement {
        StatementView::Measure(calls) => 1 + block_len(calls),
        StatementView::Call(call) => call_len(call),
    }
}

/// StaffStatement := Measure | Call, where Measure := "measure" Block
pub open spec fn statement_at(tokens: Seq<TokenView>, i: nat, statement: StatementView) -> bool {
    match statement {
        StatementView::Measure(calls) => {
            &&& keyword_at(tokens, i, Keyword::Measure)
            &&& block_at(tokens, i + 1, calls)
        },
        StatementView::Call(call) => call_at(tokens, i, call),
    }
}

/// The number of tokens that a list of statements is written with.
pub open spec fn statements_len(statements: Seq<StatementView>) -> nat
    decreases statements.len(),
{
    if statements.len() == 0 {
        0
    } else {
        statement_len(statements[0]) + statements_len(statements.drop_first())
    }
}

/// StaffStatement*
pub open spec fn statements_at(
    tokens: Seq<TokenView>,
    i: nat,
    statements: Seq<StatementView>,
) -> bool
    decreases statements.len(),
{
    statements.len() > 0 ==> {
        &&& statement_at(tokens, i, statements[0])
        &&& statements_at(tokens, i + statement_len(statements[0]), statements.drop_first())
    }
}

/// The number of tokens that a pickup is written with, if there is one.
pub open spec fn pickup_len(pickup: Option<Seq<CallWithView>>) -> nat {
    match pickup {
        Some(calls) => 1 + block_len(calls),
        None => 0,
    }
}

/// Pickup?, where Pickup := "pickup" Block
pub open spec fn pickup_at(
    tokens: Seq<TokenView>,
    i: nat,
    pickup: Option<Seq<CallWithView>>,
) -> bool {
    match pickup {
        Some(calls) => {
            &&& keyword_at(tokens, i, Keyword::Pickup)
            &&& block_at(tokens, i + 1, calls)
        },
        None => true,
    }
}

/// The number of tokens that the body of a staff is written with.
pub open spec fn body_len(
    pickup: Option<Seq<CallWithView>>,
    statements: Seq<StatementView>,
) -> nat {
    2 + pickup_len(pickup) + statements_len(statements)
}

/// "{" Pickup? StaffStatement* "}"
pub open spec fn body_at(
    tokens: Seq<TokenView>,
    i: nat,
    pickup: Option<Seq<CallWithView>>,
    statements: Seq<StatementView>,
) -> bool {
    let after_pickup = i + 1 + pickup_len(pickup);
    &&& separator_at(tokens, i, Separator::LCurly)
    &&& pickup_at(tokens, i + 1, pickup)
    &&& statements_at(tokens, after_pickup, statements)
    &&& separator_at(tokens, after_pickup + statements_len(statements), Separator::RCurly)
}

/// The number of tokens that a staff is written with after its keyword.
pub open spec fn staff_inner_len(staff: StaffView) -> nat {
    4 + call_len(staff.staff_type) + body_len(staff.pickup, staff.statements)
}

/// Identifier "is" Call "in" Signature "{" Pickup? StaffStatement* "}": a
/// staff after its keyword.
pub open spec fn staff_inner_at(tokens: Seq<TokenView>, i: nat, staff: StaffView) -> bool {
    let after_type = i + 2 + call_len(staff.staff_type);
    &&& token_at(tokens, i, staff.identifier, TokenType::Identifier)
    &&& keyword_at(tokens, i + 1, Keyword::Is)
    &&& call_at(tokens, i + 2, staff.staff_type)
    &&& keyword_at(tokens, after_type, Keyword::In)
    &&& token_at(tokens, after_type + 1, staff.signature, TokenType::Signature)
    &&& body_at(tokens, after_type + 2, staff.pickup, staff.statements)
}

/// The number of tokens that a staff is written with.
pub open spec fn staff_len(staff: StaffView) -> nat {
    1 + staff_inner_len(staff)
}

/// Staff := "staff" Identifier "is" Call "in" Signature
///          "{" Pickup? StaffStatement* "}"
pub open spec fn staff_at(tokens: Seq<TokenView>, i: nat, staff: StaffView) -> bool {
    &&& keyword_at(tokens, i, Keyword::Staff)
    &&& staff_inner_at(tokens, i + 1, staff)
}

/// The number of tokens that a list of staffs is written with.
pub open spec fn staffs_len(staffs: Seq<StaffView>) -> nat
    decreases staffs.len(),
{
    if staffs.len() == 0 {
        0
    } else {
        staff_len(staffs[0]) + staffs_len(staffs.drop_first())
    }
}

/// Declaration*, where Declaration := Staff
pub open spec fn staffs_at(tokens: Seq<TokenView>, i: nat, staffs: Seq<StaffView>) -> bool
    decreases staffs.len(),
{
    staffs.len() > 0 ==> {
        &&& staff_at(tokens, i, staffs[0])
        &&& staffs_at(tokens, i + staff_len(staffs[0]), staffs.drop_first())
    }
}

/// Identifier ("," Identifier)* "}"
pub open spec fn names_at(tokens: Seq<TokenView>, i: nat, names: Seq<TokenView>) -> bool
    decreases names.len(),
{
    &&& names.len() >= 1
    &&& token_at(tokens, i, names[0], TokenType::Identifier)
    &&& if names.len() == 1 {
        separator_at(tokens, i + 1, Separator::RCurly)
    } else {
        &&& separator_at(tokens, i + 1, Separator::Comma)
        &&& names_at(tokens, i + 2, names.drop_first())
    }
}

/// The number of tokens that an import is written with.
pub open spec fn import_len(import: ImportView) -> nat {
    4 + listed_len(import.items)
}

/// Import := "import" "{" Identifier ("," Identifier)* "}" "from" Literal
pub open spec fn import_at(tokens: Seq<TokenView>, i: nat, import: ImportView) -> bool {
    &&& keyword_at(tokens, i, Keyword::Import)
    &&& separator_at(tokens, i + 1, Separator::LCurly)
    &&& names_at(tokens, i + 2, import.items)
    &&& keyword_at(tokens, i + 2 + listed_len(import.items), Keyword::From)
    &&& token_at(tokens, i + 3 + listed_len(import.items), import.source, TokenType::Literal)
}

/// The number of tokens that a list of imports is written with.
pub open spec fn imports_len(imports: Seq<ImportView>) -> nat
    decreases imports.len(),
{
    if imports.len() == 0 {
        0
    } else {
        import_len(imports[0]) + imports_len(imports.drop_first())
    }
}

/// Import*
pub open spec fn imports_at(tokens: Seq<TokenView>, i: nat, imports: Seq<ImportView>) -> bool
    decreases imports.len(),
{
    imports.len() > 0 ==> {
        &&& import_at(tokens, i, imports[0])
        &&& imports_at(tokens, i + import_len(imports[0]), imports.drop_first())
    }
}

/// The number of tokens that the calls of a meta block are written with.
pub open spec fn calls_len(calls: Seq<CallView>) -> nat
    decreases calls.len(),
{
    if calls.len() == 0 {
        0
    } else {
        call_len(calls[0]) + calls_len(calls.drop_first())
    }
}

/// Call*
pub open spec fn calls_at(tokens: Seq<TokenView>, i: nat, calls: Seq<CallView>) -> bool
    decreases calls.len(),
{
    calls.len() > 0 ==> {
        &&& call_at(tokens, i, calls[0])
        &&& calls_at(tokens, i + call_len(calls[0]), calls.drop_first())
    }
}

/// The number of tokens that a meta block is written with.
pub open spec fn meta_len(configs: Seq<CallView>) -> nat {
    3 + calls_len(configs)
}

/// Meta := "meta" "{" Call+ "}"
pub open spec fn meta_at(tokens: Seq<TokenView>, i: nat, configs: Seq<CallView>) -> bool {
    &&& keyword_at(tokens, i, Keyword::Meta)
    &&& separator_at(tokens, i + 1, Separator::LCurly)
    &&& configs.len() >= 1
    &&& calls_at(tokens, i + 2, configs)
    &&& separator_at(tokens, i + 2 + calls_len(configs), Separator::RCurly)
}

/// The number of tokens that a program is written with.
pub open spec fn program_len(program: ProgramView) -> nat {
    imports_len(program.imports) + meta_len(program.meta) + staffs_len(program.declarations)
}

/// Program := Import* Meta Declaration*, from index `i` on.
pub open spec fn program_at(tokens: Seq<TokenView>, i: nat, program: ProgramView) -> bool {
    &&& imports_at(tokens, i, program.imports)
    &&& meta_at(tokens, i + imports_len(program.imports), program.meta)
    &&& staffs_at(
        tokens,
        i + imports_len(program.imports) + meta_len(program.meta),
        program.declarations,
    )
}

/// Whether the token stream as a whole is written by `program`.
pub open spec fn is_program(tokens: Seq<TokenView>, program: ProgramView) -> bool {
    program_at(tokens, 0, program) && program_len(program) == tokens.len()
}

/// Arguments that the parser finds are written in the stream, where it began
/// to read them.
pub proof fn lemma_arguments_sound(tokens: Seq<TokenView>, c: Cursor)
    ensures
        rules::arguments(tokens, c).1 matches Ok(found) ==> {
            &&& arguments_at(tokens, c.pos, found)
            &&& rules::arguments(tokens, c).0.pos == c.pos + listed_len(found)
        },
    decreases tokens.len() - c.pos,
{
    reveal(rules::arguments);
    let (c1, first) = rules::argument(tokens, c);
    if let Ok(token) = first {
        let c2 = c1.advance(tokens);
        if c2.on_separator(tokens, Separator::RParan) {
        } else if c2.on_separator(tokens, Separator::Comma) {
            lemma_arguments_sound(tokens, c2);
            if let Ok(rest) = rules::arguments(tokens, c2).1 {
                assert((seq![token] + rest).drop_first() =~= rest);
            }
        }
    }
}

/// Arguments that are written in the stream are the ones that the parser
/// finds there.
pub proof fn lemma_arguments_complete(tokens: Seq<TokenView>, c: Cursor, arguments: Seq<TokenView>)
    requires
        arguments_at(tokens, c.pos, arguments),
    ensures
        rules::arguments(tokens, c).1 == Ok::<Seq<TokenView>, ParseError>(arguments),
        rules::arguments(tokens, c).0.pos == c.pos + listed_len(arguments),
    decreases arguments.len(),
{
    reveal(rules::arguments);
    let c2 = c.advance(tokens).advance(tokens);
    if arguments.len() == 1 {
        assert(seq![arguments[0]] =~= arguments);
    } else {
        lemma_arguments_complete(tokens, c2, arguments.drop_first());
        assert(seq![arguments[0]] + arguments.drop_first() =~= arguments);
    }
}

/// A call that the parser finds is written in the stream, where it began to
/// read it.
pub proof fn lemma_call_sound(tokens: Seq<TokenView>, c: Cursor)
    ensures
        rules::call(tokens, c).1 matches Some(Ok(found)) ==> {
            &&& call_at(tokens, c.pos, found)
            &&& rules::call(tokens, c).0.pos == c.pos + call_len(found)
        },
{
    reveal(rules::call);
    lemma_arguments_sound(tokens, c.advance(tokens).advance(tokens));
}

/// A call that is written in the stream is the one that the parser finds
/// there.
pub proof fn lemma_call_complete(tokens: Seq<TokenView>, c: Cursor, call: CallView)
    requires
        call_at(tokens, c.pos, call),
    ensures
        rules::call(tokens, c).1 == Some(Ok::<CallView, ParseError>(call)),
        rules::call(tokens, c).0.pos == c.pos + call_len(call),
{
    reveal(rules::call);
    lemma_arguments_complete(tokens, c.advance(tokens).advance(tokens), call.arguments);
}

/// Modifiers that the parser finds are written in the stream, where it began
/// to read them.
pub proof fn lemma_withs_sound(tokens: Seq<TokenView>, c: Cursor)
    requires
        c.pos <= tokens.len(),
    ensures
        rules::withs(tokens, c).1 matches Ok(found) ==> {
            &&& withs_at(tokens, c.pos, found)
            &&& rules::withs(tokens, c).0.pos == c.pos + withs_len(found)
        },
    decreases tokens.len() - c.pos,
{
    reveal(rules::withs);
    let c1 = c.advance(tokens);
    if c1.on_keyword(tokens, Keyword::With) {
        let (c2, nested) = rules::call(tokens, c1.mark());
        rules::lemma_call(tokens, c1.mark());
        lemma_call_sound(tokens, c1.mark());
        match nested {
            Some(Ok(call)) => {
                lemma_withs_sound(tokens, c2);
                if let Ok(rest) = rules::withs(tokens, c2).1 {
                    assert((seq![WithView::Call(call)] + rest).drop_first() =~= rest);
                }
            },
            Some(Err(_)) => {},
            None => {
                let (c3, name) = rules::next_kind(tokens, c2.rewind(), TokenType::Identifier);
                if let Ok(identifier) = name {
                    lemma_withs_sound(tokens, c3);
                    if let Ok(rest) = rules::withs(tokens, c3).1 {
                        assert((seq![WithView::Identifier(identifier)] + rest).drop_first()
                            =~= rest);
                    }
                }
            },
        }
    }
}

/// Modifiers that are written in the stream after a call, and are followed
/// neither by `with` nor by an opening parenthesis, are the ones that the
/// parser finds there.
pub proof fn lemma_withs_complete(tokens: Seq<TokenView>, c: Cursor, withs: Seq<WithView>)
    requires
        1 <= c.pos <= tokens.len(),
        withs_at(tokens, c.pos, withs),
        !keyword_at(tokens, c.pos + withs_len(withs), Keyword::With),
        !separator_at(tokens, c.pos + withs_len(withs), Separator::LParan),
    ensures
        rules::withs(tokens, c).1 == Ok::<Seq<WithView>, ParseError>(withs),
        rules::withs(tokens, c).0.pos == c.pos + withs_len(withs),
    decreases withs.len(),
{
    reveal(rules::call);
    reveal(rules::withs);
    let c1 = c.advance(tokens);
    if withs.len() == 0 {
        assert(withs =~= Seq::<WithView>::empty());
    } else {
        let rest = withs.drop_first();
        rules::lemma_call(tokens, c1.mark());
        let (c2, nested) = rules::call(tokens, c1.mark());
        match withs[0] {
            WithView::Call(call) => {
                lemma_call_complete(tokens, c1.mark(), call);
                lemma_withs_complete(tokens, c2, rest);
                assert(seq![withs[0]] + rest =~= withs);
            },
            WithView::Identifier(identifier) => {
                if rest.len() == 0 {
                    assert(withs_len(rest) == 0);
                } else {
                    assert(withs_at(tokens, c.pos + 2, rest));
                    assert(with_at(tokens, c.pos + 2, rest[0]));
                }
                assert(!separator_at(tokens, c.pos + 2, Separator::LParan));
                assert(nested is None);
                let (c3, name) = rules::next_kind(tokens, c2.rewind(), TokenType::Identifier);
                lemma_withs_complete(tokens, c3, rest);
                assert(seq![withs[0]] + rest =~= withs);
            },
        }
    }
}

/// A call with modifiers that the parser finds is written in the stream,
/// where it began to read it.
pub proof fn lemma_call_with_sound(tokens: Seq<TokenView>, c: Cursor)
    ensures
        rules::call_with(tokens, c).1 matches Some(Ok(found)) ==> {
            &&& call_with_at(tokens, c.pos, found)
            &&& rules::call_with(tokens, c).0.pos == c.pos + call_with_len(found)
        },
{
    reveal(rules::call_with);
    rules::lemma_call(tokens, c);
    lemma_call_sound(tokens, c);
    let (c1, head) = rules::call(tokens, c);
    if head matches Some(Ok(_)) {
        lemma_withs_sound(tokens, c1);
    }
}

/// A call with modifiers that is written in the stream, and is followed
/// neither by `with` nor by an opening parenthesis, is the one that the
/// parser finds there.
pub proof fn lemma_call_with_complete(tokens: Seq<TokenView>, c: Cursor, item: CallWithView)
    requires
        call_with_at(tokens, c.pos, item),
        !keyword_at(tokens, c.pos + call_with_len(item), Keyword::With),
        !separator_at(tokens, c.pos + call_with_len(item), Separator::LParan),
    ensures
        rules::call_with(tokens, c).1 == Some(Ok::<CallWithView, ParseError>(item)),
        rules::call_with(tokens, c).0.pos == c.pos + call_with_len(item),
{
    reveal(rules::call_with);
    lemma_call_complete(tokens, c, item.call);
    rules::lemma_call(tokens, c);
    lemma_withs_complete(tokens, rules::call(tokens, c).0, item.with);
}

/// The calls of a block that the parser finds are written in the stream,
/// where it began to read them.
pub proof fn lemma_block_calls_sound(tokens: Seq<TokenView>, c: Cursor)
    ensures
        rules::block_calls(tokens, c).1 matches Ok(found) ==> {
            &&& block_calls_at(tokens, c.pos, found)
            &&& rules::block_calls(tokens, c).0.pos == c.pos + block_calls_len(found)
        },
    decreases tokens.len() - c.pos,
{
    reveal(rules::block_calls);
    rules::lemma_call_with(tokens, c.mark());
    lemma_call_with_sound(tokens, c.mark());
    let (c1, item) = rules::call_with(tokens, c.mark());
    if let Some(Ok(first)) = item {
        lemma_block_calls_sound(tokens, c1);
        if let Ok(rest) = rules::block_calls(tokens, c1).1 {
            assert((seq![first] + rest).drop_first() =~= rest);
        }
    }
}

/// The calls of a block that are written in the stream before a closing
/// brace are the ones that the parser finds there.
pub proof fn lemma_block_calls_complete(
    tokens: Seq<TokenView>,
    c: Cursor,
    calls: Seq<CallWithView>,
)
    requires
        block_calls_at(tokens, c.pos, calls),
        separator_at(tokens, c.pos + block_calls_len(calls), Separator::RCurly),
    ensures
        rules::block_calls(tokens, c).1 == Ok::<Seq<CallWithView>, ParseError>(calls),
        rules::block_calls(tokens, c).0.pos == c.pos + block_calls_len(calls),
    decreases calls.len(),
{
    reveal(rules::call_with);
    reveal(rules::call);
    reveal(rules::block_calls);
    rules::lemma_call_with(tokens, c.mark());
    if calls.len() == 0 {
        assert(calls =~= Seq::<CallWithView>::empty());
    } else {
        let rest = calls.drop_first();
        if rest.len() == 0 {
            assert(block_calls_len(rest) == 0);
        } else {
            assert(block_calls_at(tokens, c.pos + call_with_len(calls[0]), rest));
            assert(call_with_at(tokens, c.pos + call_with_len(calls[0]), rest[0]));
        }
        lemma_call_with_complete(tokens, c.mark(), calls[0]);
        lemma_block_calls_complete(tokens, rules::call_with(tokens, c.mark()).0, rest);
        assert(seq![calls[0]] + rest =~= calls);
    }
}

/// A block that the parser finds is written in the stream, where it began to
/// read it.
pub proof fn lemma_block_sound(tokens: Seq<TokenView>, c: Cursor)
    ensures
        rules::block(tokens, c).1 matches Ok(found) ==> {
            &&& block_at(tokens, c.pos, found)
            &&& rules::block(tokens, c).0.pos == c.pos + block_len(found)
        },
{
    reveal(rules::block);
    let c1 = c.advance(tokens);
    if c1.on_separator(tokens, Separator::LCurly) {
        lemma_block_calls_sound(tokens, c1);
        rules::lemma_block_calls(tokens, c1);
    }
}

/// A block that is written in the stream is the one that the parser finds
/// there.
pub proof fn lemma_block_complete(tokens: Seq<TokenView>, c: Cursor, calls: Seq<CallWithView>)
    requires
        block_at(tokens, c.pos, calls),
    ensures
        rules::block(tokens, c).1 == Ok::<Seq<CallWithView>, ParseError>(calls),
        rules::block(tokens, c).0.pos == c.pos + block_len(calls),
{
    reveal(rules::block);
    lemma_block_calls_complete(tokens, c.advance(tokens), calls);
}

/// A statement that the parser finds is written in the stream, where it
/// began to read it.
pub proof fn lemma_statement_sound(tokens: Seq<TokenView>, c: Cursor)
    ensures
        rules::staff_statement(tokens, c).1 matches Some(Ok(found)) ==> {
            &&& statement_at(tokens, c.pos, found)
            &&& rules::staff_statement(tokens, c).0.pos == c.pos + statement_len(found)
        },
{
    reveal(rules::staff_statement);
    let (c1, first) = rules::measure(tokens, c.mark());
    lemma_block_sound(tokens, c.mark().advance(tokens));
    lemma_call_sound(tokens, c1.rewind());
}

/// A statement that is written in the stream is the one that the parser
/// finds there.
pub proof fn lemma_statement_complete(tokens: Seq<TokenView>, c: Cursor, statement: StatementView)
    requires
        statement_at(tokens, c.pos, statement),
    ensures
        rules::staff_statement(tokens, c).1 == Some(Ok::<StatementView, ParseError>(statement)),
        rules::staff_statement(tokens, c).0.pos == c.pos + statement_len(statement),
{
    reveal(rules::staff_statement);
    let (c1, first) = rules::measure(tokens, c.mark());
    match statement {
        StatementView::Measure(calls) => {
            lemma_block_complete(tokens, c.mark().advance(tokens), calls);
        },
        StatementView::Call(call) => {
            lemma_call_complete(tokens, c1.rewind(), call);
        },
    }
}

/// The statements that the parser finds are written in the stream, where it
/// began to read them.
pub proof fn lemma_statements_sound(tokens: Seq<TokenView>, c: Cursor)
    ensures
        rules::staff_statements(tokens, c).1 matches Ok(found) ==> {
            &&& statements_at(tokens, c.pos, found)
            &&& rules::staff_statements(tokens, c).0.pos == c.pos + statements_len(found)
        },
    decreases tokens.len() - c.pos,
{
    reveal(rules::staff_statements);
    rules::lemma_staff_statement(tokens, c.mark());
    lemma_statement_sound(tokens, c.mark());
    let (c1, item) = rules::staff_statement(tokens, c.mark());
    if let Some(Ok(first)) = item {
        lemma_statements_sound(tokens, c1);
        if let Ok(rest) = rules::staff_statements(tokens, c1).1 {
            assert((seq![first] + rest).drop_first() =~= rest);
        }
    }
}

/// The statements that are written in the stream before a closing brace are
/// the ones that the parser finds there.
pub proof fn lemma_statements_complete(
    tokens: Seq<TokenView>,
    c: Cursor,
    statements: Seq<StatementView>,
)
    requires
        statements_at(tokens, c.pos, statements),
        separator_at(tokens, c.pos + statements_len(statements), Separator::RCurly),
    ensures
        rules::staff_statements(tokens, c).1 == Ok::<Seq<StatementView>, ParseError>(statements),
        rules::staff_statements(tokens, c).0.pos == c.pos + statements_len(statements),
    decreases statements.len(),
{
    reveal(rules::staff_statement);
    reveal(rules::call);
    reveal(rules::staff_statements);
    rules::lemma_staff_statement(tokens, c.mark());
    if statements.len() == 0 {
        assert(statements =~= Seq::<StatementView>::empty());
    } else {
        let rest = statements.drop_first();
        lemma_statement_complete(tokens, c.mark(), statements[0]);
        lemma_statements_complete(tokens, rules::staff_statement(tokens, c.mark()).0, rest);
        assert(seq![statements[0]] + rest =~= statements);
    }
}

/// The body of a staff that the parser finds is written in the stream, where
/// it began to read it; the rest of the staff is what was read before.
pub proof fn lemma_body_sound(
    tokens: Seq<TokenView>,
    c: Cursor,
    identifier: TokenView,
    staff_type: CallView,
    signature: TokenView,
)
    ensures
        rules::staff_body(tokens, c, identifier, staff_type, signature).1 matches Ok(found) ==> {
            &&& found.identifier == identifier
            &&& found.staff_type == staff_type
            &&& found.signature == signature
            &&& body_at(tokens, c.pos, found.pickup, found.statements)
            &&& rules::staff_body(tokens, c, identifier, staff_type, signature).0.pos == c.pos
                + body_len(found.pickup, found.statements)
        },
{
    reveal(rules::staff_body);
    let c1 = c.advance(tokens);
    if c1.on_separator(tokens, Separator::LCurly) {
        let (c2, lead) = rules::pickup(tokens, c1.mark());
        lemma_block_sound(tokens, c1.mark().advance(tokens));
        if !(lead matches Some(Err(_))) {
            let c3 = if lead is None {
                c2.rewind()
            } else {
                c2
            };
            lemma_statements_sound(tokens, c3);
            rules::lemma_block(tokens, c1.mark().advance(tokens));
            rules::lemma_staff_statements(tokens, c3);
        }
    }
}

/// The body of a staff that is written in the stream is the one that the
/// parser finds there.
pub proof fn lemma_body_complete(
    tokens: Seq<TokenView>,
    c: Cursor,
    identifier: TokenView,
    staff_type: CallView,
    signature: TokenView,
    pickup: Option<Seq<CallWithView>>,
    statements: Seq<StatementView>,
)
    requires
        body_at(tokens, c.pos, pickup, statements),
    ensures
        rules::staff_body(tokens, c, identifier, staff_type, signature).1 == Ok::<
            StaffView,
            ParseError,
        >(StaffView { identifier, staff_type, signature, pickup, statements }),
        rules::staff_body(tokens, c, identifier, staff_type, signature).0.pos == c.pos + body_len(
            pickup,
            statements,
        ),
{
    reveal(rules::staff_body);
    let c1 = c.advance(tokens);
    let (c2, lead) = rules::pickup(tokens, c1.mark());
    match pickup {
        Some(calls) => {
            lemma_block_complete(tokens, c1.mark().advance(tokens), calls);
            lemma_statements_complete(tokens, c2, statements);
        },
        None => {
            if statements.len() > 0 {
                assert(statement_at(tokens, c1.pos, statements[0]));
            }
            assert(lead is None);
            lemma_statements_complete(tokens, c2.rewind(), statements);
        },
    }
}

/// A staff that the parser finds after the keyword is written in the stream,
/// where it began to read it.
pub proof fn lemma_staff_inner_sound(tokens: Seq<TokenView>, c: Cursor)
    ensures
        rules::staff_inner(tokens, c).1 matches Ok(found) ==> {
            &&& staff_inner_at(tokens, c.pos, found)
            &&& rules::staff_inner(tokens, c).0.pos == c.pos + staff_inner_len(found)
        },
{
    reveal(rules::staff_inner);
    let (c1, name) = rules::next_kind(tokens, c, TokenType::Identifier);
    let c2 = c1.advance(tokens);
    let (c3, kind) = rules::call(tokens, c2);
    rules::lemma_call(tokens, c2);
    lemma_call_sound(tokens, c2);
    let c4 = c3.advance(tokens);
    let (c5, time) = rules::next_kind(tokens, c4, TokenType::Signature);
    if let (Ok(identifier), Some(Ok(staff_type)), Ok(signature)) = (name, kind, time) {
        lemma_body_sound(tokens, c5, identifier, staff_type, signature);
    }
}

/// A staff that is written in the stream after the keyword is the one that
/// the parser finds there.
pub proof fn lemma_staff_inner_complete(tokens: Seq<TokenView>, c: Cursor, staff: StaffView)
    requires
        staff_inner_at(tokens, c.pos, staff),
    ensures
        rules::staff_inner(tokens, c).1 == Ok::<StaffView, ParseError>(staff),
        rules::staff_inner(tokens, c).0.pos == c.pos + staff_inner_len(staff),
{
    reveal(rules::staff_inner);
    let (c1, name) = rules::next_kind(tokens, c, TokenType::Identifier);
    let c2 = c1.advance(tokens);
    let (c3, kind) = rules::call(tokens, c2);
    lemma_call_complete(tokens, c2, staff.staff_type);
    let c4 = c3.advance(tokens);
    let (c5, time) = rules::next_kind(tokens, c4, TokenType::Signature);
    lemma_body_complete(
        tokens,
        c5,
        staff.identifier,
        staff.staff_type,
        staff.signature,
        staff.pickup,
        staff.statements,
    );
}

/// A staff that the parser finds is written in the stream, where it began to
/// read it.
pub proof fn lemma_staff_sound(tokens: Seq<TokenView>, c: Cursor)
    ensures
        rules::staff(tokens, c).1 matches Some(Ok(found)) ==> {
            &&& staff_at(tokens, c.pos, found)
            &&& rules::staff(tokens, c).0.pos == c.pos + staff_len(found)
        },
{
    lemma_staff_inner_sound(tokens, c.advance(tokens));
}

/// A staff that is written in the stream is the one that the parser finds
/// there.
pub proof fn lemma_staff_complete(tokens: Seq<TokenView>, c: Cursor, staff: StaffView)
    requires
        staff_at(tokens, c.pos, staff),
    ensures
        rules::staff(tokens, c).1 == Some(Ok::<StaffView, ParseError>(staff)),
        rules::staff(tokens, c).0.pos == c.pos + staff_len(staff),
{
    lemma_staff_inner_complete(tokens, c.advance(tokens), staff);
}

/// The staffs that the parser finds are written in the stream, where it
/// began to read them, and no staff begins after them.
pub proof fn lemma_staffs_sound(tokens: Seq<TokenView>, c: Cursor)
    ensures
        rules::declarations(tokens, c).1 matches Ok(found) ==> {
            &&& staffs_at(tokens, c.pos, found)
            &&& rules::declarations(tokens, c).0.pos == c.pos + staffs_len(found)
            &&& !keyword_at(tokens, c.pos + staffs_len(found), Keyword::Staff)
        },
    decreases tokens.len() - c.pos,
{
    reveal(rules::declarations);
    rules::lemma_staff(tokens, c.mark());
    lemma_staff_sound(tokens, c.mark());
    let (c1, item) = rules::declaration(tokens, c.mark());
    if let Some(Ok(first)) = item {
        lemma_staffs_sound(tokens, c1);
        if let Ok(rest) = rules::declarations(tokens, c1).1 {
            assert((seq![first] + rest).drop_first() =~= rest);
        }
    }
}

/// The staffs that are written in the stream, with no staff beginning after
/// them, are the ones that the parser finds there.
pub proof fn lemma_staffs_complete(tokens: Seq<TokenView>, c: Cursor, staffs: Seq<StaffView>)
    requires
        staffs_at(tokens, c.pos, staffs),
        !keyword_at(tokens, c.pos + staffs_len(staffs), Keyword::Staff),
    ensures
        rules::declarations(tokens, c).1 == Ok::<Seq<StaffView>, ParseError>(staffs),
        rules::declarations(tokens, c).0.pos == c.pos + staffs_len(staffs),
    decreases staffs.len(),
{
    reveal(rules::declarations);
    rules::lemma_staff(tokens, c.mark());
    if staffs.len() == 0 {
        assert(staffs =~= Seq::<StaffView>::empty());
    } else {
        let rest = staffs.drop_first();
        lemma_staff_complete(tokens, c.mark(), staffs[0]);
        lemma_staffs_complete(tokens, rules::declaration(tokens, c.mark()).0, rest);
        assert(seq![staffs[0]] + rest =~= staffs);
    }
}

/// The names of an import that the parser finds are written in the stream,
/// where it began to read them.
pub proof fn lemma_names_sound(tokens: Seq<TokenView>, c: Cursor)
    ensures
        rules::import_items(tokens, c).1 matches Ok(found) ==> {
            &&& names_at(tokens, c.pos, found)
            &&& rules::import_items(tokens, c).0.pos == c.pos + listed_len(found)
        },
    decreases tokens.len() - c.pos,
{
    reveal(rules::import_items);
    let (c1, first) = rules::next_kind(tokens, c, TokenType::Identifier);
    if let Ok(token) = first {
        let c2 = c1.advance(tokens);
        if c2.on_separator(tokens, Separator::RCurly) {
        } else if c2.on_separator(tokens, Separator::Comma) {
            lemma_names_sound(tokens, c2);
            if let Ok(rest) = rules::import_items(tokens, c2).1 {
                assert((seq![token] + rest).drop_first() =~= rest);
            }
        }
    }
}

/// The names of an import that are written in the stream are the ones that
/// the parser finds there.
pub proof fn lemma_names_complete(tokens: Seq<TokenView>, c: Cursor, names: Seq<TokenView>)
    requires
        names_at(tokens, c.pos, names),
    ensures
        rules::import_items(tokens, c).1 == Ok::<Seq<TokenView>, ParseError>(names),
        rules::import_items(tokens, c).0.pos == c.pos + listed_len(names),
    decreases names.len(),
{
    reveal(rules::import_items);
    let c2 = c.advance(tokens).advance(tokens);
    if names.len() == 1 {
        assert(seq![names[0]] =~= names);
    } else {
        lemma_names_complete(tokens, c2, names.drop_first());
        assert(seq![names[0]] + names.drop_first() =~= names);
    }
}

/// Whether name `k` of a list that begins at index `i` stands at its place
/// in the stream: two tokens after the name before it.
pub open spec fn name_in_place(
    tokens: Seq<TokenView>,
    i: nat,
    names: Seq<TokenView>,
    k: int,
) -> bool {
    i + 2 * k < tokens.len() && tokens[i + 2 * k] == names[k]
}

/// The names of an import stand in the stream in the order of the list, each
/// as it is in the list, with one token between two of them.
pub proof fn lemma_names_in_order(tokens: Seq<TokenView>, i: nat, names: Seq<TokenView>)
    requires
        names_at(tokens, i, names),
    ensures
        forall|k: int| 0 <= k < names.len() ==> #[trigger] name_in_place(tokens, i, names, k),
    decreases names.len(),
{
    if names.len() > 1 {
        lemma_names_in_order(tokens, i + 2, names.drop_first());
    }
    assert forall|k: int| 0 <= k < names.len() implies #[trigger] name_in_place(
        tokens,
        i,
        names,
        k,
    ) by {
        if k > 0 {
            assert(name_in_place(tokens, i + 2, names.drop_first(), k - 1));
        }
    }
}

/// An import that the parser finds is written in the stream, where it began
/// to read it.
pub proof fn lemma_import_sound(tokens: Seq<TokenView>, c: Cursor)
    ensures
        rules::import(tokens, c).1 matches Some(Ok(found)) ==> {
            &&& import_at(tokens, c.pos, found)
            &&& rules::import(tokens, c).0.pos == c.pos + import_len(found)
        },
{
    reveal(rules::import);
    let c2 = c.advance(tokens).advance(tokens);
    lemma_names_sound(tokens, c2);
    rules::lemma_import_items(tokens, c2);
}

/// An import that is written in the stream is the one that the parser finds
/// there.
pub proof fn lemma_import_complete(tokens: Seq<TokenView>, c: Cursor, import: ImportView)
    requires
        import_at(tokens, c.pos, import),
    ensures
        rules::import(tokens, c).1 == Some(Ok::<ImportView, ParseError>(import)),
        rules::import(tokens, c).0.pos == c.pos + import_len(import),
{
    reveal(rules::import);
    lemma_names_complete(tokens, c.advance(tokens).advance(tokens), import.items);
}

/// The imports that the parser finds are written in the stream, where it
/// began to read them, and no import begins after them.
pub proof fn lemma_imports_sound(tokens: Seq<TokenView>, c: Cursor)
    ensures
        rules::imports(tokens, c).1 matches Ok(found) ==> {
            &&& imports_at(tokens, c.pos, found)
            &&& rules::imports(tokens, c).0.pos == c.pos + imports_len(found)
            &&& !keyword_at(tokens, c.pos + imports_len(found), Keyword::Import)
        },
    decreases tokens.len() - c.pos,
{
    reveal(rules::import);
    reveal(rules::imports);
    rules::lemma_import(tokens, c.mark());
    lemma_import_sound(tokens, c.mark());
    let (c1, item) = rules::import(tokens, c.mark());
    if let Some(Ok(first)) = item {
        lemma_imports_sound(tokens, c1);
        if let Ok(rest) = rules::imports(tokens, c1).1 {
            assert((seq![first] + rest).drop_first() =~= rest);
        }
    }
}

/// The imports that are written in the stream, with no import beginning
/// after them, are the ones that the parser finds there.
pub proof fn lemma_imports_complete(tokens: Seq<TokenView>, c: Cursor, imports: Seq<ImportView>)
    requires
        imports_at(tokens, c.pos, imports),
        !keyword_at(tokens, c.pos + imports_len(imports), Keyword::Import),
    ensures
        rules::imports(tokens, c).1 == Ok::<Seq<ImportView>, ParseError>(imports),
        rules::imports(tokens, c).0.pos == c.pos + imports_len(imports),
    decreases imports.len(),
{
    reveal(rules::import);
    reveal(rules::imports);
    rules::lemma_import(tokens, c.mark());
    if imports.len() == 0 {
        assert(imports =~= Seq::<ImportView>::empty());
    } else {
        let rest = imports.drop_first();
        lemma_import_complete(tokens, c.mark(), imports[0]);
        lemma_imports_complete(tokens, rules::import(tokens, c.mark()).0, rest);
        assert(seq![imports[0]] + rest =~= imports);
    }
}

/// The calls of a meta block that the parser finds are written in the
/// stream, where it began to read them.
pub proof fn lemma_calls_sound(tokens: Seq<TokenView>, c: Cursor)
    ensures
        rules::meta_calls(tokens, c).1 matches Ok(found) ==> {
            &&& calls_at(tokens, c.pos, found)
            &&& rules::meta_calls(tokens, c).0.pos == c.pos + calls_len(found)
        },
    decreases tokens.len() - c.pos,
{
    reveal(rules::meta_calls);
    rules::lemma_call(tokens, c.mark());
    lemma_call_sound(tokens, c.mark());
    let (c1, item) = rules::call(tokens, c.mark());
    if let Some(Ok(first)) = item {
        lemma_calls_sound(tokens, c1);
        if let Ok(rest) = rules::meta_calls(tokens, c1).1 {
            assert((seq![first] + rest).drop_first() =~= rest);
        }
    }
}

/// The calls of a meta block that are written in the stream before a closing
/// brace are the ones that the parser finds there.
pub proof fn lemma_calls_complete(tokens: Seq<TokenView>, c: Cursor, calls: Seq<CallView>)
    requires
        calls_at(tokens, c.pos, calls),
        separator_at(tokens, c.pos + calls_len(calls), Separator::RCurly),
    ensures
        rules::meta_calls(tokens, c).1 == Ok::<Seq<CallView>, ParseError>(calls),
        rules::meta_calls(tokens, c).0.pos == c.pos + calls_len(calls),
    decreases calls.len(),
{
    reveal(rules::call);
    reveal(rules::meta_calls);
    rules::lemma_call(tokens, c.mark());
    if calls.len() == 0 {
        assert(calls =~= Seq::<CallView>::empty());
    } else {
        let rest = calls.drop_first();
        lemma_call_complete(tokens, c.mark(), calls[0]);
        lemma_calls_complete(tokens, rules::call(tokens, c.mark()).0, rest);
        assert(seq![calls[0]] + rest =~= calls);
    }
}

/// A meta block that the parser finds is written in the stream, where it
/// began to read it.
pub proof fn lemma_meta_sound(tokens: Seq<TokenView>, c: Cursor)
    ensures
        rules::meta(tokens, c).1 matches Ok(found) ==> {
            &&& meta_at(tokens, c.pos, found)
            &&& rules::meta(tokens, c).0.pos == c.pos + meta_len(found)
        },
{
    reveal(rules::meta);
    let c2 = c.advance(tokens).advance(tokens);
    if c2.on_separator(tokens, Separator::LCurly) {
        lemma_calls_sound(tokens, c2);
        rules::lemma_meta_calls(tokens, c2);
    }
}

/// A meta block that is written in the stream is the one that the parser
/// finds there.
pub proof fn lemma_meta_complete(tokens: Seq<TokenView>, c: Cursor, configs: Seq<CallView>)
    requires
        meta_at(tokens, c.pos, configs),
    ensures
        rules::meta(tokens, c).1 == Ok::<Seq<CallView>, ParseError>(configs),
        rules::meta(tokens, c).0.pos == c.pos + meta_len(configs),
{
    reveal(rules::meta);
    lemma_calls_complete(tokens, c.advance(tokens).advance(tokens), configs);
}

/// A program that the parser finds is written in the stream, where it began
/// to read it, and no staff begins after it.
pub proof fn lemma_program_sound(tokens: Seq<TokenView>, c: Cursor)
    ensures
        rules::parse_inner(tokens, c).1 matches Ok(found) ==> {
            &&& program_at(tokens, c.pos, found)
            &&& rules::parse_inner(tokens, c).0.pos == c.pos + program_len(found)
            &&& !keyword_at(tokens, c.pos + program_len(found), Keyword::Staff)
        },
{
    reveal(rules::parse_inner);
    lemma_imports_sound(tokens, c);
    let (c1, first) = rules::imports(tokens, c);
    lemma_meta_sound(tokens, c1);
    let (c2, second) = rules::meta(tokens, c1);
    lemma_staffs_sound(tokens, c2);
}

/// A program that is written in the stream, with no staff beginning after
/// it, is the one that the parser finds there.
pub proof fn lemma_program_complete(tokens: Seq<TokenView>, c: Cursor, program: ProgramView)
    requires
        program_at(tokens, c.pos, program),
        !keyword_at(tokens, c.pos + program_len(program), Keyword::Staff),
    ensures
        rules::parse_inner(tokens, c).1 == Ok::<ProgramView, ParseError>(program),
        rules::parse_inner(tokens, c).0.pos == c.pos + program_len(program),
{
    reveal(rules::parse_inner);
    lemma_imports_complete(tokens, c, program.imports);
    let (c1, first) = rules::imports(tokens, c);
    lemma_meta_complete(tokens, c1, program.meta);
    let (c2, second) = rules::meta(tokens, c1);
    lemma_staffs_complete(tokens, c2, program.declarations);
}

/// Arguments that are written in the stream are arguments.
pub proof fn lemma_arguments_well_formed(tokens: Seq<TokenView>, i: nat, arguments: Seq<TokenView>)
    requires
        arguments_at(tokens, i, arguments),
    ensures
        forall|k: int| 0 <= k < arguments.len() ==> (#[trigger] arguments[k]).is_argument(),
    decreases arguments.len(),
{
    if arguments.len() > 1 {
        lemma_arguments_well_formed(tokens, i + 2, arguments.drop_first());
    }
    assert forall|k: int| 0 <= k < arguments.len() implies
        (#[trigger] arguments[k]).is_argument() by {
        if k > 0 {
            assert(arguments[k] == arguments.drop_first()[k - 1]);
        }
    }
}

/// A call that is written in the stream is well formed.
pub proof fn lemma_call_well_formed(tokens: Seq<TokenView>, i: nat, call: CallView)
    requires
        call_at(tokens, i, call),
    ensures
        call.well_formed(),
{
    lemma_arguments_well_formed(tokens, i + 2, call.arguments);
}

/// Modifiers that are written in the stream are well formed.
pub proof fn lemma_withs_well_formed(tokens: Seq<TokenView>, i: nat, withs: Seq<WithView>)
    requires
        withs_at(tokens, i, withs),
    ensures
        forall|k: int| 0 <= k < withs.len() ==> (#[trigger] withs[k]).well_formed(),
    decreases withs.len(),
{
    if withs.len() > 0 {
        if let WithView::Call(call) = withs[0] {
            lemma_call_well_formed(tokens, i + 1, call);
        }
        lemma_withs_well_formed(tokens, i + with_len(withs[0]), withs.drop_first());
    }
    assert forall|k: int| 0 <= k < withs.len() implies (#[trigger] withs[k]).well_formed() by {
        if k > 0 {
            assert(withs[k] == withs.drop_first()[k - 1]);
        }
    }
}

/// The calls of a block that are written in the stream are well formed.
pub proof fn lemma_block_well_formed(tokens: Seq<TokenView>, i: nat, calls: Seq<CallWithView>)
    requires
        block_calls_at(tokens, i, calls),
    ensures
        block_well_formed(calls),
    decreases calls.len(),
{
    if calls.len() > 0 {
        lemma_call_well_formed(tokens, i, calls[0].call);
        lemma_withs_well_formed(tokens, i + call_len(calls[0].call), calls[0].with);
        lemma_block_well_formed(tokens, i + call_with_len(calls[0]), calls.drop_first());
    }
    assert forall|k: int| 0 <= k < calls.len() implies (#[trigger] calls[k]).well_formed() by {
        if k > 0 {
            assert(calls[k] == calls.drop_first()[k - 1]);
        }
    }
}

/// Statements that are written in the stream are well formed.
pub proof fn lemma_statements_well_formed(
    tokens: Seq<TokenView>,
    i: nat,
    statements: Seq<StatementView>,
)
    requires
        statements_at(tokens, i, statements),
    ensures
        forall|k: int| 0 <= k < statements.len() ==> (#[trigger] statements[k]).well_formed(),
    decreases statements.len(),
{
    if statements.len() > 0 {
        match statements[0] {
            StatementView::Measure(calls) => {
                lemma_block_well_formed(tokens, i + 2, calls);
            },
            StatementView::Call(call) => {
                lemma_call_well_formed(tokens, i, call);
            },
        }
        lemma_statements_well_formed(
            tokens,
            i + statement_len(statements[0]),
            statements.drop_first(),
        );
    }
    assert forall|k: int| 0 <= k < statements.len() implies (
    #[trigger] statements[k]).well_formed() by {
        if k > 0 {
            assert(statements[k] == statements.drop_first()[k - 1]);
        }
    }
}

/// A staff that is written in the stream is well formed.
pub proof fn lemma_staff_well_formed(tokens: Seq<TokenView>, i: nat, staff: StaffView)
    requires
        staff_at(tokens, i, staff),
    ensures
        staff.well_formed(),
{
    let body = i + 5 + call_len(staff.staff_type);
    lemma_call_well_formed(tokens, i + 3, staff.staff_type);
    if let Some(calls) = staff.pickup {
        lemma_block_well_formed(tokens, body + 3, calls);
    }
    lemma_statements_well_formed(tokens, body + 1 + pickup_len(staff.pickup), staff.statements);
}

/// Staffs that are written in the stream are well formed.
pub proof fn lemma_staffs_well_formed(tokens: Seq<TokenView>, i: nat, staffs: Seq<StaffView>)
    requires
        staffs_at(tokens, i, staffs),
    ensures
        forall|k: int| 0 <= k < staffs.len() ==> (#[trigger] staffs[k]).well_formed(),
    decreases staffs.len(),
{
    if staffs.len() > 0 {
        lemma_staff_well_formed(tokens, i, staffs[0]);
        lemma_staffs_well_formed(tokens, i + staff_len(staffs[0]), staffs.drop_first());
    }
    assert forall|k: int| 0 <= k < staffs.len() implies (#[trigger] staffs[k]).well_formed() by {
        if k > 0 {
            assert(staffs[k] == staffs.drop_first()[k - 1]);
        }
    }
}

/// Names that are written in the stream are identifiers.
pub proof fn lemma_names_well_formed(tokens: Seq<TokenView>, i: nat, names: Seq<TokenView>)
    requires
        names_at(tokens, i, names),
    ensures
        forall|k: int| 0 <= k < names.len() ==> (#[trigger] names[k]) is Identifier,
    decreases names.len(),
{
    if names.len() > 1 {
        lemma_names_well_formed(tokens, i + 2, names.drop_first());
    }
    assert forall|k: int| 0 <= k < names.len() implies (#[trigger] names[k]) is Identifier by {
        if k > 0 {
            assert(names[k] == names.drop_first()[k - 1]);
        }
    }
}

/// Imports that are written in the stream are well formed.
pub proof fn lemma_imports_well_formed(tokens: Seq<TokenView>, i: nat, imports: Seq<ImportView>)
    requires
        imports_at(tokens, i, imports),
    ensures
        forall|k: int| 0 <= k < imports.len() ==> (#[trigger] imports[k]).well_formed(),
    decreases imports.len(),
{
    if imports.len() > 0 {
        lemma_names_well_formed(tokens, i + 2, imports[0].items);
        lemma_imports_well_formed(tokens, i + import_len(imports[0]), imports.drop_first());
    }
    assert forall|k: int| 0 <= k < imports.len() implies (#[trigger] imports[k]).well_formed() by {
        if k > 0 {
            assert(imports[k] == imports.drop_first()[k - 1]);
        }
    }
}

/// Calls that are written in the stream are well formed.
pub proof fn lemma_calls_well_formed(tokens: Seq<TokenView>, i: nat, calls: Seq<CallView>)
    requires
        calls_at(tokens, i, calls),
    ensures
        forall|k: int| 0 <= k < calls.len() ==> (#[trigger] calls[k]).well_formed(),
    decreases calls.len(),
{
    if calls.len() > 0 {
        lemma_call_well_formed(tokens, i, calls[0]);
        lemma_calls_well_formed(tokens, i + call_len(calls[0]), calls.drop_first());
    }
    assert forall|k: int| 0 <= k < calls.len() implies (#[trigger] calls[k]).well_formed() by {
        if k > 0 {
            assert(calls[k] == calls.drop_first()[k - 1]);
        }
    }
}

/// A program that is written in the stream is well formed.
pub proof fn lemma_program_well_formed(tokens: Seq<TokenView>, i: nat, program: ProgramView)
    requires
        program_at(tokens, i, program),
    ensures
        program.well_formed(),
{
    let meta = i + imports_len(program.imports);
    lemma_imports_well_formed(tokens, i, program.imports);
    lemma_calls_well_formed(tokens, meta + 2, program.meta);
    lemma_staffs_well_formed(tokens, meta + meta_len(program.meta), program.declarations);
}

/// The parser finds a call exactly where one is written.
pub proof fn lemma_call_exact(tokens: Seq<TokenView>, c: Cursor)
    ensures
        forall|node: CallView|
            #![trigger call_at(tokens, c.pos, node)]
            rules::call(tokens, c).1 == Some(Ok::<CallView, ParseError>(node))
                <==> call_at(tokens, c.pos, node),
{
    lemma_call_sound(tokens, c);
    assert forall|node: CallView|
        #![trigger call_at(tokens, c.pos, node)]
        rules::call(tokens, c).1 == Some(Ok::<CallView, ParseError>(node))
            <==> call_at(tokens, c.pos, node) by {
        if call_at(tokens, c.pos, node) {
            lemma_call_complete(tokens, c, node);
        }
    }
}

/// The parser finds an import exactly where one is written.
pub proof fn lemma_import_exact(tokens: Seq<TokenView>, c: Cursor)
    ensures
        forall|node: ImportView|
            #![trigger import_at(tokens, c.pos, node)]
            rules::import(tokens, c).1 == Some(Ok::<ImportView, ParseError>(node))
                <==> import_at(tokens, c.pos, node),
{
    lemma_import_sound(tokens, c);
    assert forall|node: ImportView|
        #![trigger import_at(tokens, c.pos, node)]
        rules::import(tokens, c).1 == Some(Ok::<ImportView, ParseError>(node))
            <==> import_at(tokens, c.pos, node) by {
        if import_at(tokens, c.pos, node) {
            lemma_import_complete(tokens, c, node);
        }
    }
}

/// The parser finds a staff exactly where one is written.
pub proof fn lemma_staff_exact(tokens: Seq<TokenView>, c: Cursor)
    ensures
        forall|node: StaffView|
            #![trigger staff_at(tokens, c.pos, node)]
            rules::staff(tokens, c).1 == Some(Ok::<StaffView, ParseError>(node))
                <==> staff_at(tokens, c.pos, node),
{
    lemma_staff_sound(tokens, c);
    assert forall|node: StaffView|
        #![trigger staff_at(tokens, c.pos, node)]
        rules::staff(tokens, c).1 == Some(Ok::<StaffView, ParseError>(node))
            <==> staff_at(tokens, c.pos, node) by {
        if staff_at(tokens, c.pos, node) {
            lemma_staff_complete(tokens, c, node);
        }
    }
}

/// The parser finds a declaration exactly where one is written.
pub proof fn lemma_declaration_exact(tokens: Seq<TokenView>, c: Cursor)
    ensures
        forall|node: StaffView|
            #![trigger staff_at(tokens, c.pos, node)]
            rules::declaration(tokens, c).1 == Some(Ok::<StaffView, ParseError>(node))
                <==> staff_at(tokens, c.pos, node),
{
    lemma_staff_sound(tokens, c);
    assert forall|node: StaffView|
        #![trigger staff_at(tokens, c.pos, node)]
        rules::declaration(tokens, c).1 == Some(Ok::<StaffView, ParseError>(node))
            <==> staff_at(tokens, c.pos, node) by {
        if staff_at(tokens, c.pos, node) {
            lemma_staff_complete(tokens, c, node);
        }
    }
}

/// The parser finds a block exactly where one is written.
pub proof fn lemma_block_exact(tokens: Seq<TokenView>, c: Cursor)
    ensures
        forall|node: Seq<CallWithView>|
            #![trigger block_at(tokens, c.pos, node)]
            rules::block(tokens, c).1 == Ok::<Seq<CallWithView>, ParseError>(node)
                <==> block_at(tokens, c.pos, node),
{
    lemma_block_sound(tokens, c);
    assert forall|node: Seq<CallWithView>|
        #![trigger block_at(tokens, c.pos, node)]
        rules::block(tokens, c).1 == Ok::<Seq<CallWithView>, ParseError>(node)
            <==> block_at(tokens, c.pos, node) by {
        if block_at(tokens, c.pos, node) {
            lemma_block_complete(tokens, c, node);
        }
    }
}

/// The parser finds a meta block exactly where one is written.
pub proof fn lemma_meta_exact(tokens: Seq<TokenView>, c: Cursor)
    ensures
        forall|node: Seq<CallView>|
            #![trigger meta_at(tokens, c.pos, node)]
            rules::meta(tokens, c).1 == Ok::<Seq<CallView>, ParseError>(node)
                <==> meta_at(tokens, c.pos, node),
{
    lemma_meta_sound(tokens, c);
    assert forall|node: Seq<CallView>|
        #![trigger meta_at(tokens, c.pos, node)]
        rules::meta(tokens, c).1 == Ok::<Seq<CallView>, ParseError>(node)
            <==> meta_at(tokens, c.pos, node) by {
        if meta_at(tokens, c.pos, node) {
            lemma_meta_complete(tokens, c, node);
        }
    }
}

/// The parser finds a statement exactly where one is written.
pub proof fn lemma_staff_statement_exact(tokens: Seq<TokenView>, c: Cursor)
    ensures
        forall|node: StatementView|
            #![trigger statement_at(tokens, c.pos, node)]
            rules::staff_statement(tokens, c).1 == Some(Ok::<StatementView, ParseError>(node))
                <==> statement_at(tokens, c.pos, node),
{
    lemma_statement_sound(tokens, c);
    assert forall|node: StatementView|
        #![trigger statement_at(tokens, c.pos, node)]
        rules::staff_statement(tokens, c).1 == Some(Ok::<StatementView, ParseError>(node))
            <==> statement_at(tokens, c.pos, node) by {
        if statement_at(tokens, c.pos, node) {
            lemma_statement_complete(tokens, c, node);
        }
    }
}

/// The parser finds a staff after its keyword exactly where one is written.
pub proof fn lemma_staff_inner_exact(tokens: Seq<TokenView>, c: Cursor)
    ensures
        forall|node: StaffView|
            #![trigger staff_inner_at(tokens, c.pos, node)]
            rules::staff_inner(tokens, c).1 == Ok::<StaffView, ParseError>(node)
                <==> staff_inner_at(tokens, c.pos, node),
{
    lemma_staff_inner_sound(tokens, c);
    assert forall|node: StaffView|
        #![trigger staff_inner_at(tokens, c.pos, node)]
        rules::staff_inner(tokens, c).1 == Ok::<StaffView, ParseError>(node)
            <==> staff_inner_at(tokens, c.pos, node) by {
        if staff_inner_at(tokens, c.pos, node) {
            lemma_staff_inner_complete(tokens, c, node);
        }
    }
}

/// The parser finds a pickup exactly where one is written.
pub proof fn lemma_pickup_exact(tokens: Seq<TokenView>, c: Cursor)
    ensures
        forall|calls: Seq<CallWithView>|
            #![trigger pickup_at(tokens, c.pos, Some(calls))]
            rules::pickup(tokens, c).1 == Some(Ok::<Seq<CallWithView>, ParseError>(calls))
                <==> pickup_at(tokens, c.pos, Some(calls)),
{
    lemma_block_sound(tokens, c.advance(tokens));
    assert forall|calls: Seq<CallWithView>|
        #![trigger pickup_at(tokens, c.pos, Some(calls))]
        rules::pickup(tokens, c).1 == Some(Ok::<Seq<CallWithView>, ParseError>(calls))
            <==> pickup_at(tokens, c.pos, Some(calls)) by {
        if pickup_at(tokens, c.pos, Some(calls)) {
            lemma_block_complete(tokens, c.advance(tokens), calls);
        }
    }
}

/// The parser finds a measure exactly where one is written.
pub proof fn lemma_measure_exact(tokens: Seq<TokenView>, c: Cursor)
    ensures
        forall|calls: Seq<CallWithView>|
            #![trigger statement_at(tokens, c.pos, StatementView::Measure(calls))]
            rules::measure(tokens, c).1 == Some(Ok::<Seq<CallWithView>, ParseError>(calls))
                <==> statement_at(tokens, c.pos, StatementView::Measure(calls)),
{
    lemma_block_sound(tokens, c.advance(tokens));
    assert forall|calls: Seq<CallWithView>|
        #![trigger statement_at(tokens, c.pos, StatementView::Measure(calls))]
        rules::measure(tokens, c).1 == Some(Ok::<Seq<CallWithView>, ParseError>(calls))
            <==> statement_at(tokens, c.pos, StatementView::Measure(calls)) by {
        if statement_at(tokens, c.pos, StatementView::Measure(calls)) {
            lemma_block_complete(tokens, c.advance(tokens), calls);
        }
    }
}

/// A call with modifiers that the parser finds is written where it began to
/// read; and one that is written there, with neither `with` nor an opening
/// parenthesis after it, is the one that the parser finds.
pub proof fn lemma_call_with_exact(tokens: Seq<TokenView>, c: Cursor)
    ensures
        forall|node: CallWithView|
            #![trigger call_with_at(tokens, c.pos, node)]
            {
                &&& rules::call_with(tokens, c).1 == Some(Ok::<CallWithView, ParseError>(node))
                    ==> call_with_at(tokens, c.pos, node)
                &&& call_with_at(tokens, c.pos, node) && !keyword_at(
                    tokens,
                    c.pos + call_with_len(node),
                    Keyword::With,
                ) && !separator_at(tokens, c.pos + call_with_len(node), Separator::LParan)
                    ==> rules::call_with(tokens, c).1 == Some(
                    Ok::<CallWithView, ParseError>(node),
                )
            },
{
    lemma_call_with_sound(tokens, c);
    assert forall|node: CallWithView|
        #![trigger call_with_at(tokens, c.pos, node)]
        call_with_at(tokens, c.pos, node) && !keyword_at(
            tokens,
            c.pos + call_with_len(node),
            Keyword::With,
        ) && !separator_at(tokens, c.pos + call_with_len(node), Separator::LParan)
            implies rules::call_with(tokens, c).1 == Some(
        Ok::<CallWithView, ParseError>(node),
    ) by {
        lemma_call_with_complete(tokens, c, node);
    }
}

/// The parser finds a program exactly where one is written and no staff
/// begins after it.
pub proof fn lemma_parse_inner_exact(tokens: Seq<TokenView>, c: Cursor)
    ensures
        forall|program: ProgramView|
            #![trigger program_at(tokens, c.pos, program)]
            rules::parse_inner(tokens, c).1 == Ok::<ProgramView, ParseError>(program) <==> {
                &&& program_at(tokens, c.pos, program)
                &&& !keyword_at(tokens, c.pos + program_len(program), Keyword::Staff)
            },
{
    lemma_program_sound(tokens, c);
    assert forall|program: ProgramView|
        #![trigger program_at(tokens, c.pos, program)]
        rules::parse_inner(tokens, c).1 == Ok::<ProgramView, ParseError>(program) <==> {
            &&& program_at(tokens, c.pos, program)
            &&& !keyword_at(tokens, c.pos + program_len(program), Keyword::Staff)
        } by {
        if program_at(tokens, c.pos, program) && !keyword_at(
            tokens,
            c.pos + program_len(program),
            Keyword::Staff,
        ) {
            lemma_program_complete(tokens, c, program);
        }
    }
}

} // verus!
