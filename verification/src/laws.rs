//! What holds of every parse, whatever the source text.

use crate::errors::ParseError;
use crate::grammar::{
    import_at, imports_at, imports_len, is_program, keyword_at, lemma_imports_complete,
    lemma_names_in_order, lemma_program_complete, lemma_program_sound,
    lemma_program_well_formed, name_in_place, program_at,
    program_len, separator_at,
};
use crate::lexer::{
    lemma_place_before_state, lemma_state_after_in_order, state_after, tokenize, ScanState,
};
use crate::nodes::{CallView, ImportView, ProgramView};
use crate::rules;
use crate::rules::Cursor;
use crate::tokens::{Keyword, Location, Separator, TokenType, TokenView};
use vstd::prelude::*;

verus! {

/// The parser accepts exactly the grammar: a parse gives a program if and
/// only if the stream, from the cursor on, begins with what that program is
/// written with, and no staff begins right after it.
pub proof fn parse_accepts_the_grammar(tokens: Seq<TokenView>, c: Cursor, program: ProgramView)
    ensures
        rules::parse(tokens, c).1 == Ok::<ProgramView, (ParseError, Location)>(program)
            <==> program_at(tokens, c.pos, program) && !keyword_at(
            tokens,
            c.pos + program_len(program),
            Keyword::Staff,
        ),
{
    lemma_program_sound(tokens, c);
    if program_at(tokens, c.pos, program) && !keyword_at(
        tokens,
        c.pos + program_len(program),
        Keyword::Staff,
    ) {
        lemma_program_complete(tokens, c, program);
    }
}

/// Every program that a parse gives is well formed: no list that must hold
/// something is empty, and every token is of the category that its place in
/// the tree asks for.
pub proof fn parsed_program_is_well_formed(tokens: Seq<TokenView>, c: Cursor)
    ensures
        rules::parse(tokens, c).1 matches Ok(program) ==> program.well_formed(),
        rules::parse_inner(tokens, c).1 matches Ok(program) ==> program.well_formed(),
{
    lemma_program_sound(tokens, c);
    if let Ok(program) = rules::parse_inner(tokens, c).1 {
        lemma_program_well_formed(tokens, c.pos, program);
    }
}

/// Every valid program parses: where the whole token stream is written by a
/// program, the parse gives that program, and the cursor ends on the last
/// token.
pub proof fn valid_program_parses(tokens: Seq<TokenView>, program: ProgramView)
    requires
        is_program(tokens, program),
    ensures
        rules::parse(tokens, Cursor::start()).1 == Ok::<ProgramView, (ParseError, Location)>(
            program,
        ),
        rules::parse(tokens, Cursor::start()).0.pos == tokens.len(),
{
    lemma_program_complete(tokens, Cursor::start(), program);
}

/// No token stream is written by two programs.
pub proof fn program_is_unique(tokens: Seq<TokenView>, one: ProgramView, other: ProgramView)
    requires
        is_program(tokens, one),
        is_program(tokens, other),
    ensures
        one == other,
{
    valid_program_parses(tokens, one);
    valid_program_parses(tokens, other);
}

/// The index in the stream at which import `k` of a list read from the start
/// begins.
pub open spec fn import_start(imports: Seq<ImportView>, k: int) -> nat {
    imports_len(imports.take(k))
}

/// The imports of a list that is written in the stream stand there one after
/// the other, in the order of the list.
pub proof fn lemma_imports_in_order(
    tokens: Seq<TokenView>,
    i: nat,
    imports: Seq<ImportView>,
    k: int,
)
    requires
        imports_at(tokens, i, imports),
        0 <= k < imports.len(),
    ensures
        import_at(tokens, i + import_start(imports, k), imports[k]),
        k + 1 < imports.len() ==> import_start(imports, k) < import_start(imports, k + 1),
    decreases k,
{
    let rest = imports.drop_first();
    assert(imports.take(0) =~= Seq::<ImportView>::empty());
    assert(imports.take(1) =~= seq![imports[0]]);
    assert(imports.take(1).drop_first() =~= Seq::<ImportView>::empty());
    if k > 0 {
        lemma_imports_in_order(tokens, i + crate::grammar::import_len(imports[0]), rest, k - 1);
        assert(imports.take(k).drop_first() =~= rest.take(k - 1));
        assert(imports.take(k + 1).drop_first() =~= rest.take(k));
        assert(imports.take(k)[0] == imports[0]);
        assert(imports.take(k + 1)[0] == imports[0]);
    } else if k + 1 < imports.len() {
        assert(imports.take(k + 1).drop_first() =~= rest.take(k));
    }
}

/// Imports keep the order and the spelling of the source: in a program that
/// was parsed, name `j` of import `k` is the token that stands in the stream
/// two tokens after the name before it, and the imports stand in the stream
/// in the order of the list.
pub proof fn imports_keep_order_and_spelling(
    tokens: Seq<TokenView>,
    program: ProgramView,
    k: int,
    j: int,
)
    requires
        rules::parse(tokens, Cursor::start()).1 == Ok::<ProgramView, (ParseError, Location)>(
            program,
        ),
        0 <= k < program.imports.len(),
        0 <= j < program.imports[k].items.len(),
    ensures
        import_at(tokens, import_start(program.imports, k), program.imports[k]),
        name_in_place(
            tokens,
            import_start(program.imports, k) + 2,
            program.imports[k].items,
            j,
        ),
        k + 1 < program.imports.len() ==> import_start(program.imports, k) < import_start(
            program.imports,
            k + 1,
        ),
{
    lemma_program_sound(tokens, Cursor::start());
    lemma_imports_in_order(tokens, 0, program.imports, k);
    lemma_names_in_order(
        tokens,
        import_start(program.imports, k) + 2,
        program.imports[k].items,
    );
}

/// A meta block without a call is refused as such, whatever stands around
/// it: after any imports, `meta`, `{` and `}` make the parse fail with
/// [`ParseError::EmptyMeta`], at the place of the opening brace.
pub proof fn empty_meta_is_refused(tokens: Seq<TokenView>, c: Cursor, imports: Seq<ImportView>)
    requires
        imports_at(tokens, c.pos, imports),
        keyword_at(tokens, c.pos + imports_len(imports), Keyword::Meta),
        separator_at(tokens, c.pos + imports_len(imports) + 1, Separator::LCurly),
        separator_at(tokens, c.pos + imports_len(imports) + 2, Separator::RCurly),
    ensures
        rules::parse(tokens, c).1 == Err::<ProgramView, (ParseError, Location)>(
            (ParseError::EmptyMeta, tokens[c.pos + imports_len(imports) as int + 1].location()),
        ),
{
    reveal(rules::parse_inner);
    reveal(rules::meta);
    reveal(rules::meta_calls);
    reveal(rules::call);
    lemma_imports_complete(tokens, c, imports);
    let (c1, _) = rules::imports(tokens, c);
    let c3 = c1.advance(tokens).advance(tokens);
    rules::lemma_call(tokens, c3.mark());
}

/// What a parse gives, said of all programs and of all imports at once: the
/// grammar decides whether it gives a program, and which; and a meta block
/// without a call makes it fail.
pub proof fn lemma_parse_exact(tokens: Seq<TokenView>, c: Cursor)
    ensures
        forall|program: ProgramView|
            #![trigger program_at(tokens, c.pos, program)]
            rules::parse(tokens, c).1 == Ok::<ProgramView, (ParseError, Location)>(program) <==> {
                &&& program_at(tokens, c.pos, program)
                &&& !keyword_at(tokens, c.pos + program_len(program), Keyword::Staff)
            },
        forall|imports: Seq<ImportView>|
            #![trigger imports_at(tokens, c.pos, imports)]
            {
                let meta = c.pos + imports_len(imports);
                &&& imports_at(tokens, c.pos, imports)
                &&& keyword_at(tokens, meta, Keyword::Meta)
                &&& separator_at(tokens, meta + 1, Separator::LCurly)
                &&& separator_at(tokens, meta + 2, Separator::RCurly)
            } ==> rules::parse(tokens, c).1 == Err::<ProgramView, (ParseError, Location)>(
                (ParseError::EmptyMeta, tokens[c.pos + imports_len(imports) as int + 1].location()),
            ),
{
    assert forall|program: ProgramView|
        #![trigger program_at(tokens, c.pos, program)]
        rules::parse(tokens, c).1 == Ok::<ProgramView, (ParseError, Location)>(program) <==> {
            &&& program_at(tokens, c.pos, program)
            &&& !keyword_at(tokens, c.pos + program_len(program), Keyword::Staff)
        } by {
        parse_accepts_the_grammar(tokens, c, program);
    }
    assert forall|imports: Seq<ImportView>|
        #![trigger imports_at(tokens, c.pos, imports)]
        {
            let meta = c.pos + imports_len(imports);
            &&& imports_at(tokens, c.pos, imports)
            &&& keyword_at(tokens, meta, Keyword::Meta)
            &&& separator_at(tokens, meta + 1, Separator::LCurly)
            &&& separator_at(tokens, meta + 2, Separator::RCurly)
        } implies rules::parse(tokens, c).1 == Err::<ProgramView, (ParseError, Location)>(
        (ParseError::EmptyMeta, tokens[c.pos + imports_len(imports) as int + 1].location()),
    ) by {
        empty_meta_is_refused(tokens, c, imports);
    }
}

/// A failed parse reports the place of a token that was read: the token
/// before the one at which the parse failed. Where no token stands there, it
/// reports the start of the text.
pub proof fn failure_is_placed_at_a_token_that_was_read(tokens: Seq<TokenView>, c: Cursor)
    ensures
        rules::parse(tokens, c).1 matches Err((_, place)) ==> {
            let failed = rules::parse_inner(tokens, c).0;
            if 2 <= failed.pos <= tokens.len() + 1 {
                place == tokens[failed.pos - 2].location()
            } else {
                place == (Location { line: 1, col: 0 })
            }
        },
{
}

/// A failed parse of a text never reports a place behind the one where the
/// lexer stopped: what could not be lexed, and what was never read, lies at
/// or behind the place that is reported.
pub proof fn failure_is_placed_before_the_lexer_stopped(src: Seq<u8>, c: Cursor)
    requires
        src.len() <= isize::MAX,
    ensures
        rules::parse(tokenize(src), c).1 matches Err((_, place)) ==> place.at_or_before(
            state_after(src, ScanState::start(), tokenize(src).len()).place(),
        ),
{
    let tokens = tokenize(src);
    let start = ScanState::start();
    failure_is_placed_at_a_token_that_was_read(tokens, c);
    lemma_state_after_in_order(src, start, tokens.len());
    let failed = rules::parse_inner(tokens, c).0;
    if 2 <= failed.pos <= tokens.len() + 1 {
        lemma_place_before_state(src, start, (failed.pos - 2) as nat, tokens.len());
    }
}

/// Whether two cursors stand at the same position of a stream of which the
/// same tokens were pulled. Their checkpoints may differ.
pub open spec fn alike(a: Cursor, b: Cursor) -> bool {
    a.pos == b.pos && a.seen == b.seen
}

/// Whether two outcomes of a rule are the same but for the checkpoint.
pub open spec fn same_outcome<T>(a: (Cursor, T), b: (Cursor, T)) -> bool {
    a.1 == b.1 && alike(a.0, b.0)
}

/// The arguments of a call do not depend on the checkpoint.
pub proof fn arguments_ignore_checkpoint(tokens: Seq<TokenView>, a: Cursor, b: Cursor)
    requires
        alike(a, b),
    ensures
        same_outcome(rules::arguments(tokens, a), rules::arguments(tokens, b)),
    decreases tokens.len() - a.pos,
{
    reveal(rules::arguments);
    let (a1, first) = rules::argument(tokens, a);
    if first is Ok {
        let a2 = a1.advance(tokens);
        let b2 = rules::argument(tokens, b).0.advance(tokens);
        if !a2.on_separator(tokens, Separator::RParan) && a2.on_separator(
            tokens,
            Separator::Comma,
        ) {
            arguments_ignore_checkpoint(tokens, a2, b2);
        }
    }
}

/// A call does not depend on the checkpoint.
pub proof fn call_ignores_checkpoint(tokens: Seq<TokenView>, a: Cursor, b: Cursor)
    requires
        alike(a, b),
    ensures
        same_outcome(rules::call(tokens, a), rules::call(tokens, b)),
{
    reveal(rules::call);
    arguments_ignore_checkpoint(
        tokens,
        a.advance(tokens).advance(tokens),
        b.advance(tokens).advance(tokens),
    );
}

/// A call with its modifiers does not depend on the checkpoint.
pub proof fn call_with_ignores_checkpoint(tokens: Seq<TokenView>, a: Cursor, b: Cursor)
    requires
        alike(a, b),
    ensures
        same_outcome(rules::call_with(tokens, a), rules::call_with(tokens, b)),
{
    reveal(rules::call_with);
    reveal(rules::withs);
    call_ignores_checkpoint(tokens, a, b);
    let a1 = rules::call(tokens, a).0;
    let b1 = rules::call(tokens, b).0;
    assert(a1.advance(tokens).mark() == b1.advance(tokens).mark());
}

/// A block, a pickup and a measure do not depend on the checkpoint.
pub proof fn block_ignores_checkpoint(tokens: Seq<TokenView>, a: Cursor, b: Cursor)
    requires
        alike(a, b),
    ensures
        same_outcome(rules::block(tokens, a), rules::block(tokens, b)),
        same_outcome(rules::pickup(tokens, a), rules::pickup(tokens, b)),
        same_outcome(rules::measure(tokens, a), rules::measure(tokens, b)),
{
    reveal(rules::block);
    reveal(rules::block_calls);
    assert(a.advance(tokens).mark() == b.advance(tokens).mark());
    assert(a.advance(tokens).advance(tokens).mark() == b.advance(tokens).advance(tokens).mark());
}

/// The body of a staff does not depend on the checkpoint.
pub proof fn staff_body_ignores_checkpoint(
    tokens: Seq<TokenView>,
    a: Cursor,
    b: Cursor,
    identifier: TokenView,
    staff_type: CallView,
    signature: TokenView,
)
    requires
        alike(a, b),
    ensures
        same_outcome(
            rules::staff_body(tokens, a, identifier, staff_type, signature),
            rules::staff_body(tokens, b, identifier, staff_type, signature),
        ),
{
    reveal(rules::staff_body);
    assert(a.advance(tokens).mark() == b.advance(tokens).mark());
}

/// The part of a staff after its keyword does not depend on the checkpoint.
pub proof fn staff_inner_ignores_checkpoint(tokens: Seq<TokenView>, a: Cursor, b: Cursor)
    requires
        alike(a, b),
    ensures
        same_outcome(rules::staff_inner(tokens, a), rules::staff_inner(tokens, b)),
{
    reveal(rules::staff_inner);
    let (a1, name) = rules::next_kind(tokens, a, TokenType::Identifier);
    let (b1, _) = rules::next_kind(tokens, b, TokenType::Identifier);
    let a2 = a1.advance(tokens);
    let b2 = b1.advance(tokens);
    call_ignores_checkpoint(tokens, a2, b2);
    let (a3, kind) = rules::call(tokens, a2);
    let (b3, _) = rules::call(tokens, b2);
    let a4 = a3.advance(tokens);
    let b4 = b3.advance(tokens);
    let (a5, time) = rules::next_kind(tokens, a4, TokenType::Signature);
    let (b5, _) = rules::next_kind(tokens, b4, TokenType::Signature);
    if let (Ok(identifier), Some(Ok(staff_type)), Ok(signature)) = (name, kind, time) {
        staff_body_ignores_checkpoint(tokens, a5, b5, identifier, staff_type, signature);
    }
}

/// A staff and a declaration do not depend on the checkpoint.
pub proof fn staff_ignores_checkpoint(tokens: Seq<TokenView>, a: Cursor, b: Cursor)
    requires
        alike(a, b),
    ensures
        same_outcome(rules::staff(tokens, a), rules::staff(tokens, b)),
        same_outcome(rules::declaration(tokens, a), rules::declaration(tokens, b)),
{
    staff_inner_ignores_checkpoint(tokens, a.advance(tokens), b.advance(tokens));
}

/// The names of an import do not depend on the checkpoint.
pub proof fn import_items_ignore_checkpoint(tokens: Seq<TokenView>, a: Cursor, b: Cursor)
    requires
        alike(a, b),
    ensures
        same_outcome(rules::import_items(tokens, a), rules::import_items(tokens, b)),
    decreases tokens.len() - a.pos,
{
    reveal(rules::import_items);
    let (a1, first) = rules::next_kind(tokens, a, TokenType::Identifier);
    if first is Ok {
        let a2 = a1.advance(tokens);
        let b2 = b.advance(tokens).advance(tokens);
        if !a2.on_separator(tokens, Separator::RCurly) && a2.on_separator(
            tokens,
            Separator::Comma,
        ) {
            import_items_ignore_checkpoint(tokens, a2, b2);
        }
    }
}

/// An import does not depend on the checkpoint.
pub proof fn import_ignores_checkpoint(tokens: Seq<TokenView>, a: Cursor, b: Cursor)
    requires
        alike(a, b),
    ensures
        same_outcome(rules::import(tokens, a), rules::import(tokens, b)),
{
    reveal(rules::import);
    import_items_ignore_checkpoint(
        tokens,
        a.advance(tokens).advance(tokens),
        b.advance(tokens).advance(tokens),
    );
}

/// The meta block does not depend on the checkpoint.
pub proof fn meta_ignores_checkpoint(tokens: Seq<TokenView>, a: Cursor, b: Cursor)
    requires
        alike(a, b),
    ensures
        same_outcome(rules::meta(tokens, a), rules::meta(tokens, b)),
{
    reveal(rules::meta);
    reveal(rules::meta_calls);
    assert(a.advance(tokens).advance(tokens).mark() == b.advance(tokens).advance(tokens).mark());
}

/// A rule that begins by keeping a checkpoint does the same from two cursors
/// that differ in their checkpoint only, and leaves the same cursor behind:
/// so do a statement, a whole program and a whole parse.
pub proof fn parse_ignores_checkpoint(tokens: Seq<TokenView>, a: Cursor, b: Cursor)
    requires
        alike(a, b),
    ensures
        rules::staff_statement(tokens, a) == rules::staff_statement(tokens, b),
        rules::parse_inner(tokens, a) == rules::parse_inner(tokens, b),
        rules::parse(tokens, a) == rules::parse(tokens, b),
{
    reveal(rules::staff_statement);
    reveal(rules::parse_inner);
    reveal(rules::imports);
    assert(a.mark() == b.mark());
}

/// Keeping a checkpoint and going back to it at once changes nothing: the
/// cursor stands where it stood, on the same token, and a parse from there
/// does what it would have done.
pub proof fn checkpoint_then_restore_is_no_op(tokens: Seq<TokenView>, c: Cursor)
    ensures
        alike(c.mark().rewind(), c),
        c.mark().rewind().token(tokens) == c.token(tokens),
        rules::parse_inner(tokens, c.mark().rewind()) == rules::parse_inner(tokens, c),
        rules::parse(tokens, c.mark().rewind()) == rules::parse(tokens, c),
{
    parse_ignores_checkpoint(tokens, c.mark().rewind(), c);
}

} // verus!
