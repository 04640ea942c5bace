//! The parser: a token cursor that can go back, over a lexer that cannot, and
//! one method for each rule of the grammar.
//!
//! Every method does what the function of the same name in [`crate::rules`]
//! says, on the token stream of the source and the parser's cursor.

use crate::errors::{ParseError, ParseFinalError, ParseFinalResult, ParseResult};
use crate::grammar::{
    block_at, call_at, call_with_at, call_with_len, import_at, imports_at, imports_len,
    keyword_at, lemma_block_exact, lemma_call_exact, lemma_call_with_exact,
    lemma_declaration_exact, lemma_import_exact, lemma_measure_exact, lemma_meta_exact,
    lemma_parse_inner_exact, lemma_pickup_exact, lemma_program_sound,
    lemma_program_well_formed, lemma_staff_exact, lemma_staff_inner_exact,
    lemma_staff_statement_exact, meta_at, pickup_at, program_at, program_len, separator_at,
    staff_at, staff_inner_at, statement_at,
};
use crate::laws::{lemma_parse_exact, parsed_program_is_well_formed};
use crate::lexer::Lexer;
use crate::nodes::{
    lemma_views_empty, lemma_views_push, views, ArgumentNode, BlockNode, CallNode, CallWithNode,
    CallView, CallWithView, DeclarationNode, ImportDeclarationNode, ImportView, MeasureNode,
    MetaDeclarationNode, PickupNode, ProgramNode, ProgramView, StaffDeclarationNode,
    StaffStatementNode, StaffView, StatementView, WithNode,
};
use crate::rules;
use crate::rules::{
    final_view, lemma_prepend, lemma_prepend_last, lemma_prepend_none, lemma_prepend_one,
    list_view, option_view, prepend, result_view, Cursor,
};
use crate::tokens::{Keyword, Location, Separator, Token, TokenType, TokenView};
use vstd::prelude::*;

verus! {

/// A parser over one source text.
///
/// Tokens are pulled from the lexer one at a time and kept, so that the
/// cursor can go back to any of them.
pub struct Parser<'src> {
    save_point: usize,
    pos: usize,
    tokens: Vec<Token<'src>>,
    lexer: Lexer<'src>,
}

impl<'src> Parser<'src> {
    /// The whole token stream: the tokens that were pulled already, and then
    /// those that the lexer has yet to hand out.
    pub closed spec fn stream(&self) -> Seq<TokenView> {
        views(self.tokens@) + self.lexer.pending()
    }

    /// Where the parser stands in its stream.
    pub closed spec fn cursor(&self) -> Cursor {
        Cursor { pos: self.pos as nat, save: self.save_point as nat, seen: self.tokens@.len() }
    }

    /// Whether a position can be read without pulling more than one token.
    spec fn in_reach(&self, pos: usize) -> bool {
        pos <= self.tokens@.len() || (pos == self.tokens@.len() + 1 && self.lexer.pending().len()
            == 0)
    }

    /// What holds of every parser: the cursor and the checkpoint stand on
    /// tokens that were pulled, or right behind the end of the stream.
    pub closed spec fn wf(&self) -> bool {
        &&& self.lexer.wf()
        &&& self.tokens@.len() + self.lexer.text().len() - self.lexer.state().pos <= isize::MAX
        &&& self.in_reach(self.pos)
        &&& self.in_reach(self.save_point)
    }

    /// In every parser the tokens that were pulled are part of the stream, and
    /// the cursor and the checkpoint stand on one of them, or before the
    /// first, or right behind the last; behind the last they stand only when
    /// the stream has ended there.
    pub proof fn lemma_cursor_in_stream(&self)
        requires
            self.wf(),
        ensures
            self.cursor().seen <= self.stream().len(),
            self.cursor().pos <= self.cursor().seen + 1,
            self.cursor().save <= self.cursor().seen + 1,
            self.cursor().pos > self.cursor().seen || self.cursor().save > self.cursor().seen
                ==> self.cursor().seen == self.stream().len(),
    {
    }

    /// A parser at the start of what `lexer` has yet to hand out.
    pub fn new(lexer: Lexer<'src>) -> (parser: Self)
        requires
            lexer.wf(),
        ensures
            parser.wf(),
            parser.stream() == lexer.pending(),
            parser.cursor() == Cursor::start(),
    {
        let parser = Self { save_point: 0, pos: 0, tokens: Vec::new(), lexer };
        proof {
            assert(views(parser.tokens@) =~= Seq::<TokenView>::empty());
            assert(parser.stream() =~= lexer.pending());
        }
        parser
    }

    /// Moves to the next token and returns it, pulling it from the lexer if it
    /// was not read before. Where the stream has ended, the cursor stands
    /// right behind it afterwards, and there it stays.
    pub fn next(&mut self) -> (token: ParseResult<Token<'src>>)
        requires
            old(self).wf(),
        ensures
            final(self).wf(),
            final(self).stream() == old(self).stream(),
            final(self).cursor() == old(self).cursor().advance(old(self).stream()),
            result_view(token) == final(self).cursor().token(final(self).stream()),
    {
        if self.pos < self.tokens.len() {
            self.pos = self.pos + 1;
            return Ok(self.tokens[self.pos - 1]);
        }
        if self.pos > self.tokens.len() {
            return Err(ParseError::Unknown);
        }
        let ghost before = self.stream();
        match self.lexer.lex() {
            Some(token) => {
                proof {
                    lemma_views_push(self.tokens@, token);
                }
                self.tokens.push(token);
                self.pos = self.pos + 1;
                assert(self.stream() =~= before);
                Ok(token)
            },
            None => {
                self.pos = self.pos + 1;
                assert(self.stream() =~= before);
                Err(ParseError::Unknown)
            },
        }
    }

    /// Moves one token back and returns the token that is then the current
    /// one. Nothing is pulled from the lexer.
    pub fn prev(&mut self) -> (token: ParseResult<Token<'src>>)
        requires
            old(self).wf(),
        ensures
            final(self).wf(),
            final(self).stream() == old(self).stream(),
            final(self).cursor() == old(self).cursor().retreat(),
            result_view(token) == final(self).cursor().token(final(self).stream()),
    {
        if self.pos > 0 {
            self.pos = self.pos - 1;
        }
        self.peek()
    }

    /// Keeps the position of the cursor as the checkpoint. There is one
    /// checkpoint only: an earlier one is lost.
    pub fn quicksave(&mut self)
        requires
            old(self).wf(),
        ensures
            final(self).wf(),
            final(self).stream() == old(self).stream(),
            final(self).cursor() == old(self).cursor().mark(),
    {
        self.save_point = self.pos;
    }

    /// Moves the cursor back to the checkpoint.
    pub fn restore(&mut self)
        requires
            old(self).wf(),
        ensures
            final(self).wf(),
            final(self).stream() == old(self).stream(),
            final(self).cursor() == old(self).cursor().rewind(),
    {
        self.pos = self.save_point;
    }

    /// The current token: the one that was read last. There is none before
    /// the first token was read and behind the end of the stream.
    pub fn peek(&self) -> (token: ParseResult<Token<'src>>)
        requires
            self.wf(),
        ensures
            result_view(token) == self.cursor().token(self.stream()),
    {
        if 1 <= self.pos && self.pos <= self.tokens.len() {
            Ok(self.tokens[self.pos - 1])
        } else {
            Err(ParseError::Unknown)
        }
    }

    /// Reads one token, which must be a literal.
    pub fn next_literal(&mut self) -> (token: ParseResult<Token<'src>>)
        requires
            old(self).wf(),
        ensures
            final(self).wf(),
            final(self).stream() == old(self).stream(),
            old(self).cursor().seen <= final(self).cursor().seen,
            (final(self).cursor(), result_view(token)) == rules::next_kind(
                old(self).stream(),
                old(self).cursor(),
                TokenType::Literal,
            ),
    {
        match self.next() {
            Ok(Token::Literal(text, place)) => Ok(Token::Literal(text, place)),
            _ => Err(ParseError::ExpectedType(TokenType::Literal)),
        }
    }

    /// Reads one token, which must be an identifier.
    pub fn next_identifier(&mut self) -> (token: ParseResult<Token<'src>>)
        requires
            old(self).wf(),
        ensures
            final(self).wf(),
            final(self).stream() == old(self).stream(),
            old(self).cursor().seen <= final(self).cursor().seen,
            (final(self).cursor(), result_view(token)) == rules::next_kind(
                old(self).stream(),
                old(self).cursor(),
                TokenType::Identifier,
            ),
    {
        match self.next() {
            Ok(Token::Identifier(text, place)) => Ok(Token::Identifier(text, place)),
            _ => Err(ParseError::ExpectedType(TokenType::Identifier)),
        }
    }

    /// Reads one token, which must be a time signature.
    pub fn next_signature(&mut self) -> (token: ParseResult<Token<'src>>)
        requires
            old(self).wf(),
        ensures
            final(self).wf(),
            final(self).stream() == old(self).stream(),
            old(self).cursor().seen <= final(self).cursor().seen,
            (final(self).cursor(), result_view(token)) == rules::next_kind(
                old(self).stream(),
                old(self).cursor(),
                TokenType::Signature,
            ),
    {
        match self.next() {
            Ok(Token::Signature(top, bottom, place)) => Ok(Token::Signature(top, bottom, place)),
            _ => Err(ParseError::ExpectedType(TokenType::Signature)),
        }
    }

    /// Moves to the next token and says whether it is the given separator.
    fn next_is_separator(&mut self, sep: Separator) -> (found: bool)
        requires
            old(self).wf(),
        ensures
            final(self).wf(),
            final(self).stream() == old(self).stream(),
            old(self).cursor().seen <= final(self).cursor().seen,
            final(self).cursor() == old(self).cursor().advance(old(self).stream()),
            found == final(self).cursor().on_separator(final(self).stream(), sep),
    {
        match self.next() {
            Ok(token) => token.is_separator(sep),
            Err(_) => false,
        }
    }

    /// Moves to the next token and says whether it is the given reserved word.
    fn next_is_keyword(&mut self, word: Keyword) -> (found: bool)
        requires
            old(self).wf(),
        ensures
            final(self).wf(),
            final(self).stream() == old(self).stream(),
            old(self).cursor().seen <= final(self).cursor().seen,
            final(self).cursor() == old(self).cursor().advance(old(self).stream()),
            found == final(self).cursor().on_keyword(final(self).stream(), word),
    {
        match self.next() {
            Ok(token) => token.is_keyword(word),
            Err(_) => false,
        }
    }

    /// Whether the current token is the given separator.
    fn peek_is_separator(&self, sep: Separator) -> (found: bool)
        requires
            self.wf(),
        ensures
            found == self.cursor().on_separator(self.stream(), sep),
    {
        match self.peek() {
            Ok(token) => token.is_separator(sep),
            Err(_) => false,
        }
    }

    /// The whole parse: the program, or the one failure together with the place
    /// of the token before the one that did not fit.
    ///
    /// The parse gives a program exactly if the stream is written by that
    /// program from the cursor on, and no staff begins after it; the program
    /// is then well formed. A meta block without a call makes the parse fail
    /// with [`ParseError::EmptyMeta`].
    pub fn parse(&mut self) -> (found: ParseFinalResult<ProgramNode<'src>>)
        requires
            old(self).wf(),
        ensures
            final(self).wf(),
            final(self).stream() == old(self).stream(),
            old(self).cursor().seen <= final(self).cursor().seen,
            (final(self).cursor(), final_view(found)) == rules::parse(
                old(self).stream(),
                old(self).cursor(),
            ),
            forall|program: ProgramView|
                #![trigger program_at(old(self).stream(), old(self).cursor().pos, program)]
                final_view(found) == Ok::<ProgramView, ParseFinalError>(program) <==> {
                    &&& program_at(old(self).stream(), old(self).cursor().pos, program)
                    &&& !keyword_at(
                        old(self).stream(),
                        old(self).cursor().pos + program_len(program),
                        Keyword::Staff,
                    )
                },
            found matches Ok(program) ==> program@.well_formed(),
            forall|imports: Seq<ImportView>|
                #![trigger imports_at(old(self).stream(), old(self).cursor().pos, imports)]
                {
                    let meta = old(self).cursor().pos + imports_len(imports);
                    &&& imports_at(old(self).stream(), old(self).cursor().pos, imports)
                    &&& keyword_at(old(self).stream(), meta, Keyword::Meta)
                    &&& separator_at(old(self).stream(), meta + 1, Separator::LCurly)
                    &&& separator_at(old(self).stream(), meta + 2, Separator::RCurly)
                } ==> final_view(found) == Err::<ProgramView, ParseFinalError>(
                    (
                        ParseError::EmptyMeta,
                        old(self).stream()[old(self).cursor().pos + imports_len(imports) as int
                            + 1].location(),
                    ),
                ),
    {
        proof {
            parsed_program_is_well_formed(self.stream(), self.cursor());
            lemma_parse_exact(self.stream(), self.cursor());
        }
        match self.parse_inner() {
            Ok(node) => Ok(node),
            Err(err) => {
                let place = match self.prev() {
                    Ok(token) => token.location(),
                    Err(_) => Location { line: 1, col: 0 },
                };
                Err((err, place))
            },
        }
    }

    /// Program := Import* Meta Declaration*
    pub fn parse_inner(&mut self) -> (found: ParseResult<ProgramNode<'src>>)
        requires
            old(self).wf(),
        ensures
            final(self).wf(),
            final(self).stream() == old(self).stream(),
            old(self).cursor().seen <= final(self).cursor().seen,
            (final(self).cursor(), result_view(found)) == rules::parse_inner(
                old(self).stream(),
                old(self).cursor(),
            ),
            forall|program: ProgramView|
                #![trigger program_at(old(self).stream(), old(self).cursor().pos, program)]
                result_view(found) == Ok::<ProgramView, ParseError>(program) <==> {
                    &&& program_at(old(self).stream(), old(self).cursor().pos, program)
                    &&& !keyword_at(
                        old(self).stream(),
                        old(self).cursor().pos + program_len(program),
                        Keyword::Staff,
                    )
                },
            found matches Ok(program) ==> program@.well_formed(),
    {
        let ghost tokens = self.stream();
        let ghost begin = self.cursor();
        proof {
            lemma_parse_inner_exact(tokens, begin);
            parsed_program_is_well_formed(tokens, begin);
            reveal(rules::parse_inner);
        }
        let imports = match self.imports() {
            Ok(imports) => imports,
            Err(err) => {
                return Err(err);
            },
        };
        let meta = match self.meta() {
            Ok(meta) => meta,
            Err(err) => {
                return Err(err);
            },
        };
        let declarations = match self.declarations() {
            Ok(declarations) => declarations,
            Err(err) => {
                return Err(err);
            },
        };
        let program = ProgramNode { imports, meta, declarations };
        proof {
            lemma_program_sound(tokens, begin);
            lemma_program_well_formed(tokens, begin.pos, program@);
        }
        Ok(program)
    }

    /// Import*: imports are read for as long as one begins.
    #[verifier::loop_isolation(false)]
    fn imports(&mut self) -> (found: ParseResult<Vec<ImportDeclarationNode<'src>>>)
        requires
            old(self).wf(),
        ensures
            final(self).wf(),
            final(self).stream() == old(self).stream(),
            old(self).cursor().seen <= final(self).cursor().seen,
            (final(self).cursor(), list_view(found)) == rules::imports(
                old(self).stream(),
                old(self).cursor(),
            ),
    {
        proof {
            reveal(rules::imports);
        }
        let ghost tokens = self.stream();
        let ghost begin = self.cursor();
        let mut imports: Vec<ImportDeclarationNode<'src>> = Vec::new();
        proof {
            lemma_views_empty::<ImportDeclarationNode<'src>>();
            lemma_prepend_none(rules::imports(tokens, begin));
        }
        loop
            invariant
                self.wf(),
                self.stream() == tokens,
                old(self).cursor().seen <= self.cursor().seen,
                rules::imports(tokens, begin) == prepend(
                    views(imports@),
                    rules::imports(tokens, self.cursor()),
                ),
            decreases tokens.len() - self.cursor().pos,
        {
            let ghost here = self.cursor();
            self.quicksave();
            match self.import() {
                None => {
                    self.restore();
                    proof {
                        lemma_prepend_last(views(imports@), self.cursor());
                    }
                    return Ok(imports);
                },
                Some(Err(err)) => {
                    return Err(err);
                },
                Some(Ok(import)) => {
                    proof {
                        rules::lemma_import(tokens, here.mark());
                        lemma_views_push(imports@, import);
                        lemma_prepend(
                            views(imports@),
                            import@,
                            rules::imports(tokens, self.cursor()),
                        );
                    }
                    imports.push(import);
                },
            }
        }
    }

    /// Declaration*: declarations are read for as long as one begins.
    #[verifier::loop_isolation(false)]
    fn declarations(&mut self) -> (found: ParseResult<Vec<DeclarationNode<'src>>>)
        requires
            old(self).wf(),
        ensures
            final(self).wf(),
            final(self).stream() == old(self).stream(),
            old(self).cursor().seen <= final(self).cursor().seen,
            (final(self).cursor(), list_view(found)) == rules::declarations(
                old(self).stream(),
                old(self).cursor(),
            ),
    {
        proof {
            reveal(rules::declarations);
        }
        let ghost tokens = self.stream();
        let ghost begin = self.cursor();
        let mut declarations: Vec<DeclarationNode<'src>> = Vec::new();
        proof {
            lemma_views_empty::<DeclarationNode<'src>>();
            lemma_prepend_none(rules::declarations(tokens, begin));
        }
        loop
            invariant
                self.wf(),
                self.stream() == tokens,
                old(self).cursor().seen <= self.cursor().seen,
                rules::declarations(tokens, begin) == prepend(
                    views(declarations@),
                    rules::declarations(tokens, self.cursor()),
                ),
            decreases tokens.len() - self.cursor().pos,
        {
            let ghost here = self.cursor();
            self.quicksave();
            match self.declaration() {
                None => {
                    self.restore();
                    proof {
                        lemma_prepend_last(views(declarations@), self.cursor());
                    }
                    return Ok(declarations);
                },
                Some(Err(err)) => {
                    return Err(err);
                },
                Some(Ok(declaration)) => {
                    proof {
                        rules::lemma_staff(tokens, here.mark());
                        lemma_views_push(declarations@, declaration);
                        lemma_prepend(
                            views(declarations@),
                            declaration@,
                            rules::declarations(tokens, self.cursor()),
                        );
                    }
                    declarations.push(declaration);
                },
            }
        }
    }

    /// Declaration := Staff
    pub fn declaration(&mut self) -> (found: Option<ParseResult<DeclarationNode<'src>>>)
        requires
            old(self).wf(),
        ensures
            final(self).wf(),
            final(self).stream() == old(self).stream(),
            old(self).cursor().seen <= final(self).cursor().seen,
            (final(self).cursor(), option_view(found)) == rules::declaration(
                old(self).stream(),
                old(self).cursor(),
            ),
            forall|node: StaffView|
                #![trigger staff_at(old(self).stream(), old(self).cursor().pos, node)]
                option_view(found) == Some(Ok::<StaffView, ParseError>(node)) <==> staff_at(
                    old(self).stream(),
                    old(self).cursor().pos,
                    node,
                ),
    {
        proof {
            lemma_declaration_exact(self.stream(), self.cursor());
        }
        match self.staff() {
            None => None,
            Some(Ok(staff)) => Some(Ok(DeclarationNode { staff })),
            Some(Err(err)) => Some(Err(err)),
        }
    }

    /// Import := "import" "{" Identifier ("," Identifier)* "}" "from" Literal
    pub fn import(&mut self) -> (found: Option<ParseResult<ImportDeclarationNode<'src>>>)
        requires
            old(self).wf(),
        ensures
            final(self).wf(),
            final(self).stream() == old(self).stream(),
            old(self).cursor().seen <= final(self).cursor().seen,
            (final(self).cursor(), option_view(found)) == rules::import(
                old(self).stream(),
                old(self).cursor(),
            ),
            forall|node: ImportView|
                #![trigger import_at(old(self).stream(), old(self).cursor().pos, node)]
                option_view(found) == Some(Ok::<ImportView, ParseError>(node)) <==> import_at(
                    old(self).stream(),
                    old(self).cursor().pos,
                    node,
                ),
    {
        proof {
            reveal(rules::import);
            lemma_import_exact(self.stream(), self.cursor());
        }
        if !self.next_is_keyword(Keyword::Import) {
            return None;
        }
        if !self.next_is_separator(Separator::LCurly) {
            return Some(Err(ParseError::ExpectedSeparator(Separator::LCurly)));
        }
        let items = match self.import_items() {
            Ok(items) => items,
            Err(err) => {
                return Some(Err(err));
            },
        };
        if !self.next_is_keyword(Keyword::From) {
            return Some(Err(ParseError::ExpectedKeyword(Keyword::From)));
        }
        Some(
            match self.next_literal() {
                Ok(source) => Ok(ImportDeclarationNode { items, source }),
                Err(err) => Err(err),
            },
        )
    }

    /// Identifier ("," Identifier)* "}": the names of an import.
    #[verifier::loop_isolation(false)]
    fn import_items(&mut self) -> (found: ParseResult<Vec<Token<'src>>>)
        requires
            old(self).wf(),
        ensures
            final(self).wf(),
            final(self).stream() == old(self).stream(),
            old(self).cursor().seen <= final(self).cursor().seen,
            (final(self).cursor(), list_view(found)) == rules::import_items(
                old(self).stream(),
                old(self).cursor(),
            ),
    {
        proof {
            reveal(rules::import_items);
        }
        let ghost tokens = self.stream();
        let ghost begin = self.cursor();
        let mut items: Vec<Token<'src>> = Vec::new();
        proof {
            lemma_views_empty::<Token<'src>>();
            lemma_prepend_none(rules::import_items(tokens, begin));
        }
        loop
            invariant
                self.wf(),
                self.stream() == tokens,
                old(self).cursor().seen <= self.cursor().seen,
                rules::import_items(tokens, begin) == prepend(
                    views(items@),
                    rules::import_items(tokens, self.cursor()),
                ),
            decreases tokens.len() + 1 - self.cursor().pos,
        {
            let ghost here = self.cursor();
            let item = match self.next_identifier() {
                Ok(item) => item,
                Err(err) => {
                    return Err(err);
                },
            };
            proof {
                lemma_views_push(items@, item);
                lemma_prepend(
                    views(items@),
                    item@,
                    rules::import_items(tokens, here.advance(tokens).advance(tokens)),
                );
                lemma_prepend_one(views(items@), item@, here.advance(tokens).advance(tokens));
            }
            items.push(item);
            if self.next_is_separator(Separator::RCurly) {
                return Ok(items);
            }
            if !self.peek_is_separator(Separator::Comma) {
                return Err(ParseError::ExpectedSeparator(Separator::Comma));
            }
        }
    }

    /// Staff := "staff" Identifier "is" Call "in" Signature
    ///          "{" Pickup? StaffStatement* "}"
    pub fn staff(&mut self) -> (found: Option<ParseResult<StaffDeclarationNode<'src>>>)
        requires
            old(self).wf(),
        ensures
            final(self).wf(),
            final(self).stream() == old(self).stream(),
            old(self).cursor().seen <= final(self).cursor().seen,
            (final(self).cursor(), option_view(found)) == rules::staff(
                old(self).stream(),
                old(self).cursor(),
            ),
            forall|node: StaffView|
                #![trigger staff_at(old(self).stream(), old(self).cursor().pos, node)]
                option_view(found) == Some(Ok::<StaffView, ParseError>(node)) <==> staff_at(
                    old(self).stream(),
                    old(self).cursor().pos,
                    node,
                ),
    {
        proof {
            lemma_staff_exact(self.stream(), self.cursor());
        }
        if !self.next_is_keyword(Keyword::Staff) {
            return None;
        }
        Some(self.staff_inner())
    }

    /// The part of a staff after its keyword.
    pub fn staff_inner(&mut self) -> (found: ParseResult<StaffDeclarationNode<'src>>)
        requires
            old(self).wf(),
        ensures
            final(self).wf(),
            final(self).stream() == old(self).stream(),
            old(self).cursor().seen <= final(self).cursor().seen,
            (final(self).cursor(), result_view(found)) == rules::staff_inner(
                old(self).stream(),
                old(self).cursor(),
            ),
            forall|node: StaffView|
                #![trigger staff_inner_at(old(self).stream(), old(self).cursor().pos, node)]
                result_view(found) == Ok::<StaffView, ParseError>(node) <==> staff_inner_at(
                    old(self).stream(),
                    old(self).cursor().pos,
                    node,
                ),
    {
        proof {
            lemma_staff_inner_exact(self.stream(), self.cursor());
            reveal(rules::staff_inner);
            reveal(rules::staff_body);
        }
        let identifier = match self.next_identifier() {
            Ok(identifier) => identifier,
            Err(err) => {
                return Err(err);
            },
        };
        if !self.next_is_keyword(Keyword::Is) {
            return Err(ParseError::ExpectedKeyword(Keyword::Is));
        }
        let staff_type = match self.call() {
            None => {
                return Err(ParseError::ExpectedType(TokenType::Identifier));
            },
            Some(Err(err)) => {
                return Err(err);
            },
            Some(Ok(staff_type)) => staff_type,
        };
        if !self.next_is_keyword(Keyword::In) {
            return Err(ParseError::ExpectedKeyword(Keyword::In));
        }
        let signature = match self.next_signature() {
            Ok(signature) => signature,
            Err(err) => {
                return Err(err);
            },
        };
        if !self.next_is_separator(Separator::LCurly) {
            return Err(ParseError::ExpectedSeparator(Separator::LCurly));
        }
        self.quicksave();
        let pickup = match self.pickup() {
            None => {
                self.restore();
                None
            },
            Some(Err(err)) => {
                return Err(err);
            },
            Some(Ok(pickup)) => Some(pickup),
        };
        let statements = match self.staff_statements() {
            Ok(statements) => statements,
            Err(err) => {
                return Err(err);
            },
        };
        if !self.next_is_separator(Separator::RCurly) {
            return Err(ParseError::ExpectedSeparator(Separator::RCurly));
        }
        Ok(StaffDeclarationNode { identifier, staff_type, signature, pickup, statements })
    }

    /// StaffStatement*: statements are read for as long as one begins.
    #[verifier::loop_isolation(false)]
    fn staff_statements(&mut self) -> (found: ParseResult<Vec<StaffStatementNode<'src>>>)
        requires
            old(self).wf(),
        ensures
            final(self).wf(),
            final(self).stream() == old(self).stream(),
            old(self).cursor().seen <= final(self).cursor().seen,
            (final(self).cursor(), list_view(found)) == rules::staff_statements(
                old(self).stream(),
                old(self).cursor(),
            ),
    {
        proof {
            reveal(rules::staff_statements);
        }
        let ghost tokens = self.stream();
        let ghost begin = self.cursor();
        let mut statements: Vec<StaffStatementNode<'src>> = Vec::new();
        proof {
            lemma_views_empty::<StaffStatementNode<'src>>();
            lemma_prepend_none(rules::staff_statements(tokens, begin));
        }
        loop
            invariant
                self.wf(),
                self.stream() == tokens,
                old(self).cursor().seen <= self.cursor().seen,
                rules::staff_statements(tokens, begin) == prepend(
                    views(statements@),
                    rules::staff_statements(tokens, self.cursor()),
                ),
            decreases tokens.len() - self.cursor().pos,
        {
            let ghost here = self.cursor();
            self.quicksave();
            match self.staff_statement() {
                None => {
                    self.restore();
                    proof {
                        lemma_prepend_last(views(statements@), self.cursor());
                    }
                    return Ok(statements);
                },
                Some(Err(err)) => {
                    return Err(err);
                },
                Some(Ok(statement)) => {
                    proof {
                        rules::lemma_staff_statement(tokens, here.mark());
                        lemma_views_push(statements@, statement);
                        lemma_prepend(
                            views(statements@),
                            statement@,
                            rules::staff_statements(tokens, self.cursor()),
                        );
                    }
                    statements.push(statement);
                },
            }
        }
    }

    /// StaffStatement := Measure | Call
    pub fn staff_statement(&mut self) -> (found: Option<ParseResult<StaffStatementNode<'src>>>)
        requires
            old(self).wf(),
        ensures
            final(self).wf(),
            final(self).stream() == old(self).stream(),
            old(self).cursor().seen <= final(self).cursor().seen,
            (final(self).cursor(), option_view(found)) == rules::staff_statement(
                old(self).stream(),
                old(self).cursor(),
            ),
            forall|node: StatementView|
                #![trigger statement_at(old(self).stream(), old(self).cursor().pos, node)]
                option_view(found) == Some(Ok::<StatementView, ParseError>(node)) <==> statement_at(
                    old(self).stream(),
                    old(self).cursor().pos,
                    node,
                ),
    {
        proof {
            reveal(rules::staff_statement);
            lemma_staff_statement_exact(self.stream(), self.cursor());
        }
        self.quicksave();
        match self.measure() {
            Some(Ok(measure)) => {
                return Some(Ok(StaffStatementNode::Measure(measure)));
            },
            Some(Err(err)) => {
                return Some(Err(err));
            },
            None => {},
        }
        self.restore();
        match self.call() {
            None => None,
            Some(Ok(call)) => Some(Ok(StaffStatementNode::Call(call))),
            Some(Err(err)) => Some(Err(err)),
        }
    }

    /// Meta := "meta" "{" Call+ "}"
    pub fn meta(&mut self) -> (found: ParseResult<MetaDeclarationNode<'src>>)
        requires
            old(self).wf(),
        ensures
            final(self).wf(),
            final(self).stream() == old(self).stream(),
            old(self).cursor().seen <= final(self).cursor().seen,
            (final(self).cursor(), result_view(found)) == rules::meta(
                old(self).stream(),
                old(self).cursor(),
            ),
            forall|node: Seq<CallView>|
                #![trigger meta_at(old(self).stream(), old(self).cursor().pos, node)]
                result_view(found) == Ok::<Seq<CallView>, ParseError>(node) <==> meta_at(
                    old(self).stream(),
                    old(self).cursor().pos,
                    node,
                ),
    {
        proof {
            reveal(rules::meta);
            lemma_meta_exact(self.stream(), self.cursor());
        }
        if !self.next_is_keyword(Keyword::Meta) {
            return Err(ParseError::ExpectedKeyword(Keyword::Meta));
        }
        if !self.next_is_separator(Separator::LCurly) {
            return Err(ParseError::ExpectedSeparator(Separator::LCurly));
        }
        let configs = match self.meta_calls() {
            Ok(configs) => configs,
            Err(err) => {
                return Err(err);
            },
        };
        let closed = self.next_is_separator(Separator::RCurly);
        if configs.len() == 0 {
            return Err(ParseError::EmptyMeta);
        }
        if !closed {
            return Err(ParseError::ExpectedSeparator(Separator::RCurly));
        }
        Ok(MetaDeclarationNode { configs })
    }

    /// Call*: the calls of the meta block are read for as long as one begins.
    #[verifier::loop_isolation(false)]
    fn meta_calls(&mut self) -> (found: ParseResult<Vec<CallNode<'src>>>)
        requires
            old(self).wf(),
        ensures
            final(self).wf(),
            final(self).stream() == old(self).stream(),
            old(self).cursor().seen <= final(self).cursor().seen,
            (final(self).cursor(), list_view(found)) == rules::meta_calls(
                old(self).stream(),
                old(self).cursor(),
            ),
    {
        proof {
            reveal(rules::meta_calls);
        }
        let ghost tokens = self.stream();
        let ghost begin = self.cursor();
        let mut configs: Vec<CallNode<'src>> = Vec::new();
        proof {
            lemma_views_empty::<CallNode<'src>>();
            lemma_prepend_none(rules::meta_calls(tokens, begin));
        }
        loop
            invariant
                self.wf(),
                self.stream() == tokens,
                old(self).cursor().seen <= self.cursor().seen,
                rules::meta_calls(tokens, begin) == prepend(
                    views(configs@),
                    rules::meta_calls(tokens, self.cursor()),
                ),
            decreases tokens.len() - self.cursor().pos,
        {
            let ghost here = self.cursor();
            self.quicksave();
            match self.call() {
                None => {
                    self.restore();
                    proof {
                        lemma_prepend_last(views(configs@), self.cursor());
                    }
                    return Ok(configs);
                },
                Some(Err(err)) => {
                    return Err(err);
                },
                Some(Ok(call)) => {
                    proof {
                        rules::lemma_call(tokens, here.mark());
                        lemma_views_push(configs@, call);
                        lemma_prepend(
                            views(configs@),
                            call@,
                            rules::meta_calls(tokens, self.cursor()),
                        );
                    }
                    configs.push(call);
                },
            }
        }
    }

    /// Pickup := "pickup" Block
    pub fn pickup(&mut self) -> (found: Option<ParseResult<PickupNode<'src>>>)
        requires
            old(self).wf(),
        ensures
            final(self).wf(),
            final(self).stream() == old(self).stream(),
            old(self).cursor().seen <= final(self).cursor().seen,
            (final(self).cursor(), option_view(found)) == rules::pickup(
                old(self).stream(),
                old(self).cursor(),
            ),
            forall|calls: Seq<CallWithView>|
                #![trigger pickup_at(old(self).stream(), old(self).cursor().pos, Some(calls))]
                option_view(found) == Some(Ok::<Seq<CallWithView>, ParseError>(calls))
                    <==> pickup_at(old(self).stream(), old(self).cursor().pos, Some(calls)),
    {
        proof {
            lemma_pickup_exact(self.stream(), self.cursor());
        }
        if !self.next_is_keyword(Keyword::Pickup) {
            return None;
        }
        Some(
            match self.block() {
                Ok(block) => Ok(PickupNode { block }),
                Err(err) => Err(err),
            },
        )
    }

    /// Measure := "measure" Block
    pub fn measure(&mut self) -> (found: Option<ParseResult<MeasureNode<'src>>>)
        requires
            old(self).wf(),
        ensures
            final(self).wf(),
            final(self).stream() == old(self).stream(),
            old(self).cursor().seen <= final(self).cursor().seen,
            (final(self).cursor(), option_view(found)) == rules::measure(
                old(self).stream(),
                old(self).cursor(),
            ),
            forall|calls: Seq<CallWithView>|
                #![trigger statement_at(
                    old(self).stream(),
                    old(self).cursor().pos,
                    StatementView::Measure(calls),
                )]
                option_view(found) == Some(Ok::<Seq<CallWithView>, ParseError>(calls))
                    <==> statement_at(
                    old(self).stream(),
                    old(self).cursor().pos,
                    StatementView::Measure(calls),
                ),
    {
        proof {
            lemma_measure_exact(self.stream(), self.cursor());
        }
        if !self.next_is_keyword(Keyword::Measure) {
            return None;
        }
        Some(
            match self.block() {
                Ok(block) => Ok(MeasureNode { block }),
                Err(err) => Err(err),
            },
        )
    }

    /// Call := Identifier "(" Argument ("," Argument)* ")"
    pub fn call(&mut self) -> (found: Option<ParseResult<CallNode<'src>>>)
        requires
            old(self).wf(),
        ensures
            final(self).wf(),
            final(self).stream() == old(self).stream(),
            old(self).cursor().seen <= final(self).cursor().seen,
            (final(self).cursor(), option_view(found)) == rules::call(
                old(self).stream(),
                old(self).cursor(),
            ),
            forall|node: CallView|
                #![trigger call_at(old(self).stream(), old(self).cursor().pos, node)]
                option_view(found) == Some(Ok::<CallView, ParseError>(node)) <==> call_at(
                    old(self).stream(),
                    old(self).cursor().pos,
                    node,
                ),
    {
        proof {
            reveal(rules::call);
            lemma_call_exact(self.stream(), self.cursor());
        }
        let identifier = match self.next_identifier() {
            Ok(identifier) => identifier,
            Err(_) => {
                return None;
            },
        };
        if !self.next_is_separator(Separator::LParan) {
            return None;
        }
        Some(
            match self.arguments() {
                Ok(arguments) => Ok(CallNode { identifier, arguments }),
                Err(err) => Err(err),
            },
        )
    }

    /// Argument ("," Argument)* ")": the arguments of a call.
    #[verifier::loop_isolation(false)]
    fn arguments(&mut self) -> (found: ParseResult<Vec<ArgumentNode<'src>>>)
        requires
            old(self).wf(),
        ensures
            final(self).wf(),
            final(self).stream() == old(self).stream(),
            old(self).cursor().seen <= final(self).cursor().seen,
            (final(self).cursor(), list_view(found)) == rules::arguments(
                old(self).stream(),
                old(self).cursor(),
            ),
    {
        proof {
            reveal(rules::arguments);
        }
        let ghost tokens = self.stream();
        let ghost begin = self.cursor();
        let mut arguments: Vec<ArgumentNode<'src>> = Vec::new();
        proof {
            lemma_views_empty::<ArgumentNode<'src>>();
            lemma_prepend_none(rules::arguments(tokens, begin));
        }
        loop
            invariant
                self.wf(),
                self.stream() == tokens,
                old(self).cursor().seen <= self.cursor().seen,
                rules::arguments(tokens, begin) == prepend(
                    views(arguments@),
                    rules::arguments(tokens, self.cursor()),
                ),
            decreases tokens.len() + 1 - self.cursor().pos,
        {
            let ghost here = self.cursor();
            let argument = match self.argument() {
                Ok(argument) => argument,
                Err(err) => {
                    return Err(err);
                },
            };
            proof {
                lemma_views_push(arguments@, argument);
                lemma_prepend(
                    views(arguments@),
                    argument@,
                    rules::arguments(tokens, here.advance(tokens).advance(tokens)),
                );
                lemma_prepend_one(
                    views(arguments@),
                    argument@,
                    here.advance(tokens).advance(tokens),
                );
            }
            arguments.push(argument);
            if self.next_is_separator(Separator::RParan) {
                return Ok(arguments);
            }
            if !self.peek_is_separator(Separator::Comma) {
                return Err(ParseError::ExpectedSeparator(Separator::Comma));
            }
        }
    }

    /// CallWith := Call ("with" (Call | Identifier))*
    pub fn call_with(&mut self) -> (found: Option<ParseResult<CallWithNode<'src>>>)
        requires
            old(self).wf(),
        ensures
            final(self).wf(),
            final(self).stream() == old(self).stream(),
            old(self).cursor().seen <= final(self).cursor().seen,
            (final(self).cursor(), option_view(found)) == rules::call_with(
                old(self).stream(),
                old(self).cursor(),
            ),
            forall|node: CallWithView|
                #![trigger call_with_at(old(self).stream(), old(self).cursor().pos, node)]
                {
                    &&& option_view(found) == Some(Ok::<CallWithView, ParseError>(node))
                        ==> call_with_at(old(self).stream(), old(self).cursor().pos, node)
                    &&& call_with_at(old(self).stream(), old(self).cursor().pos, node)
                        && !keyword_at(
                        old(self).stream(),
                        old(self).cursor().pos + call_with_len(node),
                        Keyword::With,
                    ) && !separator_at(
                        old(self).stream(),
                        old(self).cursor().pos + call_with_len(node),
                        Separator::LParan,
                    ) ==> option_view(found) == Some(Ok::<CallWithView, ParseError>(node))
                },
    {
        proof {
            lemma_call_with_exact(self.stream(), self.cursor());
            reveal(rules::call_with);
        }
        let call = match self.call() {
            None => {
                return None;
            },
            Some(Err(err)) => {
                return Some(Err(err));
            },
            Some(Ok(call)) => call,
        };
        Some(
            match self.withs() {
                Ok(with) => Ok(CallWithNode { call, with }),
                Err(err) => Err(err),
            },
        )
    }

    /// ("with" (Call | Identifier))*: the modifiers of a call.
    #[verifier::loop_isolation(false)]
    fn withs(&mut self) -> (found: ParseResult<Vec<WithNode<'src>>>)
        requires
            old(self).wf(),
        ensures
            final(self).wf(),
            final(self).stream() == old(self).stream(),
            old(self).cursor().seen <= final(self).cursor().seen,
            (final(self).cursor(), list_view(found)) == rules::withs(
                old(self).stream(),
                old(self).cursor(),
            ),
    {
        proof {
            reveal(rules::withs);
        }
        let ghost tokens = self.stream();
        let ghost begin = self.cursor();
        let mut with: Vec<WithNode<'src>> = Vec::new();
        proof {
            lemma_views_empty::<WithNode<'src>>();
            lemma_prepend_none(rules::withs(tokens, begin));
        }
        loop
            invariant
                self.wf(),
                self.stream() == tokens,
                old(self).cursor().seen <= self.cursor().seen,
                rules::withs(tokens, begin) == prepend(
                    views(with@),
                    rules::withs(tokens, self.cursor()),
                ),
            decreases tokens.len() + 1 - self.cursor().pos,
        {
            let ghost here = self.cursor();
            if !self.next_is_keyword(Keyword::With) {
                return match self.prev() {
                    Ok(_) => {
                        proof {
                            lemma_prepend_last(views(with@), self.cursor());
                        }
                        Ok(with)
                    },
                    Err(err) => Err(err),
                };
            }
            self.quicksave();
            let node = match self.call() {
                Some(Ok(call)) => WithNode::Call(call),
                Some(Err(err)) => {
                    return Err(err);
                },
                None => {
                    self.restore();
                    match self.next_identifier() {
                        Ok(identifier) => WithNode::Identifier(identifier),
                        Err(err) => {
                            return Err(err);
                        },
                    }
                },
            };
            proof {
                rules::lemma_call(tokens, here.advance(tokens).mark());
                lemma_views_push(with@, node);
                lemma_prepend(views(with@), node@, rules::withs(tokens, self.cursor()));
            }
            with.push(node);
        }
    }

    /// Argument := Literal | Identifier | Note | Number
    pub fn argument(&mut self) -> (found: ParseResult<ArgumentNode<'src>>)
        requires
            old(self).wf(),
        ensures
            final(self).wf(),
            final(self).stream() == old(self).stream(),
            old(self).cursor().seen <= final(self).cursor().seen,
            (final(self).cursor(), result_view(found)) == rules::argument(
                old(self).stream(),
                old(self).cursor(),
            ),
    {
        match self.next() {
            Ok(Token::Literal(text, place)) => Ok(
                ArgumentNode { argument: Token::Literal(text, place) },
            ),
            Ok(Token::Identifier(text, place)) => Ok(
                ArgumentNode { argument: Token::Identifier(text, place) },
            ),
            Ok(Token::Note(note, octave, place)) => Ok(
                ArgumentNode { argument: Token::Note(note, octave, place) },
            ),
            Ok(Token::Number(value, place)) => Ok(
                ArgumentNode { argument: Token::Number(value, place) },
            ),
            _ => Err(ParseError::ExpectedArgument),
        }
    }

    /// Block := "{" CallWith* "}"
    pub fn block(&mut self) -> (found: ParseResult<BlockNode<'src>>)
        requires
            old(self).wf(),
        ensures
            final(self).wf(),
            final(self).stream() == old(self).stream(),
            old(self).cursor().seen <= final(self).cursor().seen,
            (final(self).cursor(), result_view(found)) == rules::block(
                old(self).stream(),
                old(self).cursor(),
            ),
            forall|node: Seq<CallWithView>|
                #![trigger block_at(old(self).stream(), old(self).cursor().pos, node)]
                result_view(found) == Ok::<Seq<CallWithView>, ParseError>(node) <==> block_at(
                    old(self).stream(),
                    old(self).cursor().pos,
                    node,
                ),
    {
        proof {
            reveal(rules::block);
            lemma_block_exact(self.stream(), self.cursor());
        }
        if !self.next_is_separator(Separator::LCurly) {
            return Err(ParseError::ExpectedSeparator(Separator::LCurly));
        }
        let calls = match self.block_calls() {
            Ok(calls) => calls,
            Err(err) => {
                return Err(err);
            },
        };
        if !self.next_is_separator(Separator::RCurly) {
            return Err(ParseError::ExpectedSeparator(Separator::RCurly));
        }
        Ok(BlockNode { calls })
    }

    /// CallWith*: the calls of a block are read for as long as one begins.
    #[verifier::loop_isolation(false)]
    fn block_calls(&mut self) -> (found: ParseResult<Vec<CallWithNode<'src>>>)
        requires
            old(self).wf(),
        ensures
            final(self).wf(),
            final(self).stream() == old(self).stream(),
            old(self).cursor().seen <= final(self).cursor().seen,
            (final(self).cursor(), list_view(found)) == rules::block_calls(
                old(self).stream(),
                old(self).cursor(),
            ),
    {
        proof {
            reveal(rules::block_calls);
        }
        let ghost tokens = self.stream();
        let ghost begin = self.cursor();
        let mut calls: Vec<CallWithNode<'src>> = Vec::new();
        proof {
            lemma_views_empty::<CallWithNode<'src>>();
            lemma_prepend_none(rules::block_calls(tokens, begin));
        }
        loop
            invariant
                self.wf(),
                self.stream() == tokens,
                old(self).cursor().seen <= self.cursor().seen,
                rules::block_calls(tokens, begin) == prepend(
                    views(calls@),
                    rules::block_calls(tokens, self.cursor()),
                ),
            decreases tokens.len() - self.cursor().pos,
        {
            let ghost here = self.cursor();
            self.quicksave();
            match self.call_with() {
                None => {
                    self.restore();
                    proof {
                        lemma_prepend_last(views(calls@), self.cursor());
                    }
                    return Ok(calls);
                },
                Some(Err(err)) => {
                    return Err(err);
                },
                Some(Ok(call)) => {
                    proof {
                        rules::lemma_call_with(tokens, here.mark());
                        lemma_views_push(calls@, call);
                        lemma_prepend(
                            views(calls@),
                            call@,
                            rules::block_calls(tokens, self.cursor()),
                        );
                    }
                    calls.push(call);
                },
            }
        }
    }
}

} // verus!
