//! What the parser does, stated as functions: each rule of the grammar takes
//! the token stream and a cursor, and gives the cursor it leaves behind and
//! what it found.
//!
//! A rule that returns an `Option` answers `None` where it does not apply:
//! nothing was decided, and the caller goes back to its checkpoint and tries
//! something else. `Some(Err(..))` and `Err(..)` are final: the rule had
//! begun, and a token it needed was not there.

use crate::errors::ParseError;
use crate::nodes::{
    views, CallView, CallWithView, ImportView, ProgramView, StaffView, StatementView, WithView,
};
use crate::tokens::{Keyword, Location, Separator, TokenType, TokenView};
use vstd::prelude::*;

verus! {

/// Where a parser stands in its token stream.
///
/// `pos` counts the tokens that were read: the current token is the one
/// before it, and there is none at zero. `save` is the one checkpoint. `seen`
/// counts the tokens that were pulled from the lexer so far: they are the
/// first tokens of the stream, and the cursor of a parser never stands more
/// than one position past them.
pub struct Cursor {
    pub pos: nat,
    pub save: nat,
    pub seen: nat,
}

impl Cursor {
    /// The cursor at the start of a stream of which nothing was pulled.
    pub open spec fn start() -> Cursor {
        Cursor { pos: 0, save: 0, seen: 0 }
    }

    /// One token further. Past the end of the stream there is one more
    /// position, which holds no token; the cursor does not go beyond it. A
    /// token is pulled when the cursor stood on the last one that was pulled
    /// and the stream has more.
    pub open spec fn advance(self, tokens: Seq<TokenView>) -> Cursor {
        Cursor {
            pos: if self.pos <= tokens.len() {
                self.pos + 1
            } else {
                self.pos
            },
            save: self.save,
            seen: if self.pos == self.seen && self.seen < tokens.len() {
                self.seen + 1
            } else {
                self.seen
            },
        }
    }

    /// One token back, or at the start if it is there already.
    pub open spec fn retreat(self) -> Cursor {
        Cursor {
            pos: if self.pos > 0 {
                (self.pos - 1) as nat
            } else {
                0
            },
            save: self.save,
            seen: self.seen,
        }
    }

    /// The cursor with its position kept as the checkpoint.
    pub open spec fn mark(self) -> Cursor {
        Cursor { pos: self.pos, save: self.pos, seen: self.seen }
    }

    /// The cursor back at its checkpoint.
    pub open spec fn rewind(self) -> Cursor {
        Cursor { pos: self.save, save: self.save, seen: self.seen }
    }

    /// The current token.
    pub open spec fn token(self, tokens: Seq<TokenView>) -> Result<TokenView, ParseError> {
        if 1 <= self.pos <= tokens.len() {
            Ok(tokens[self.pos - 1])
        } else {
            Err(ParseError::Unknown)
        }
    }

    /// Whether the current token is the given separator.
    pub open spec fn on_separator(self, tokens: Seq<TokenView>, sep: Separator) -> bool {
        self.token(tokens) matches Ok(token) && token.is_separator(sep)
    }

    /// Whether the current token is the given reserved word.
    pub open spec fn on_keyword(self, tokens: Seq<TokenView>, word: Keyword) -> bool {
        self.token(tokens) matches Ok(token) && token.is_keyword(word)
    }
}

/// The value of the result of a rule.
pub open spec fn result_view<T: View>(r: Result<T, ParseError>) -> Result<T::V, ParseError> {
    match r {
        Ok(node) => Ok(node@),
        Err(e) => Err(e),
    }
}

/// The value of the result of a rule that may not apply.
pub open spec fn option_view<T: View>(r: Option<Result<T, ParseError>>) -> Option<
    Result<T::V, ParseError>,
> {
    match r {
        Some(found) => Some(result_view(found)),
        None => None,
    }
}

/// The value of the result of a list rule.
pub open spec fn list_view<T: View>(r: Result<Vec<T>, ParseError>) -> Result<
    Seq<T::V>,
    ParseError,
> {
    match r {
        Ok(items) => Ok(views(items@)),
        Err(e) => Err(e),
    }
}

/// The value of the result of a whole parse.
pub open spec fn final_view<T: View>(r: Result<T, (ParseError, Location)>) -> Result<
    T::V,
    (ParseError, Location),
> {
    match r {
        Ok(node) => Ok(node@),
        Err(e) => Err(e),
    }
}

/// The outcome of a list rule with the items `head` put before what it found.
pub open spec fn prepend<T>(head: Seq<T>, tail: (Cursor, Result<Seq<T>, ParseError>)) -> (
    Cursor,
    Result<Seq<T>, ParseError>,
) {
    match tail.1 {
        Ok(rest) => (tail.0, Ok(head + rest)),
        Err(e) => (tail.0, Err(e)),
    }
}

/// Putting items before an outcome one after the other, or all at once, is
/// the same.
pub proof fn lemma_prepend<T>(head: Seq<T>, item: T, tail: (Cursor, Result<Seq<T>, ParseError>))
    ensures
        prepend(head, prepend(seq![item], tail)) == prepend(head.push(item), tail),
{
    match tail.1 {
        Ok(rest) => {
            assert(head + (seq![item] + rest) =~= head.push(item) + rest);
        },
        Err(_) => {},
    }
}

/// Putting no item before an outcome leaves it as it is.
pub proof fn lemma_prepend_none<T>(tail: (Cursor, Result<Seq<T>, ParseError>))
    ensures
        prepend(Seq::<T>::empty(), tail) == tail,
{
    match tail.1 {
        Ok(rest) => {
            assert(Seq::<T>::empty() + rest =~= rest);
        },
        Err(_) => {},
    }
}

/// Putting items before the outcome of a list that has ended gives those
/// items.
pub proof fn lemma_prepend_last<T>(head: Seq<T>, c: Cursor)
    ensures
        prepend(head, (c, Ok(Seq::<T>::empty()))) == (c, Ok::<Seq<T>, ParseError>(head)),
{
    assert(head + Seq::<T>::empty() =~= head);
}

/// Putting items before the outcome of a list that ends with one more item
/// gives those items and that one.
pub proof fn lemma_prepend_one<T>(head: Seq<T>, item: T, c: Cursor)
    ensures
        prepend(head, (c, Ok(seq![item]))) == (c, Ok::<Seq<T>, ParseError>(head.push(item))),
{
    assert(head + seq![item] =~= head.push(item));
}

/// Reads one token, which must be of the given category.
pub open spec fn next_kind(tokens: Seq<TokenView>, c: Cursor, kind: TokenType) -> (
    Cursor,
    Result<TokenView, ParseError>,
) {
    let c1 = c.advance(tokens);
    match c1.token(tokens) {
        Ok(token) => if token.kind() == kind {
            (c1, Ok(token))
        } else {
            (c1, Err(ParseError::ExpectedType(kind)))
        },
        Err(_) => (c1, Err(ParseError::ExpectedType(kind))),
    }
}

/// Argument := Literal | Identifier | Note | Number
pub open spec fn argument(tokens: Seq<TokenView>, c: Cursor) -> (
    Cursor,
    Result<TokenView, ParseError>,
) {
    let c1 = c.advance(tokens);
    match c1.token(tokens) {
        Ok(token) => if token.is_argument() {
            (c1, Ok(token))
        } else {
            (c1, Err(ParseError::ExpectedArgument))
        },
        Err(_) => (c1, Err(ParseError::ExpectedArgument)),
    }
}

/// Argument ("," Argument)* ")": the arguments of a call, after its opening
/// parenthesis.
#[verifier::opaque]
pub open spec fn arguments(tokens: Seq<TokenView>, c: Cursor) -> (
    Cursor,
    Result<Seq<TokenView>, ParseError>,
)
    decreases tokens.len() - c.pos,
{
    let (c1, first) = argument(tokens, c);
    match first {
        Err(e) => (c1, Err(e)),
        Ok(token) => {
            let c2 = c1.advance(tokens);
            if c2.on_separator(tokens, Separator::RParan) {
                (c2, Ok(seq![token]))
            } else if c2.on_separator(tokens, Separator::Comma) {
                prepend(seq![token], arguments(tokens, c2))
            } else {
                (c2, Err(ParseError::ExpectedSeparator(Separator::Comma)))
            }
        },
    }
}

/// Call := Identifier "(" Argument ("," Argument)* ")"
///
/// The rule does not apply unless an identifier and an opening parenthesis
/// stand there; after them it has begun.
#[verifier::opaque]
pub open spec fn call(tokens: Seq<TokenView>, c: Cursor) -> (
    Cursor,
    Option<Result<CallView, ParseError>>,
) {
    let (c1, name) = next_kind(tokens, c, TokenType::Identifier);
    match name {
        Err(_) => (c1, None),
        Ok(identifier) => {
            let c2 = c1.advance(tokens);
            if c2.on_separator(tokens, Separator::LParan) {
                let (c3, found) = arguments(tokens, c2);
                match found {
                    Ok(arguments) => (c3, Some(Ok(CallView { identifier, arguments }))),
                    Err(e) => (c3, Some(Err(e))),
                }
            } else {
                (c2, None)
            }
        },
    }
}

/// The arguments of a call leave the checkpoint alone and, where they are
/// found, end on a token of the stream after the one they began at.
pub proof fn lemma_arguments(tokens: Seq<TokenView>, c: Cursor)
    ensures
        arguments(tokens, c).0.save == c.save,
        c.pos <= arguments(tokens, c).0.pos,
        arguments(tokens, c).1 is Ok ==> c.pos < arguments(tokens, c).0.pos <= tokens.len(),
    decreases tokens.len() - c.pos,
{
    reveal(arguments);
    let (c1, first) = argument(tokens, c);
    if first is Ok {
        let c2 = c1.advance(tokens);
        if !c2.on_separator(tokens, Separator::RParan) && c2.on_separator(
            tokens,
            Separator::Comma,
        ) {
            lemma_arguments(tokens, c2);
        }
    }
}

/// A call leaves the checkpoint alone and, where it is found, ends on a token
/// of the stream after the one it began at.
pub proof fn lemma_call(tokens: Seq<TokenView>, c: Cursor)
    ensures
        call(tokens, c).0.save == c.save,
        call(tokens, c).1 is Some ==> c.pos < call(tokens, c).0.pos,
        call(tokens, c).1 matches Some(Ok(_)) ==> call(tokens, c).0.pos <= tokens.len(),
{
    reveal(call);
    let (c1, name) = next_kind(tokens, c, TokenType::Identifier);
    if name is Ok {
        lemma_arguments(tokens, c1.advance(tokens));
    }
}

/// ("with" (Call | Identifier))*: the modifiers of a call.
///
/// After each `with` a call is tried first; where none applies, the cursor
/// goes back and an identifier must stand there. The list ends before the
/// first token that is not `with`; the cursor steps back onto the token
/// before it.
#[verifier::opaque]
pub open spec fn withs(tokens: Seq<TokenView>, c: Cursor) -> (
    Cursor,
    Result<Seq<WithView>, ParseError>,
)
    decreases tokens.len() - c.pos,
{
    let c1 = c.advance(tokens);
    if c1.on_keyword(tokens, Keyword::With) {
        let (c2, nested) = call(tokens, c1.mark());
        proof {
            lemma_call(tokens, c1.mark());
        }
        match nested {
            Some(Ok(found)) => prepend(seq![WithView::Call(found)], withs(tokens, c2)),
            Some(Err(e)) => (c2, Err(e)),
            None => {
                let (c3, name) = next_kind(tokens, c2.rewind(), TokenType::Identifier);
                match name {
                    Ok(identifier) => prepend(
                        seq![WithView::Identifier(identifier)],
                        withs(tokens, c3),
                    ),
                    Err(e) => (c3, Err(e)),
                }
            },
        }
    } else {
        let c2 = c1.retreat();
        match c2.token(tokens) {
            Ok(_) => (c2, Ok(seq![])),
            Err(e) => (c2, Err(e)),
        }
    }
}

/// CallWith := Call ("with" (Call | Identifier))*
#[verifier::opaque]
pub open spec fn call_with(tokens: Seq<TokenView>, c: Cursor) -> (
    Cursor,
    Option<Result<CallWithView, ParseError>>,
) {
    let (c1, head) = call(tokens, c);
    match head {
        None => (c1, None),
        Some(Err(e)) => (c1, Some(Err(e))),
        Some(Ok(found)) => {
            let (c2, tail) = withs(tokens, c1);
            match tail {
                Ok(with) => (c2, Some(Ok(CallWithView { call: found, with }))),
                Err(e) => (c2, Some(Err(e))),
            }
        },
    }
}

/// The modifiers of a call, where they are found, end on a token of the
/// stream that is not before the one they began at.
pub proof fn lemma_withs(tokens: Seq<TokenView>, c: Cursor)
    requires
        1 <= c.pos <= tokens.len(),
    ensures
        withs(tokens, c).1 is Ok ==> c.pos <= withs(tokens, c).0.pos <= tokens.len(),
    decreases tokens.len() - c.pos,
{
    reveal(withs);
    let c1 = c.advance(tokens);
    if c1.on_keyword(tokens, Keyword::With) {
        let (c2, nested) = call(tokens, c1.mark());
        lemma_call(tokens, c1.mark());
        match nested {
            Some(Ok(found)) => {
                lemma_withs(tokens, c2);
            },
            Some(Err(e)) => {},
            None => {
                let (c3, name) = next_kind(tokens, c2.rewind(), TokenType::Identifier);
                if name is Ok {
                    lemma_withs(tokens, c3);
                }
            },
        }
    }
}

/// A call with its modifiers, where it is found, ends on a token of the
/// stream after the one it began at. Where it does not apply, the checkpoint
/// is as it was.
pub proof fn lemma_call_with(tokens: Seq<TokenView>, c: Cursor)
    ensures
        call_with(tokens, c).1 matches Some(Ok(_)) ==> c.pos < call_with(tokens, c).0.pos
            <= tokens.len(),
        call_with(tokens, c).1 is None ==> call_with(tokens, c).0.save == c.save,
{
    reveal(call_with);
    lemma_call(tokens, c);
    let (c1, head) = call(tokens, c);
    if head matches Some(Ok(_)) {
        lemma_withs(tokens, c1);
    }
}

/// CallWith*: the calls of a block, up to the first token that starts none.
#[verifier::opaque]
pub open spec fn block_calls(tokens: Seq<TokenView>, c: Cursor) -> (
    Cursor,
    Result<Seq<CallWithView>, ParseError>,
)
    decreases tokens.len() - c.pos,
{
    let (c1, item) = call_with(tokens, c.mark());
    proof {
        lemma_call_with(tokens, c.mark());
    }
    match item {
        None => (c1.rewind(), Ok(seq![])),
        Some(Err(e)) => (c1, Err(e)),
        Some(Ok(found)) => prepend(seq![found], block_calls(tokens, c1)),
    }
}

/// Block := "{" CallWith* "}"
#[verifier::opaque]
pub open spec fn block(tokens: Seq<TokenView>, c: Cursor) -> (
    Cursor,
    Result<Seq<CallWithView>, ParseError>,
) {
    let c1 = c.advance(tokens);
    if c1.on_separator(tokens, Separator::LCurly) {
        let (c2, found) = block_calls(tokens, c1);
        match found {
            Err(e) => (c2, Err(e)),
            Ok(calls) => {
                let c3 = c2.advance(tokens);
                if c3.on_separator(tokens, Separator::RCurly) {
                    (c3, Ok(calls))
                } else {
                    (c3, Err(ParseError::ExpectedSeparator(Separator::RCurly)))
                }
            },
        }
    } else {
        (c1, Err(ParseError::ExpectedSeparator(Separator::LCurly)))
    }
}

/// Pickup := "pickup" Block
pub open spec fn pickup(tokens: Seq<TokenView>, c: Cursor) -> (
    Cursor,
    Option<Result<Seq<CallWithView>, ParseError>>,
) {
    let c1 = c.advance(tokens);
    if c1.on_keyword(tokens, Keyword::Pickup) {
        let (c2, found) = block(tokens, c1);
        (c2, Some(found))
    } else {
        (c1, None)
    }
}

/// Measure := "measure" Block
pub open spec fn measure(tokens: Seq<TokenView>, c: Cursor) -> (
    Cursor,
    Option<Result<Seq<CallWithView>, ParseError>>,
) {
    let c1 = c.advance(tokens);
    if c1.on_keyword(tokens, Keyword::Measure) {
        let (c2, found) = block(tokens, c1);
        (c2, Some(found))
    } else {
        (c1, None)
    }
}

/// StaffStatement := Measure | Call
///
/// A measure is tried first; where none applies, the cursor goes back and a
/// call is tried.
#[verifier::opaque]
pub open spec fn staff_statement(tokens: Seq<TokenView>, c: Cursor) -> (
    Cursor,
    Option<Result<StatementView, ParseError>>,
) {
    let (c1, first) = measure(tokens, c.mark());
    match first {
        Some(Ok(calls)) => (c1, Some(Ok(StatementView::Measure(calls)))),
        Some(Err(e)) => (c1, Some(Err(e))),
        None => {
            let (c2, second) = call(tokens, c1.rewind());
            match second {
                Some(Ok(found)) => (c2, Some(Ok(StatementView::Call(found)))),
                Some(Err(e)) => (c2, Some(Err(e))),
                None => (c2, None),
            }
        },
    }
}

/// The calls of a block, where they are found, end on a token of the stream
/// that is not before the one they began at.
pub proof fn lemma_block_calls(tokens: Seq<TokenView>, c: Cursor)
    requires
        c.pos <= tokens.len(),
    ensures
        block_calls(tokens, c).1 is Ok ==> c.pos <= block_calls(tokens, c).0.pos <= tokens.len(),
    decreases tokens.len() - c.pos,
{
    reveal(block_calls);
    lemma_call_with(tokens, c.mark());
    let (c1, item) = call_with(tokens, c.mark());
    if item matches Some(Ok(_)) {
        lemma_block_calls(tokens, c1);
    }
}

/// A block, where it is found, ends on a token of the stream after the one
/// it began at.
pub proof fn lemma_block(tokens: Seq<TokenView>, c: Cursor)
    ensures
        block(tokens, c).1 is Ok ==> c.pos < block(tokens, c).0.pos <= tokens.len(),
{
    reveal(block);
    let c1 = c.advance(tokens);
    if c1.on_separator(tokens, Separator::LCurly) {
        lemma_block_calls(tokens, c1);
    }
}

/// A statement, where it is found, ends on a token of the stream after the
/// one it began at. Where none applies, the checkpoint is where the
/// statement was tried.
pub proof fn lemma_staff_statement(tokens: Seq<TokenView>, c: Cursor)
    ensures
        staff_statement(tokens, c).1 matches Some(Ok(_)) ==> c.pos < staff_statement(
            tokens,
            c,
        ).0.pos <= tokens.len(),
        staff_statement(tokens, c).1 is None ==> staff_statement(tokens, c).0.save == c.pos,
{
    reveal(staff_statement);
    let (c1, first) = measure(tokens, c.mark());
    lemma_block(tokens, c.mark().advance(tokens));
    lemma_call(tokens, c1.rewind());
}

/// StaffStatement*: the statements of a staff, up to the first token that
/// starts none.
#[verifier::opaque]
pub open spec fn staff_statements(tokens: Seq<TokenView>, c: Cursor) -> (
    Cursor,
    Result<Seq<StatementView>, ParseError>,
)
    decreases tokens.len() - c.pos,
{
    let (c1, item) = staff_statement(tokens, c.mark());
    proof {
        lemma_staff_statement(tokens, c.mark());
    }
    match item {
        None => (c1.rewind(), Ok(seq![])),
        Some(Err(e)) => (c1, Err(e)),
        Some(Ok(found)) => prepend(seq![found], staff_statements(tokens, c1)),
    }
}

/// The part of a staff after its keyword:
/// Identifier "is" Call "in" Signature "{" Pickup? StaffStatement* "}"
///
/// A call must follow `is`: where none applies, an identifier was expected.
#[verifier::opaque]
pub open spec fn staff_inner(tokens: Seq<TokenView>, c: Cursor) -> (
    Cursor,
    Result<StaffView, ParseError>,
) {
    let (c1, name) = next_kind(tokens, c, TokenType::Identifier);
    match name {
        Err(e) => (c1, Err(e)),
        Ok(identifier) => {
            let c2 = c1.advance(tokens);
            if !c2.on_keyword(tokens, Keyword::Is) {
                (c2, Err(ParseError::ExpectedKeyword(Keyword::Is)))
            } else {
                let (c3, kind) = call(tokens, c2);
                match kind {
                    None => (c3, Err(ParseError::ExpectedType(TokenType::Identifier))),
                    Some(Err(e)) => (c3, Err(e)),
                    Some(Ok(staff_type)) => {
                        let c4 = c3.advance(tokens);
                        if !c4.on_keyword(tokens, Keyword::In) {
                            (c4, Err(ParseError::ExpectedKeyword(Keyword::In)))
                        } else {
                            let (c5, time) = next_kind(tokens, c4, TokenType::Signature);
                            match time {
                                Err(e) => (c5, Err(e)),
                                Ok(signature) => staff_body(
                                    tokens,
                                    c5,
                                    identifier,
                                    staff_type,
                                    signature,
                                ),
                            }
                        }
                    },
                }
            }
        },
    }
}

/// The body of a staff, after its signature: "{" Pickup? StaffStatement* "}".
/// Where no pickup stands first, the cursor goes back and the statements
/// begin there.
#[verifier::opaque]
pub open spec fn staff_body(
    tokens: Seq<TokenView>,
    c: Cursor,
    identifier: TokenView,
    staff_type: CallView,
    signature: TokenView,
) -> (Cursor, Result<StaffView, ParseError>) {
    let c1 = c.advance(tokens);
    if !c1.on_separator(tokens, Separator::LCurly) {
        (c1, Err(ParseError::ExpectedSeparator(Separator::LCurly)))
    } else {
        let (c2, lead) = pickup(tokens, c1.mark());
        match lead {
            Some(Err(e)) => (c2, Err(e)),
            _ => {
                let c3 = if lead is None {
                    c2.rewind()
                } else {
                    c2
                };
                let (c4, body) = staff_statements(tokens, c3);
                match body {
                    Err(e) => (c4, Err(e)),
                    Ok(statements) => {
                        let c5 = c4.advance(tokens);
                        if c5.on_separator(tokens, Separator::RCurly) {
                            (
                                c5,
                                Ok(
                                    StaffView {
                                        identifier,
                                        staff_type,
                                        signature,
                                        pickup: match lead {
                                            Some(Ok(calls)) => Some(calls),
                                            _ => None,
                                        },
                                        statements,
                                    },
                                ),
                            )
                        } else {
                            (c5, Err(ParseError::ExpectedSeparator(Separator::RCurly)))
                        }
                    },
                }
            },
        }
    }
}

/// Staff := "staff" Identifier "is" Call "in" Signature
///          "{" Pickup? StaffStatement* "}"
pub open spec fn staff(tokens: Seq<TokenView>, c: Cursor) -> (
    Cursor,
    Option<Result<StaffView, ParseError>>,
) {
    let c1 = c.advance(tokens);
    if c1.on_keyword(tokens, Keyword::Staff) {
        let (c2, found) = staff_inner(tokens, c1);
        (c2, Some(found))
    } else {
        (c1, None)
    }
}

/// Declaration := Staff
pub open spec fn declaration(tokens: Seq<TokenView>, c: Cursor) -> (
    Cursor,
    Option<Result<StaffView, ParseError>>,
) {
    staff(tokens, c)
}

/// The statements of a staff, where they are found, end on a token of the
/// stream that is not before the one they began at.
pub proof fn lemma_staff_statements(tokens: Seq<TokenView>, c: Cursor)
    requires
        c.pos <= tokens.len(),
    ensures
        staff_statements(tokens, c).1 is Ok ==> c.pos <= staff_statements(tokens, c).0.pos
            <= tokens.len(),
    decreases tokens.len() - c.pos,
{
    reveal(staff_statements);
    lemma_staff_statement(tokens, c.mark());
    let (c1, item) = staff_statement(tokens, c.mark());
    if item matches Some(Ok(_)) {
        lemma_staff_statements(tokens, c1);
    }
}

/// A staff, where it is found, ends on a token of the stream after the one it
/// began at. Where none applies, the checkpoint is as it was.
pub proof fn lemma_staff(tokens: Seq<TokenView>, c: Cursor)
    ensures
        staff(tokens, c).1 matches Some(Ok(_)) ==> c.pos < staff(tokens, c).0.pos <= tokens.len(),
        staff(tokens, c).1 is None ==> staff(tokens, c).0.save == c.save,
{
    reveal(staff_inner);
    reveal(staff_body);
    let c1 = c.advance(tokens);
    if c1.on_keyword(tokens, Keyword::Staff) {
        let (c2, name) = next_kind(tokens, c1, TokenType::Identifier);
        let c3 = c2.advance(tokens);
        lemma_call(tokens, c3);
        let (c4, kind) = call(tokens, c3);
        let c5 = c4.advance(tokens);
        let (c6, time) = next_kind(tokens, c5, TokenType::Signature);
        if name is Ok && c3.on_keyword(tokens, Keyword::Is) && (kind matches Some(Ok(_)))
            && c5.on_keyword(tokens, Keyword::In) && time is Ok {
            let c7 = c6.advance(tokens);
            if c7.on_separator(tokens, Separator::LCurly) {
                let (c8, lead) = pickup(tokens, c7.mark());
                lemma_block(tokens, c7.mark().advance(tokens));
                let c9 = if lead is None {
                    c8.rewind()
                } else {
                    c8
                };
                if !(lead matches Some(Err(_))) {
                    lemma_staff_statements(tokens, c9);
                }
            }
        }
    }
}

/// Declaration*: the declarations of a program, up to the first token that
/// starts none.
#[verifier::opaque]
pub open spec fn declarations(tokens: Seq<TokenView>, c: Cursor) -> (
    Cursor,
    Result<Seq<StaffView>, ParseError>,
)
    decreases tokens.len() - c.pos,
{
    let (c1, item) = declaration(tokens, c.mark());
    proof {
        lemma_staff(tokens, c.mark());
    }
    match item {
        None => (c1.rewind(), Ok(seq![])),
        Some(Err(e)) => (c1, Err(e)),
        Some(Ok(found)) => prepend(seq![found], declarations(tokens, c1)),
    }
}

/// Identifier ("," Identifier)* "}": the names of an import, after its
/// opening brace.
#[verifier::opaque]
pub open spec fn import_items(tokens: Seq<TokenView>, c: Cursor) -> (
    Cursor,
    Result<Seq<TokenView>, ParseError>,
)
    decreases tokens.len() - c.pos,
{
    let (c1, first) = next_kind(tokens, c, TokenType::Identifier);
    match first {
        Err(e) => (c1, Err(e)),
        Ok(item) => {
            let c2 = c1.advance(tokens);
            if c2.on_separator(tokens, Separator::RCurly) {
                (c2, Ok(seq![item]))
            } else if c2.on_separator(tokens, Separator::Comma) {
                prepend(seq![item], import_items(tokens, c2))
            } else {
                (c2, Err(ParseError::ExpectedSeparator(Separator::Comma)))
            }
        },
    }
}

/// Import := "import" "{" Identifier ("," Identifier)* "}" "from" Literal
#[verifier::opaque]
pub open spec fn import(tokens: Seq<TokenView>, c: Cursor) -> (
    Cursor,
    Option<Result<ImportView, ParseError>>,
) {
    let c1 = c.advance(tokens);
    if !c1.on_keyword(tokens, Keyword::Import) {
        (c1, None)
    } else {
        let c2 = c1.advance(tokens);
        if !c2.on_separator(tokens, Separator::LCurly) {
            (c2, Some(Err(ParseError::ExpectedSeparator(Separator::LCurly))))
        } else {
            let (c3, names) = import_items(tokens, c2);
            match names {
                Err(e) => (c3, Some(Err(e))),
                Ok(items) => {
                    let c4 = c3.advance(tokens);
                    if !c4.on_keyword(tokens, Keyword::From) {
                        (c4, Some(Err(ParseError::ExpectedKeyword(Keyword::From))))
                    } else {
                        let (c5, origin) = next_kind(tokens, c4, TokenType::Literal);
                        match origin {
                            Err(e) => (c5, Some(Err(e))),
                            Ok(source) => (c5, Some(Ok(ImportView { items, source }))),
                        }
                    }
                },
            }
        }
    }
}

/// The names of an import leave the checkpoint alone and, where they are
/// found, end on a token of the stream after the one they began at.
pub proof fn lemma_import_items(tokens: Seq<TokenView>, c: Cursor)
    ensures
        import_items(tokens, c).0.save == c.save,
        import_items(tokens, c).1 is Ok ==> c.pos < import_items(tokens, c).0.pos <= tokens.len(),
    decreases tokens.len() - c.pos,
{
    reveal(import_items);
    let (c1, first) = next_kind(tokens, c, TokenType::Identifier);
    if first is Ok {
        let c2 = c1.advance(tokens);
        if !c2.on_separator(tokens, Separator::RCurly) && c2.on_separator(
            tokens,
            Separator::Comma,
        ) {
            lemma_import_items(tokens, c2);
        }
    }
}

/// An import leaves the checkpoint alone and, where it is found, ends on a
/// token of the stream after the one it began at.
pub proof fn lemma_import(tokens: Seq<TokenView>, c: Cursor)
    ensures
        import(tokens, c).0.save == c.save,
        import(tokens, c).1 matches Some(Ok(_)) ==> c.pos < import(tokens, c).0.pos
            <= tokens.len(),
{
    reveal(import);
    lemma_import_items(tokens, c.advance(tokens).advance(tokens));
}

/// Import*: the imports of a program, up to the first token that starts
/// none.
#[verifier::opaque]
pub open spec fn imports(tokens: Seq<TokenView>, c: Cursor) -> (
    Cursor,
    Result<Seq<ImportView>, ParseError>,
)
    decreases tokens.len() - c.pos,
{
    let (c1, item) = import(tokens, c.mark());
    proof {
        lemma_import(tokens, c.mark());
    }
    match item {
        None => (c1.rewind(), Ok(seq![])),
        Some(Err(e)) => (c1, Err(e)),
        Some(Ok(found)) => prepend(seq![found], imports(tokens, c1)),
    }
}

/// Call*: the calls of the meta block, up to the first token that starts
/// none.
#[verifier::opaque]
pub open spec fn meta_calls(tokens: Seq<TokenView>, c: Cursor) -> (
    Cursor,
    Result<Seq<CallView>, ParseError>,
)
    decreases tokens.len() - c.pos,
{
    let (c1, item) = call(tokens, c.mark());
    proof {
        lemma_call(tokens, c.mark());
    }
    match item {
        None => (c1.rewind(), Ok(seq![])),
        Some(Err(e)) => (c1, Err(e)),
        Some(Ok(found)) => prepend(seq![found], meta_calls(tokens, c1)),
    }
}

/// The calls of the meta block, where they are found, end on a token of the
/// stream that is not before the one they began at.
pub proof fn lemma_meta_calls(tokens: Seq<TokenView>, c: Cursor)
    requires
        c.pos <= tokens.len(),
    ensures
        meta_calls(tokens, c).1 is Ok ==> c.pos <= meta_calls(tokens, c).0.pos <= tokens.len(),
    decreases tokens.len() - c.pos,
{
    reveal(meta_calls);
    lemma_call(tokens, c.mark());
    let (c1, item) = call(tokens, c.mark());
    if item matches Some(Ok(_)) {
        lemma_meta_calls(tokens, c1);
    }
}

/// Meta := "meta" "{" Call+ "}"
///
/// A block without a call is an error of its own, whatever follows the
/// opening brace.
#[verifier::opaque]
pub open spec fn meta(tokens: Seq<TokenView>, c: Cursor) -> (
    Cursor,
    Result<Seq<CallView>, ParseError>,
) {
    let c1 = c.advance(tokens);
    if !c1.on_keyword(tokens, Keyword::Meta) {
        (c1, Err(ParseError::ExpectedKeyword(Keyword::Meta)))
    } else {
        let c2 = c1.advance(tokens);
        if !c2.on_separator(tokens, Separator::LCurly) {
            (c2, Err(ParseError::ExpectedSeparator(Separator::LCurly)))
        } else {
            let (c3, found) = meta_calls(tokens, c2);
            match found {
                Err(e) => (c3, Err(e)),
                Ok(configs) => {
                    let c4 = c3.advance(tokens);
                    if configs.len() == 0 {
                        (c4, Err(ParseError::EmptyMeta))
                    } else if !c4.on_separator(tokens, Separator::RCurly) {
                        (c4, Err(ParseError::ExpectedSeparator(Separator::RCurly)))
                    } else {
                        (c4, Ok(configs))
                    }
                },
            }
        }
    }
}

/// Program := Import* Meta Declaration*
///
/// What follows the last declaration is not looked at.
#[verifier::opaque]
pub open spec fn parse_inner(tokens: Seq<TokenView>, c: Cursor) -> (
    Cursor,
    Result<ProgramView, ParseError>,
) {
    let (c1, first) = imports(tokens, c);
    match first {
        Err(e) => (c1, Err(e)),
        Ok(imports) => {
            let (c2, second) = meta(tokens, c1);
            match second {
                Err(e) => (c2, Err(e)),
                Ok(meta) => {
                    let (c3, third) = declarations(tokens, c2);
                    match third {
                        Err(e) => (c3, Err(e)),
                        Ok(declarations) => (c3, Ok(ProgramView { imports, meta, declarations })),
                    }
                },
            }
        },
    }
}

/// The place that a failure is reported at: the cursor steps one token back
/// from where it failed, and the place is that of the token it then stands
/// on. Where it stands on none, the place is the start of the text.
pub open spec fn blame(tokens: Seq<TokenView>, c: Cursor) -> Location {
    match c.retreat().token(tokens) {
        Ok(token) => token.location(),
        Err(_) => Location { line: 1, col: 0 },
    }
}

/// A whole parse: the program, or the one failure with its place.
pub open spec fn parse(tokens: Seq<TokenView>, c: Cursor) -> (
    Cursor,
    Result<ProgramView, (ParseError, Location)>,
) {
    let (c1, found) = parse_inner(tokens, c);
    match found {
        Ok(program) => (c1, Ok(program)),
        Err(e) => (c1.retreat(), Err((e, blame(tokens, c1)))),
    }
}

} // verus!
