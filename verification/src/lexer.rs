//! The lexer: a forward-only scanner that turns source text into tokens, one
//! per call.
//!
//! What the lexer produces is stated by [`scan_token`], a function from the
//! source bytes and a scan state to the next token and the state after it.
//! [`tokenize`] is the whole token stream of a source text.

use crate::text::{
    decimal_value, find_run_end, is_blank, is_delimiter, is_digit, is_line_break,
    lemma_boundary_after_ascii,
    lemma_boundary_at_ascii, lemma_run_end, parse_decimal, run_end, slice_between, Run,
};
use crate::tokens::{ascii_bytes, Keyword, Location, Separator, Token, TokenView};
use vstd::prelude::*;
use vstd::string::*;
use vstd::utf8::*;

verus! {

/// Where a scan stands: the offset of the next byte to look at, the line it
/// is on, and its column.
///
/// Lines are counted from one and columns from zero. The column is the
/// distance, in bytes, from the start of the line: the start of the text, or
/// the byte after the last line feed that was stepped over between tokens.
pub struct ScanState {
    pub pos: nat,
    pub line: nat,
    pub col: nat,
}

impl ScanState {
    /// The state before anything was scanned.
    pub open spec fn start() -> ScanState {
        ScanState { pos: 0, line: 1, col: 0 }
    }

    /// The state `n` bytes further on the same line.
    pub open spec fn stepped(self, n: nat) -> ScanState {
        ScanState { pos: self.pos + n, line: self.line, col: self.col + n }
    }

    /// The state at the start of the next line, after the line feed under the
    /// scan.
    pub open spec fn next_line(self) -> ScanState {
        ScanState { pos: self.pos + 1, line: self.line + 1, col: 0 }
    }

    /// The place of the byte under the scan.
    pub open spec fn place(self) -> Location {
        Location { line: self.line as usize, col: self.col as usize }
    }

    /// What every state reached from the start keeps in the text `src`: the
    /// scan stands inside the text, its column is its distance from the start
    /// of its line, and no more lines were counted than line feeds can stand
    /// before that line.
    pub open spec fn within(self, src: Seq<u8>) -> bool {
        &&& self.col <= self.pos <= src.len()
        &&& if self.col == self.pos {
            self.line == 1
        } else {
            &&& is_line_break(src[self.pos - self.col - 1])
            &&& 2 <= self.line <= self.pos - self.col + 1
        }
    }
}

/// The state after the blanks at the scan position are stepped over. A line
/// feed among them starts a new line.
pub open spec fn skip_blanks(src: Seq<u8>, st: ScanState) -> ScanState
    decreases src.len() - st.pos,
{
    if st.pos < src.len() && is_blank(src[st.pos as int]) {
        if is_line_break(src[st.pos as int]) {
            skip_blanks(src, st.next_line())
        } else {
            skip_blanks(src, st.stepped(1))
        }
    } else {
        st
    }
}

/// A string literal: the bytes between the double quote at the scan position
/// and the next double quote. Its place is that of the closing quote. There
/// is no literal when no closing quote follows.
pub open spec fn scan_literal(src: Seq<u8>, at: ScanState) -> Option<(TokenView, ScanState)> {
    let close = run_end(src, at.pos as int + 1, Run::Quoted);
    if close < src.len() {
        let steps = (close - at.pos) as nat;
        let text = src.subrange(at.pos as int + 1, close);
        Some((TokenView::Literal(text, at.stepped(steps).place()), at.stepped(steps + 1)))
    } else {
        None
    }
}

/// A number: the longest run of digits at the scan position, read as a
/// decimal number. Its place is that of the byte that ends the run. There is
/// no number when no digit stands at the scan position, when the digits run
/// to the end of the text, or when they write more than 32 bits hold.
pub open spec fn scan_number(src: Seq<u8>, at: ScanState) -> Option<(TokenView, ScanState)> {
    let end = run_end(src, at.pos as int, Run::Digits);
    let value = decimal_value(src.subrange(at.pos as int, end));
    if at.pos < end < src.len() && value <= u32::MAX {
        let steps = (end - at.pos) as nat;
        Some((TokenView::Number(value as u32, at.stepped(steps).place()), at.stepped(steps)))
    } else {
        None
    }
}

/// A word: the longest run of bytes at the scan position that are neither
/// blanks nor separators; a keyword when it spells one, else an identifier.
/// Its place is that of the byte that ends the run. There is no word when the
/// run is empty or reaches the end of the text.
pub open spec fn scan_word(src: Seq<u8>, at: ScanState) -> Option<(TokenView, ScanState)> {
    let end = run_end(src, at.pos as int, Run::Word);
    if at.pos < end < src.len() {
        let steps = (end - at.pos) as nat;
        let text = src.subrange(at.pos as int, end);
        let place = at.stepped(steps).place();
        let token = match Keyword::of_bytes(text) {
            Some(word) => TokenView::Keyword(word, place),
            None => TokenView::Identifier(text, place),
        };
        Some((token, at.stepped(steps)))
    } else {
        None
    }
}

/// A separator: the punctuation mark at the scan position, with its place.
pub open spec fn scan_separator(src: Seq<u8>, at: ScanState) -> Option<(TokenView, ScanState)> {
    if at.pos < src.len() {
        match Separator::of_byte(src[at.pos as int]) {
            Some(sep) => Some((TokenView::Separator(sep, at.place()), at.stepped(1))),
            None => None,
        }
    } else {
        None
    }
}

/// The state at the mark `mark`, once the blanks before it are stepped over,
/// if that mark stands there.
pub open spec fn scan_mark(src: Seq<u8>, st: ScanState, mark: char) -> Option<ScanState> {
    let at = skip_blanks(src, st);
    if at.pos < src.len() && src[at.pos as int] == mark as u8 {
        Some(at)
    } else {
        None
    }
}

/// A time signature: `[`, a number, `/`, a number and `]`, with blanks
/// allowed between them. Its place is that of the closing bracket. Any other
/// shape gives no token at all.
pub open spec fn scan_signature(src: Seq<u8>, at: ScanState) -> Option<(TokenView, ScanState)> {
    if at.pos < src.len() && src[at.pos as int] == '[' as u8 {
        match scan_number(src, skip_blanks(src, at.stepped(1))) {
            Some((TokenView::Number(top, _), after_top)) => match scan_mark(src, after_top, '/') {
                Some(slash) => match scan_number(src, skip_blanks(src, slash.stepped(1))) {
                    Some((TokenView::Number(bottom, _), after_bottom)) => match scan_mark(
                        src,
                        after_bottom,
                        ']',
                    ) {
                        Some(close) => Some(
                            (TokenView::Signature(top, bottom, close.place()), close.stepped(1)),
                        ),
                        None => None,
                    },
                    _ => None,
                },
                None => None,
            },
            _ => None,
        }
    } else {
        None
    }
}

/// The next token of `src` from the state `st` on, and the state after it.
///
/// Blanks are stepped over first. The byte that follows decides what is
/// scanned: a double quote starts a literal, a digit a number, `[` a
/// signature, a punctuation mark is a separator, and anything else starts a
/// word. There is no token at the end of the text or where the scan fails.
pub open spec fn scan_token(src: Seq<u8>, st: ScanState) -> Option<(TokenView, ScanState)> {
    let at = skip_blanks(src, st);
    if at.pos >= src.len() {
        None
    } else {
        let b = src[at.pos as int];
        if b == '"' as u8 {
            scan_literal(src, at)
        } else if is_digit(b) {
            scan_number(src, at)
        } else if b == '[' as u8 {
            scan_signature(src, at)
        } else if Separator::of_byte(b) is Some {
            scan_separator(src, at)
        } else {
            scan_word(src, at)
        }
    }
}

/// The state a lexer is left in by a call that gave no token: the blanks are
/// stepped over, and then the rest of the text, which is given up.
pub open spec fn exhausted(src: Seq<u8>, st: ScanState) -> ScanState {
    let at = skip_blanks(src, st);
    at.stepped((src.len() - at.pos) as nat)
}

/// The tokens that follow the state `st`, up to the end of the text or to the
/// first place where no token can be scanned.
pub open spec fn tokens_from(src: Seq<u8>, st: ScanState) -> Seq<TokenView>
    decreases src.len() - st.pos,
{
    match scan_token(src, st) {
        Some((token, next)) => {
            proof {
                lemma_scan_token(src, st);
            }
            seq![token] + tokens_from(src, next)
        },
        None => seq![],
    }
}

/// The token stream of a source text.
pub open spec fn tokenize(src: Seq<u8>) -> Seq<TokenView> {
    tokens_from(src, ScanState::start())
}

/// Stepping over blanks moves forward only, stops at a byte that is no
/// blank, and keeps the bounds of the state.
pub proof fn lemma_skip_blanks(src: Seq<u8>, st: ScanState)
    ensures
        st.pos <= skip_blanks(src, st).pos,
        st.pos <= src.len() ==> skip_blanks(src, st).pos <= src.len(),
        st.line <= skip_blanks(src, st).line,
        st.line == skip_blanks(src, st).line ==> skip_blanks(src, st) == st.stepped(
            (skip_blanks(src, st).pos - st.pos) as nat,
        ),
        st.within(src) ==> skip_blanks(src, st).within(src),
        forall|i: int| st.pos <= i < skip_blanks(src, st).pos ==> is_blank(#[trigger] src[i]),
        skip_blanks(src, st).pos < src.len() ==> !is_blank(src[skip_blanks(src, st).pos as int]),
        skip_blanks(src, skip_blanks(src, st)) == skip_blanks(src, st),
    decreases src.len() - st.pos,
{
    if st.pos < src.len() && is_blank(src[st.pos as int]) {
        if is_line_break(src[st.pos as int]) {
            lemma_skip_blanks(src, st.next_line());
        } else {
            lemma_skip_blanks(src, st.stepped(1));
        }
    }
}

/// A number ends after its start and inside the text, and keeps the bounds of
/// the state.
pub proof fn lemma_scan_number(src: Seq<u8>, at: ScanState)
    ensures
        scan_number(src, at) matches Some((token, next)) ==> {
            &&& token is Number
            &&& at.pos < next.pos < src.len()
            &&& next.line == at.line
            &&& (at.within(src) ==> next.within(src))
        },
{
}

/// A token ends after the state it was scanned from and inside the text, and
/// keeps the bounds of the state.
pub proof fn lemma_scan_token(src: Seq<u8>, st: ScanState)
    ensures
        scan_token(src, st) matches Some((token, next)) ==> {
            &&& st.pos < next.pos <= src.len()
            &&& st.line <= next.line
            &&& (st.within(src) ==> next.within(src))
        },
{
    let at = skip_blanks(src, st);
    lemma_skip_blanks(src, st);
    if at.pos < src.len() {
        let b = src[at.pos as int];
        if b == '"' as u8 {
            lemma_run_end(src, at.pos as int + 1, Run::Quoted);
        } else if is_digit(b) {
            lemma_scan_number(src, at);
        } else if b == '[' as u8 {
            let a = skip_blanks(src, at.stepped(1));
            lemma_skip_blanks(src, at.stepped(1));
            lemma_scan_number(src, a);
            if let Some((_, after_top)) = scan_number(src, a) {
                lemma_skip_blanks(src, after_top);
                if let Some(slash) = scan_mark(src, after_top, '/') {
                    let c = skip_blanks(src, slash.stepped(1));
                    lemma_skip_blanks(src, slash.stepped(1));
                    lemma_scan_number(src, c);
                    if let Some((_, after_bottom)) = scan_number(src, c) {
                        lemma_skip_blanks(src, after_bottom);
                    }
                }
            }
        } else if Separator::of_byte(b) is Some {
        } else {
            lemma_run_end(src, at.pos as int, Run::Word);
        }
    }
}

/// Every token takes at least one byte, so no more tokens follow a state than
/// bytes do.
pub proof fn lemma_tokens_from_len(src: Seq<u8>, st: ScanState)
    requires
        st.pos <= src.len(),
    ensures
        tokens_from(src, st).len() <= src.len() - st.pos,
    decreases src.len() - st.pos,
{
    lemma_scan_token(src, st);
    if let Some((_, next)) = scan_token(src, st) {
        lemma_tokens_from_len(src, next);
    }
}

/// Nothing follows an exhausted state.
pub proof fn lemma_exhausted(src: Seq<u8>, st: ScanState)
    requires
        st.pos <= src.len(),
    ensures
        scan_token(src, exhausted(src, st)) is None,
        tokens_from(src, exhausted(src, st)) == Seq::<TokenView>::empty(),
        exhausted(src, exhausted(src, st)) == exhausted(src, st),
        st.within(src) ==> exhausted(src, st).within(src),
{
    lemma_skip_blanks(src, st);
}

/// What a token says is what the source says: the text of an identifier or
/// of a literal is the part of the source it was scanned from, a keyword and
/// a separator stand where the source spells them, a number is the value of
/// its digits, and a signature stands between its brackets. A note or an end
/// of input is never scanned.
pub proof fn lemma_token_spelling(src: Seq<u8>, st: ScanState)
    ensures
        scan_token(src, st) matches Some((token, next)) ==> {
            let from = skip_blanks(src, st).pos as int;
            let to = next.pos as int;
            &&& 0 <= from < to <= src.len()
            &&& match token {
                TokenView::Identifier(text, _) => {
                    &&& text == src.subrange(from, to)
                    &&& Keyword::of_bytes(text) is None
                    &&& forall|i: int| from <= i < to ==> !is_delimiter(#[trigger] src[i])
                    &&& is_delimiter(src[to])
                },
                TokenView::Keyword(word, _) => {
                    &&& src.subrange(from, to) == ascii_bytes(word.spelling())
                    &&& is_delimiter(src[to])
                },
                TokenView::Literal(text, _) => {
                    &&& text == src.subrange(from + 1, to - 1)
                    &&& src[from] == '"' as u8
                    &&& src[to - 1] == '"' as u8
                    &&& forall|i: int| from < i < to - 1 ==> #[trigger] src[i] != '"' as u8
                },
                TokenView::Number(value, _) => {
                    &&& value == decimal_value(src.subrange(from, to))
                    &&& forall|i: int| from <= i < to ==> is_digit(#[trigger] src[i])
                    &&& !is_digit(src[to])
                },
                TokenView::Separator(sep, _) => {
                    &&& to == from + 1
                    &&& src[from] == sep.symbol() as u8
                },
                TokenView::Signature(_, _, _) => {
                    &&& src[from] == '[' as u8
                    &&& src[to - 1] == ']' as u8
                },
                TokenView::Note(_, _, _) => false,
                TokenView::EOF(_) => false,
            }
        },
{
    let at = skip_blanks(src, st);
    lemma_skip_blanks(src, st);
    if let Some((token, next)) = scan_token(src, st) {
        let b = src[at.pos as int];
        if b == '"' as u8 {
            lemma_run_end(src, at.pos as int + 1, Run::Quoted);
        } else if is_digit(b) {
            lemma_run_end(src, at.pos as int, Run::Digits);
        } else if b == '[' as u8 {
            lemma_scan_token(src, st);
        } else if Separator::of_byte(b) is Some {
            Separator::of_byte(b).unwrap().lemma_symbol_round_trip(b);
        } else {
            lemma_run_end(src, at.pos as int, Run::Word);
            if let TokenView::Keyword(word, _) = token {
                word.lemma_spelling_round_trip(src.subrange(at.pos as int, next.pos as int));
            }
        }
    }
}

/// No token of a token stream is a note or an end of input.
pub proof fn lemma_tokens_are_scanned(src: Seq<u8>, st: ScanState, i: int)
    requires
        0 <= i < tokens_from(src, st).len(),
    ensures
        !(tokens_from(src, st)[i] is Note),
        !(tokens_from(src, st)[i] is EOF),
    decreases i,
{
    lemma_token_spelling(src, st);
    if i > 0 {
        lemma_tokens_are_scanned(src, scan_token(src, st).unwrap().1, i - 1);
    }
}

/// A token is placed where its scan ended, and that is never before the
/// place where the scan began nor behind the place where the next scan
/// begins. A word and a number are placed at the byte that ends them, where
/// the next scan begins; a separator, a literal and a signature are placed at
/// their last byte, one byte before it.
pub proof fn lemma_token_place(src: Seq<u8>, st: ScanState)
    requires
        st.within(src),
        src.len() <= isize::MAX,
    ensures
        scan_token(src, st) matches Some((token, next)) ==> {
            &&& st.place().at_or_before(token.location())
            &&& token.location().at_or_before(next.place())
            &&& token.location().line == next.line
            &&& next.col <= next.pos
            &&& match token {
                TokenView::Identifier(_, _) => token.location() == next.place(),
                TokenView::Keyword(_, _) => token.location() == next.place(),
                TokenView::Number(_, _) => token.location() == next.place(),
                _ => token.location().col + 1 == next.col,
            }
        },
{
    let at = skip_blanks(src, st);
    lemma_skip_blanks(src, st);
    lemma_scan_token(src, st);
    if let Some((token, next)) = scan_token(src, st) {
        let b = src[at.pos as int];
        if b == '"' as u8 {
            lemma_run_end(src, at.pos as int + 1, Run::Quoted);
        } else if is_digit(b) {
            lemma_scan_number(src, at);
        } else if b == '[' as u8 {
            let a = skip_blanks(src, at.stepped(1));
            lemma_skip_blanks(src, at.stepped(1));
            lemma_scan_number(src, a);
            let after_top = scan_number(src, a).unwrap().1;
            lemma_skip_blanks(src, after_top);
            let slash = scan_mark(src, after_top, '/').unwrap();
            let c = skip_blanks(src, slash.stepped(1));
            lemma_skip_blanks(src, slash.stepped(1));
            lemma_scan_number(src, c);
            let after_bottom = scan_number(src, c).unwrap().1;
            lemma_skip_blanks(src, after_bottom);
        } else if Separator::of_byte(b) is Some {
        } else {
            lemma_run_end(src, at.pos as int, Run::Word);
        }
    }
}

/// The places of the tokens of a token stream never go back: a token is
/// placed at or before every token that follows it.
pub proof fn lemma_places_in_order(src: Seq<u8>, st: ScanState, i: nat, j: nat)
    requires
        st.within(src),
        src.len() <= isize::MAX,
        i <= j < tokens_from(src, st).len(),
    ensures
        st.place().at_or_before(tokens_from(src, st)[i as int].location()),
        tokens_from(src, st)[i as int].location().at_or_before(
            tokens_from(src, st)[j as int].location(),
        ),
    decreases j,
{
    lemma_token_place(src, st);
    lemma_scan_token(src, st);
    let next = scan_token(src, st).unwrap().1;
    if i > 0 {
        lemma_places_in_order(src, next, (i - 1) as nat, (j - 1) as nat);
    } else if j > 0 {
        lemma_places_in_order(src, next, 0, (j - 1) as nat);
    }
}

/// The state that a scan stands in after `n` tokens were scanned from the
/// state `st` on.
pub open spec fn state_after(src: Seq<u8>, st: ScanState, n: nat) -> ScanState
    decreases n,
{
    if n == 0 {
        st
    } else {
        match scan_token(src, st) {
            Some((_, next)) => state_after(src, next, (n - 1) as nat),
            None => exhausted(src, st),
        }
    }
}

/// Token `i` of a token stream is the one that is scanned after the `i`
/// tokens before it, and it ends further on in the text than they do.
pub proof fn lemma_token_in_stream(src: Seq<u8>, st: ScanState, i: nat)
    requires
        i < tokens_from(src, st).len(),
    ensures
        scan_token(src, state_after(src, st, i)) == Some(
            (tokens_from(src, st)[i as int], state_after(src, st, i + 1)),
        ),
        st.pos <= state_after(src, st, i).pos < state_after(src, st, i + 1).pos <= src.len(),
    decreases i,
{
    lemma_scan_token(src, st);
    let next = scan_token(src, st).unwrap().1;
    if i > 0 {
        lemma_token_in_stream(src, next, (i - 1) as nat);
        assert(state_after(src, st, i + 1) == state_after(src, next, i));
    } else {
        assert(state_after(src, st, 1) == state_after(src, next, 0));
    }
}

/// The tokens of a token stream stand in the text in the order of the
/// stream, one after the other: a token ends before a later one begins.
pub proof fn lemma_tokens_in_source_order(src: Seq<u8>, st: ScanState, i: nat, j: nat)
    requires
        i < j < tokens_from(src, st).len(),
    ensures
        state_after(src, st, i + 1).pos <= state_after(src, st, j).pos,
        state_after(src, st, j).pos <= skip_blanks(src, state_after(src, st, j)).pos,
    decreases j - i,
{
    lemma_skip_blanks(src, state_after(src, st, j));
    if i + 1 < j {
        lemma_tokens_in_source_order(src, st, i + 1, j);
        lemma_token_in_stream(src, st, i + 1);
    }
}

/// The scan never goes back: the state after some tokens is placed at or
/// behind the state before them, and keeps what every state keeps.
pub proof fn lemma_state_after_in_order(src: Seq<u8>, st: ScanState, n: nat)
    requires
        st.within(src),
        src.len() <= isize::MAX,
        n <= tokens_from(src, st).len(),
    ensures
        state_after(src, st, n).within(src),
        st.place().at_or_before(state_after(src, st, n).place()),
    decreases n,
{
    if n > 0 {
        lemma_token_place(src, st);
        lemma_scan_token(src, st);
        lemma_state_after_in_order(src, scan_token(src, st).unwrap().1, (n - 1) as nat);
    }
}

/// A token is placed at or before the place where the scan stands after it
/// and after any tokens that follow it.
pub proof fn lemma_place_before_state(src: Seq<u8>, st: ScanState, i: nat, n: nat)
    requires
        st.within(src),
        src.len() <= isize::MAX,
        i < n <= tokens_from(src, st).len(),
    ensures
        tokens_from(src, st)[i as int].location().at_or_before(
            state_after(src, st, n).place(),
        ),
    decreases i,
{
    lemma_token_place(src, st);
    lemma_scan_token(src, st);
    let next = scan_token(src, st).unwrap().1;
    if i > 0 {
        lemma_place_before_state(src, next, (i - 1) as nat, (n - 1) as nat);
    } else {
        lemma_state_after_in_order(src, next, (n - 1) as nat);
    }
}

/// A scanner over one source text. It goes forward only: what it has handed
/// out it never scans again.
pub struct Lexer<'src> {
    pos: usize,
    line: usize,
    col: usize,
    source: &'src str,
}

impl<'src> Lexer<'src> {
    /// The bytes of the source text.
    pub closed spec fn text(&self) -> Seq<u8> {
        self.source.spec_bytes()
    }

    /// Where the scan stands.
    pub closed spec fn state(&self) -> ScanState {
        ScanState { pos: self.pos as nat, line: self.line as nat, col: self.col as nat }
    }

    /// What holds of every lexer: its counters fit the machine's integers, and
    /// the scan stands between two characters of the text.
    pub open spec fn wf(&self) -> bool {
        &&& self.text().len() <= isize::MAX
        &&& valid_utf8(self.text())
        &&& self.state().within(self.text())
        &&& is_char_boundary(self.text(), self.state().pos as int)
    }

    /// The tokens that this lexer has yet to hand out.
    pub open spec fn pending(&self) -> Seq<TokenView> {
        tokens_from(self.text(), self.state())
    }

    /// A lexer at the start of `source`. The text must be no longer than any
    /// text in memory can be.
    pub fn new(source: &'src str) -> (lexer: Self)
        requires
            source.spec_bytes().len() <= isize::MAX,
        ensures
            lexer.wf(),
            lexer.text() == source.spec_bytes(),
            lexer.state() == ScanState::start(),
            lexer.pending() == tokenize(source.spec_bytes()),
    {
        proof {
            encode_utf8_valid_utf8(source@);
        }
        Self { source, pos: 0, line: 1, col: 0 }
    }

    /// Scans the next token. When there is none, because the text has ended or
    /// because what stands there is no token, the lexer gives up the rest of
    /// the text: every later call returns `None` too.
    pub fn lex(&mut self) -> (token: Option<Token<'src>>)
        requires
            old(self).wf(),
        ensures
            final(self).wf(),
            final(self).text() == old(self).text(),
            old(self).state().pos <= final(self).state().pos,
            token is Some ==> old(self).state().pos < final(self).state().pos,
            match scan_token(old(self).text(), old(self).state()) {
                Some((expected, next)) => {
                    &&& token matches Some(found)
                    &&& found@ == expected
                    &&& final(self).state() == next
                },
                None => {
                    &&& token is None
                    &&& final(self).state() == exhausted(old(self).text(), old(self).state())
                },
            },
            token matches Some(found) ==> {
                &&& old(self).pending().len() > 0
                &&& found@ == old(self).pending()[0]
                &&& final(self).pending() == old(self).pending().drop_first()
            },
            token is None ==> {
                &&& old(self).pending().len() == 0
                &&& final(self).pending().len() == 0
            },
    {
        let ghost src = self.text();
        let ghost before = self.state();
        proof {
            lemma_scan_token(src, before);
            lemma_exhausted(src, before);
            lemma_skip_blanks(src, before);
        }
        let token = match self.advance_filtered() {
            None => None,
            Some(value) => {
                if value == '"' as u8 {
                    self.process_literal()
                } else if Self::is_digit(value) {
                    self.process_number()
                } else if value == '[' as u8 {
                    self.process_signature()
                } else if Separator::from_byte(value).is_some() {
                    self.process_separator()
                } else {
                    self.process_word()
                }
            },
        };
        if token.is_none() {
            let end = self.source.as_bytes().len();
            self.col = self.col + (end - self.pos);
            self.pos = end;
            proof {
                is_char_boundary_start_end_of_seq(src);
            }
        } else {
            assert(old(self).pending().drop_first() =~= tokens_from(src, self.state())) by {
                let next = scan_token(src, before).unwrap().1;
                assert(tokens_from(src, before) =~= seq![scan_token(src, before).unwrap().0]
                    + tokens_from(src, next));
            }
        }
        token
    }

    /// The place that the byte under the scan is given.
    fn loc(&self) -> (place: Location)
        ensures
            place == self.state().place(),
    {
        Location { line: self.line, col: self.col }
    }

    /// Scans a time signature from the opening bracket under the scan. On
    /// failure the lexer stays where it was.
    fn process_signature(&mut self) -> (token: Option<Token<'src>>)
        requires
            old(self).wf(),
            old(self).state().pos < old(self).text().len(),
            old(self).text()[old(self).state().pos as int] == '[' as u8,
        ensures
            final(self).wf(),
            final(self).text() == old(self).text(),
            match scan_signature(old(self).text(), old(self).state()) {
                Some((expected, next)) => {
                    &&& token matches Some(found)
                    &&& found@ == expected
                    &&& final(self).state() == next
                },
                None => token is None && final(self).state() == old(self).state(),
            },
    {
        let mut probe =
            Lexer { source: self.source, pos: self.pos, line: self.line, col: self.col };
        probe.advance();
        let top = match probe.signature_part() {
            Some(value) => value,
            None => {
                return None;
            },
        };
        if !probe.signature_mark('/') {
            return None;
        }
        probe.advance();
        let bottom = match probe.signature_part() {
            Some(value) => value,
            None => {
                return None;
            },
        };
        if !probe.signature_mark(']') {
            return None;
        }
        let token = Token::Signature(top, bottom, probe.loc());
        probe.advance();
        self.pos = probe.pos;
        self.line = probe.line;
        self.col = probe.col;
        Some(token)
    }

    /// Steps over blanks and scans one of the two numbers of a signature.
    fn signature_part(&mut self) -> (value: Option<u32>)
        requires
            old(self).wf(),
        ensures
            final(self).wf(),
            final(self).text() == old(self).text(),
            match scan_number(old(self).text(), skip_blanks(old(self).text(), old(self).state())) {
                Some((TokenView::Number(expected, _), next)) => {
                    &&& value == Some(expected)
                    &&& final(self).state() == next
                },
                _ => value is None,
            },
    {
        proof {
            lemma_scan_number(self.text(), skip_blanks(self.text(), self.state()));
        }
        let first = self.advance_filtered();
        match first {
            Some(value) => {
                if Self::is_digit(value) {
                    match self.process_number() {
                        Some(Token::Number(value, _)) => Some(value),
                        _ => None,
                    }
                } else {
                    None
                }
            },
            None => None,
        }
    }

    /// Steps over blanks and says whether the scan then stands on the mark
    /// `mark`, which is one of the marks of a signature.
    fn signature_mark(&mut self, mark: char) -> (found: bool)
        requires
            old(self).wf(),
            mark == '/' || mark == ']',
        ensures
            final(self).wf(),
            final(self).text() == old(self).text(),
            final(self).state() == skip_blanks(old(self).text(), old(self).state()),
            found == (scan_mark(old(self).text(), old(self).state(), mark) is Some),
            found ==> scan_mark(old(self).text(), old(self).state(), mark) == Some(
                final(self).state(),
            ),
    {
        let first = self.advance_filtered();
        first == Some(mark as u8)
    }

    /// Scans a number from the digit under the scan. On failure the lexer
    /// stays where it was.
    fn process_number(&mut self) -> (token: Option<Token<'src>>)
        requires
            old(self).wf(),
            old(self).state().pos < old(self).text().len(),
            is_digit(old(self).text()[old(self).state().pos as int]),
        ensures
            final(self).wf(),
            final(self).text() == old(self).text(),
            match scan_number(old(self).text(), old(self).state()) {
                Some((expected, next)) => {
                    &&& token matches Some(found)
                    &&& found@ == expected
                    &&& final(self).state() == next
                },
                None => token is None && final(self).state() == old(self).state(),
            },
    {
        let bytes = self.source.as_bytes();
        let end = find_run_end(bytes, self.pos, Run::Digits);
        proof {
            lemma_run_end(bytes@, self.pos as int, Run::Digits);
        }
        if end >= bytes.len() {
            return None;
        }
        match parse_decimal(bytes, self.pos, end) {
            None => None,
            Some(value) => {
                proof {
                    lemma_boundary_after_ascii(bytes@, end - 1);
                }
                let steps = end - self.pos;
                let place = Location { line: self.line, col: self.col + steps };
                self.pos = end;
                self.col = self.col + steps;
                Some(Token::Number(value, place))
            },
        }
    }

    /// Scans a string literal from the opening quote under the scan. On
    /// failure the lexer stays where it was.
    fn process_literal(&mut self) -> (token: Option<Token<'src>>)
        requires
            old(self).wf(),
            old(self).state().pos < old(self).text().len(),
            old(self).text()[old(self).state().pos as int] == '"' as u8,
        ensures
            final(self).wf(),
            final(self).text() == old(self).text(),
            match scan_literal(old(self).text(), old(self).state()) {
                Some((expected, next)) => {
                    &&& token matches Some(found)
                    &&& found@ == expected
                    &&& final(self).state() == next
                },
                None => token is None && final(self).state() == old(self).state(),
            },
    {
        let bytes = self.source.as_bytes();
        let close = find_run_end(bytes, self.pos + 1, Run::Quoted);
        proof {
            lemma_run_end(bytes@, self.pos + 1, Run::Quoted);
        }
        if close >= bytes.len() {
            return None;
        }
        proof {
            lemma_boundary_after_ascii(bytes@, self.pos as int);
            lemma_boundary_at_ascii(bytes@, close as int);
            lemma_boundary_after_ascii(bytes@, close as int);
        }
        let literal = slice_between(self.source, self.pos + 1, close);
        let steps = close - self.pos;
        let place = Location { line: self.line, col: self.col + steps };
        self.pos = close + 1;
        self.col = self.col + steps + 1;
        Some(Token::Literal(literal, place))
    }

    /// Reads the byte under the scan as a separator and steps over it.
    fn process_separator(&mut self) -> (token: Option<Token<'src>>)
        requires
            old(self).wf(),
        ensures
            final(self).wf(),
            final(self).text() == old(self).text(),
            match scan_separator(old(self).text(), old(self).state()) {
                Some((expected, next)) => {
                    &&& token matches Some(found)
                    &&& found@ == expected
                    &&& final(self).state() == next
                },
                None => token is None && final(self).state() == old(self).state(),
            },
    {
        match self.peek() {
            None => None,
            Some(value) => match Separator::from_byte(value) {
                None => None,
                Some(sep) => {
                    let token = Token::Separator(sep, self.loc());
                    self.advance();
                    Some(token)
                },
            },
        }
    }

    /// Scans a word from the byte under the scan, which is neither a blank
    /// nor a separator. On failure the lexer stays where it was.
    fn process_word(&mut self) -> (token: Option<Token<'src>>)
        requires
            old(self).wf(),
        ensures
            final(self).wf(),
            final(self).text() == old(self).text(),
            match scan_word(old(self).text(), old(self).state()) {
                Some((expected, next)) => {
                    &&& token matches Some(found)
                    &&& found@ == expected
                    &&& final(self).state() == next
                },
                None => token is None && final(self).state() == old(self).state(),
            },
    {
        let bytes = self.source.as_bytes();
        let end = find_run_end(bytes, self.pos, Run::Word);
        proof {
            lemma_run_end(bytes@, self.pos as int, Run::Word);
        }
        if end <= self.pos || end >= bytes.len() {
            return None;
        }
        proof {
            lemma_boundary_at_ascii(bytes@, end as int);
        }
        let literal = slice_between(self.source, self.pos, end);
        let steps = end - self.pos;
        let place = Location { line: self.line, col: self.col + steps };
        self.pos = end;
        self.col = self.col + steps;
        let token = match Keyword::from_bytes(literal.as_bytes()) {
            Some(word) => Token::Keyword(word, place),
            None => Token::Identifier(literal, place),
        };
        Some(token)
    }

    /// Steps over the one-byte character under the scan.
    fn advance(&mut self)
        requires
            old(self).wf(),
            old(self).state().pos < old(self).text().len(),
            old(self).text()[old(self).state().pos as int] < 0x80,
        ensures
            final(self).wf(),
            final(self).text() == old(self).text(),
            final(self).state() == old(self).state().stepped(1),
    {
        proof {
            lemma_boundary_after_ascii(self.text(), self.pos as int);
        }
        self.pos = self.pos + 1;
        self.col = self.col + 1;
    }

    /// Steps over the blanks under the scan, counting lines, and returns the
    /// byte that the scan then stands on, if the text has not ended.
    fn advance_filtered(&mut self) -> (value: Option<u8>)
        requires
            old(self).wf(),
        ensures
            final(self).wf(),
            final(self).text() == old(self).text(),
            final(self).state() == skip_blanks(old(self).text(), old(self).state()),
            value == if final(self).state().pos < final(self).text().len() {
                Some(final(self).text()[final(self).state().pos as int])
            } else {
                None
            },
    {
        loop
            invariant
                self.wf(),
                self.text() == old(self).text(),
                skip_blanks(self.text(), self.state()) == skip_blanks(
                    old(self).text(),
                    old(self).state(),
                ),
            ensures
                self.wf(),
                self.text() == old(self).text(),
                self.state() == skip_blanks(old(self).text(), old(self).state()),
            decreases self.text().len() - self.state().pos,
        {
            let value = match self.peek() {
                Some(value) => value,
                None => {
                    break ;
                },
            };
            if !Self::is_whitespace(value) {
                break ;
            }
            self.advance();
            if Self::is_newline(value) {
                self.line = self.line + 1;
                self.col = 0;
            }
        }
        self.peek()
    }

    /// The byte under the scan, if the text has not ended.
    fn peek(&self) -> (value: Option<u8>)
        requires
            self.wf(),
        ensures
            value == if self.state().pos < self.text().len() {
                Some(self.text()[self.state().pos as int])
            } else {
                None
            },
    {
        let bytes = self.source.as_bytes();
        if self.pos < bytes.len() {
            Some(bytes[self.pos])
        } else {
            None
        }
    }

    /// Whether a byte is a blank.
    fn is_whitespace(value: u8) -> (r: bool)
        ensures
            r == is_blank(value),
    {
        value == ' ' as u8 || value == '\t' as u8 || value == '\n' as u8 || value == '\r' as u8
    }

    /// Whether a byte is a line feed.
    fn is_newline(value: u8) -> (r: bool)
        ensures
            r == is_line_break(value),
    {
        value == '\n' as u8
    }

    /// Whether a byte is a decimal digit.
    fn is_digit(value: u8) -> (r: bool)
        ensures
            r == is_digit(value),
    {
        '0' as u8 <= value && value <= '9' as u8
    }
}

} // verus!
