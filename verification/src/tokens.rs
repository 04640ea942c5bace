//! Tokens of the staff language: what they are, where they were found and
//! how they are written.

use crate::text::{decimal_value, is_digit, same_bytes};
use vstd::prelude::*;
use vstd::string::*;
use vstd::utf8::*;

verus! {

/// A place in the source text: a line, counted from one, and a column, the
/// distance in bytes from the start of that line.
#[derive(Debug, Clone, Copy, PartialEq, Eq)]
pub struct Location {
    pub line: usize,
    pub col: usize,
}

/// The punctuation marks of the language.
#[derive(Debug, Clone, Copy, PartialEq, Eq)]
pub enum Separator {
    LParan,
    RParan,
    Semicolon,
    LCurly,
    RCurly,
    Comma,
}

/// The pitch names a note token can carry.
#[derive(Debug, Clone, Copy, PartialEq, Eq)]
pub enum Note {
    C,
    Cs,
    Db,
    D,
    Ds,
    Eb,
    E,
    F,
    Fs,
    Gb,
    G,
    Gs,
    Ab,
    A,
    As,
    Bb,
    B,
}

/// The reserved words of the language.
#[derive(Debug, Clone, Copy, PartialEq, Eq)]
pub enum Keyword {
    Import,
    Meta,
    Staff,
    Pickup,
    Measure,
    From,
    With,
    Is,
    In,
}

/// One lexical unit of the source, with the place where its scan ended: for
/// a word or a number the byte that ends it, for a separator, a literal or a
/// signature its last byte.
///
/// The text of a literal or an identifier is a slice of the source itself.
#[derive(Debug, Clone, Copy, PartialEq, Eq)]
pub enum Token<'src> {
    Separator(Separator, Location),
    Literal(&'src str, Location),
    Identifier(&'src str, Location),
    Signature(u32, u32, Location),
    Number(u32, Location),
    Note(Note, u8, Location),
    Keyword(Keyword, Location),
    EOF(Location),
}

/// The category of a token, without its payload.
#[derive(Debug, Clone, Copy, PartialEq, Eq)]
pub enum TokenType {
    Separator,
    Literal,
    Identifier,
    Signature,
    Number,
    Note,
    Keyword,
    EOF,
}

/// The mathematical value of a [`Token`]: the same variants, with the text of
/// a literal or an identifier given as its UTF-8 bytes.
pub enum TokenView {
    Separator(Separator, Location),
    Literal(Seq<u8>, Location),
    Identifier(Seq<u8>, Location),
    Signature(u32, u32, Location),
    Number(u32, Location),
    Note(Note, u8, Location),
    Keyword(Keyword, Location),
    EOF(Location),
}

impl<'src> View for Token<'src> {
    type V = TokenView;

    open spec fn view(&self) -> TokenView {
        match *self {
            Token::Separator(sep, loc) => TokenView::Separator(sep, loc),
            Token::Literal(text, loc) => TokenView::Literal(text.spec_bytes(), loc),
            Token::Identifier(text, loc) => TokenView::Identifier(text.spec_bytes(), loc),
            Token::Signature(top, bottom, loc) => TokenView::Signature(top, bottom, loc),
            Token::Number(value, loc) => TokenView::Number(value, loc),
            Token::Note(note, octave, loc) => TokenView::Note(note, octave, loc),
            Token::Keyword(word, loc) => TokenView::Keyword(word, loc),
            Token::EOF(loc) => TokenView::EOF(loc),
        }
    }
}

impl Location {
    /// Whether this place is the other one or comes before it in the text:
    /// on an earlier line, or on the same line at no later column.
    pub open spec fn at_or_before(self, other: Location) -> bool {
        self.line < other.line || (self.line == other.line && self.col <= other.col)
    }
}

/// The bytes of a sequence of one-byte characters.
pub open spec fn ascii_bytes(text: Seq<char>) -> Seq<u8> {
    Seq::new(text.len(), |i: int| text[i] as u8)
}

impl Separator {
    /// The punctuation character that stands for this separator in source text.
    pub open spec fn symbol(self) -> char {
        match self {
            Separator::LParan => '(',
            Separator::RParan => ')',
            Separator::Semicolon => ';',
            Separator::LCurly => '{',
            Separator::RCurly => '}',
            Separator::Comma => ',',
        }
    }

    /// The separator that a source byte stands for, if it stands for one.
    pub open spec fn of_byte(b: u8) -> Option<Separator> {
        if b == '(' as u8 {
            Some(Separator::LParan)
        } else if b == ')' as u8 {
            Some(Separator::RParan)
        } else if b == ';' as u8 {
            Some(Separator::Semicolon)
        } else if b == '{' as u8 {
            Some(Separator::LCurly)
        } else if b == '}' as u8 {
            Some(Separator::RCurly)
        } else if b == ',' as u8 {
            Some(Separator::Comma)
        } else {
            None
        }
    }

    /// Reads a source byte as a separator.
    pub fn from_byte(b: u8) -> (r: Option<Separator>)
        ensures
            r == Separator::of_byte(b),
    {
        if b == '(' as u8 {
            Some(Separator::LParan)
        } else if b == ')' as u8 {
            Some(Separator::RParan)
        } else if b == ';' as u8 {
            Some(Separator::Semicolon)
        } else if b == '{' as u8 {
            Some(Separator::LCurly)
        } else if b == '}' as u8 {
            Some(Separator::RCurly)
        } else if b == ',' as u8 {
            Some(Separator::Comma)
        } else {
            None
        }
    }

    /// Every separator is read back from its own symbol, and a byte that is
    /// read as a separator is that separator's symbol.
    pub proof fn lemma_symbol_round_trip(self, b: u8)
        ensures
            Separator::of_byte(self.symbol() as u8) == Some(self),
            Separator::of_byte(b) == Some(self) ==> b == self.symbol() as u8,
    {
    }
}

impl Keyword {
    /// The lower-case spelling of this reserved word.
    pub open spec fn spelling(self) -> Seq<char> {
        match self {
            Keyword::Import => seq!['i', 'm', 'p', 'o', 'r', 't'],
            Keyword::Meta => seq!['m', 'e', 't', 'a'],
            Keyword::Staff => seq!['s', 't', 'a', 'f', 'f'],
            Keyword::Pickup => seq!['p', 'i', 'c', 'k', 'u', 'p'],
            Keyword::Measure => seq!['m', 'e', 'a', 's', 'u', 'r', 'e'],
            Keyword::From => seq!['f', 'r', 'o', 'm'],
            Keyword::With => seq!['w', 'i', 't', 'h'],
            Keyword::Is => seq!['i', 's'],
            Keyword::In => seq!['i', 'n'],
        }
    }

    /// The reserved word that a run of source bytes spells, if it spells one.
    pub open spec fn of_bytes(word: Seq<u8>) -> Option<Keyword> {
        if word == ascii_bytes(Keyword::Import.spelling()) {
            Some(Keyword::Import)
        } else if word == ascii_bytes(Keyword::Meta.spelling()) {
            Some(Keyword::Meta)
        } else if word == ascii_bytes(Keyword::Staff.spelling()) {
            Some(Keyword::Staff)
        } else if word == ascii_bytes(Keyword::Pickup.spelling()) {
            Some(Keyword::Pickup)
        } else if word == ascii_bytes(Keyword::Measure.spelling()) {
            Some(Keyword::Measure)
        } else if word == ascii_bytes(Keyword::From.spelling()) {
            Some(Keyword::From)
        } else if word == ascii_bytes(Keyword::With.spelling()) {
            Some(Keyword::With)
        } else if word == ascii_bytes(Keyword::Is.spelling()) {
            Some(Keyword::Is)
        } else if word == ascii_bytes(Keyword::In.spelling()) {
            Some(Keyword::In)
        } else {
            None
        }
    }
}

impl Keyword {
    /// Every reserved word is spelled in lower-case letters and is read back
    /// from its own spelling, and its spelling is the only run of bytes that
    /// is read as it.
    pub proof fn lemma_spelling_round_trip(self, word: Seq<u8>)
        ensures
            forall|i: int|
                0 <= i < self.spelling().len() ==> 'a' <= #[trigger] self.spelling()[i] <= 'z',
            Keyword::of_bytes(ascii_bytes(self.spelling())) == Some(self),
            Keyword::of_bytes(word) == Some(self) ==> word == ascii_bytes(self.spelling()),
    {
        let import = ascii_bytes(Keyword::Import.spelling());
        let meta = ascii_bytes(Keyword::Meta.spelling());
        let staff = ascii_bytes(Keyword::Staff.spelling());
        let pickup = ascii_bytes(Keyword::Pickup.spelling());
        let measure = ascii_bytes(Keyword::Measure.spelling());
        let from = ascii_bytes(Keyword::From.spelling());
        let with = ascii_bytes(Keyword::With.spelling());
        let is = ascii_bytes(Keyword::Is.spelling());
        let in_ = ascii_bytes(Keyword::In.spelling());
        assert(import.len() == 6 && import[0] == 'i' as u8);
        assert(meta.len() == 4 && meta[0] == 'm' as u8);
        assert(staff.len() == 5);
        assert(pickup.len() == 6 && pickup[0] == 'p' as u8);
        assert(measure.len() == 7);
        assert(from.len() == 4 && from[0] == 'f' as u8);
        assert(with.len() == 4 && with[0] == 'w' as u8);
        assert(is.len() == 2 && is[1] == 's' as u8);
        assert(in_.len() == 2 && in_[1] == 'n' as u8);
    }

    /// The lower-case spelling of this reserved word.
    pub fn as_str(&self) -> (s: &'static str)
        ensures
            s@ == self.spelling(),
            is_ascii(s),
    {
        match self {
            Keyword::Import => {
                proof {
                    reveal_strlit("import");
                }
                assert("import"@ =~= Keyword::Import.spelling());
                "import"
            },
            Keyword::Meta => {
                proof {
                    reveal_strlit("meta");
                }
                assert("meta"@ =~= Keyword::Meta.spelling());
                "meta"
            },
            Keyword::Staff => {
                proof {
                    reveal_strlit("staff");
                }
                assert("staff"@ =~= Keyword::Staff.spelling());
                "staff"
            },
            Keyword::Pickup => {
                proof {
                    reveal_strlit("pickup");
                }
                assert("pickup"@ =~= Keyword::Pickup.spelling());
                "pickup"
            },
            Keyword::Measure => {
                proof {
                    reveal_strlit("measure");
                }
                assert("measure"@ =~= Keyword::Measure.spelling());
                "measure"
            },
            Keyword::From => {
                proof {
                    reveal_strlit("from");
                }
                assert("from"@ =~= Keyword::From.spelling());
                "from"
            },
            Keyword::With => {
                proof {
                    reveal_strlit("with");
                }
                assert("with"@ =~= Keyword::With.spelling());
                "with"
            },
            Keyword::Is => {
                proof {
                    reveal_strlit("is");
                }
                assert("is"@ =~= Keyword::Is.spelling());
                "is"
            },
            Keyword::In => {
                proof {
                    reveal_strlit("in");
                }
                assert("in"@ =~= Keyword::In.spelling());
                "in"
            },
        }
    }

    /// Whether a run of source bytes spells this reserved word.
    fn spelled_by(&self, word: &[u8]) -> (r: bool)
        ensures
            r == (word@ == ascii_bytes(self.spelling())),
    {
        let text = self.as_str();
        proof {
            is_ascii_spec_bytes(text);
            assert(text.spec_bytes() =~= ascii_bytes(self.spelling()));
        }
        same_bytes(word, text.as_bytes())
    }

    /// Reads a run of source bytes as a reserved word.
    pub fn from_bytes(word: &[u8]) -> (r: Option<Keyword>)
        ensures
            r == Keyword::of_bytes(word@),
    {
        if Keyword::Import.spelled_by(word) {
            Some(Keyword::Import)
        } else if Keyword::Meta.spelled_by(word) {
            Some(Keyword::Meta)
        } else if Keyword::Staff.spelled_by(word) {
            Some(Keyword::Staff)
        } else if Keyword::Pickup.spelled_by(word) {
            Some(Keyword::Pickup)
        } else if Keyword::Measure.spelled_by(word) {
            Some(Keyword::Measure)
        } else if Keyword::From.spelled_by(word) {
            Some(Keyword::From)
        } else if Keyword::With.spelled_by(word) {
            Some(Keyword::With)
        } else if Keyword::Is.spelled_by(word) {
            Some(Keyword::Is)
        } else if Keyword::In.spelled_by(word) {
            Some(Keyword::In)
        } else {
            None
        }
    }
}

impl TokenView {
    /// The place recorded on the token.
    pub open spec fn location(self) -> Location {
        match self {
            TokenView::Separator(_, loc) => loc,
            TokenView::Literal(_, loc) => loc,
            TokenView::Identifier(_, loc) => loc,
            TokenView::Signature(_, _, loc) => loc,
            TokenView::Number(_, loc) => loc,
            TokenView::Note(_, _, loc) => loc,
            TokenView::Keyword(_, loc) => loc,
            TokenView::EOF(loc) => loc,
        }
    }

    /// The category of the token.
    pub open spec fn kind(self) -> TokenType {
        match self {
            TokenView::Separator(_, _) => TokenType::Separator,
            TokenView::Literal(_, _) => TokenType::Literal,
            TokenView::Identifier(_, _) => TokenType::Identifier,
            TokenView::Signature(_, _, _) => TokenType::Signature,
            TokenView::Number(_, _) => TokenType::Number,
            TokenView::Note(_, _, _) => TokenType::Note,
            TokenView::Keyword(_, _) => TokenType::Keyword,
            TokenView::EOF(_) => TokenType::EOF,
        }
    }

    /// Whether the token is the given separator.
    pub open spec fn is_separator(self, sep: Separator) -> bool {
        self matches TokenView::Separator(s, _) && s == sep
    }

    /// Whether the token is the given reserved word.
    pub open spec fn is_keyword(self, word: Keyword) -> bool {
        self matches TokenView::Keyword(w, _) && w == word
    }

    /// Whether the token may stand as an argument of a call.
    pub open spec fn is_argument(self) -> bool {
        self is Literal || self is Identifier || self is Note || self is Number
    }
}

impl<'src> Token<'src> {
    /// The place recorded on the token.
    pub fn location(&self) -> (loc: Location)
        ensures
            loc == self@.location(),
    {
        match *self {
            Token::Separator(_, loc) => loc,
            Token::Literal(_, loc) => loc,
            Token::Identifier(_, loc) => loc,
            Token::Signature(_, _, loc) => loc,
            Token::Number(_, loc) => loc,
            Token::Note(_, _, loc) => loc,
            Token::Keyword(_, loc) => loc,
            Token::EOF(loc) => loc,
        }
    }

    /// Whether the token is the given separator.
    pub fn is_separator(&self, sep: Separator) -> (r: bool)
        ensures
            r == self@.is_separator(sep),
    {
        match *self {
            Token::Separator(s, _) => match (s, sep) {
                (Separator::LParan, Separator::LParan) => true,
                (Separator::RParan, Separator::RParan) => true,
                (Separator::Semicolon, Separator::Semicolon) => true,
                (Separator::LCurly, Separator::LCurly) => true,
                (Separator::RCurly, Separator::RCurly) => true,
                (Separator::Comma, Separator::Comma) => true,
                _ => false,
            },
            _ => false,
        }
    }

    /// Whether the token is the given reserved word.
    pub fn is_keyword(&self, word: Keyword) -> (r: bool)
        ensures
            r == self@.is_keyword(word),
    {
        match *self {
            Token::Keyword(w, _) => match (w, word) {
                (Keyword::Import, Keyword::Import) => true,
                (Keyword::Meta, Keyword::Meta) => true,
                (Keyword::Staff, Keyword::Staff) => true,
                (Keyword::Pickup, Keyword::Pickup) => true,
                (Keyword::Measure, Keyword::Measure) => true,
                (Keyword::From, Keyword::From) => true,
                (Keyword::With, Keyword::With) => true,
                (Keyword::Is, Keyword::Is) => true,
                (Keyword::In, Keyword::In) => true,
                _ => false,
            },
            _ => false,
        }
    }
}

/// The character that writes a decimal digit.
pub open spec fn digit_symbol(digit: nat) -> char {
    if digit == 0 {
        '0'
    } else if digit == 1 {
        '1'
    } else if digit == 2 {
        '2'
    } else if digit == 3 {
        '3'
    } else if digit == 4 {
        '4'
    } else if digit == 5 {
        '5'
    } else if digit == 6 {
        '6'
    } else if digit == 7 {
        '7'
    } else if digit == 8 {
        '8'
    } else {
        '9'
    }
}

/// A number written in decimal digits, without leading zeros.
pub open spec fn decimal_text(n: nat) -> Seq<char>
    decreases n,
{
    if n < 10 {
        seq![digit_symbol(n)]
    } else {
        decimal_text(n / 10).push(digit_symbol(n % 10))
    }
}

/// A number is read back from what it is written as: its text is made of
/// digits, and their value is the number.
pub proof fn lemma_decimal_round_trip(n: nat)
    ensures
        decimal_text(n).len() >= 1,
        forall|i: int|
            0 <= i < decimal_text(n).len() ==> is_digit(#[trigger] ascii_bytes(decimal_text(n))[i]),
        decimal_value(ascii_bytes(decimal_text(n))) == n,
    decreases n,
{
    let text = decimal_text(n);
    let bytes = ascii_bytes(text);
    if n < 10 {
        assert(bytes.drop_last() =~= Seq::<u8>::empty());
        assert(decimal_value(bytes.drop_last()) == 0);
        assert(bytes.last() == digit_symbol(n) as u8);
    } else {
        lemma_decimal_round_trip(n / 10);
        let front = decimal_text(n / 10);
        assert(bytes.drop_last() =~= ascii_bytes(front));
        assert(bytes.last() == digit_symbol(n % 10) as u8);
        assert forall|i: int| 0 <= i < text.len() implies is_digit(#[trigger] bytes[i]) by {
            if i < front.len() {
                assert(bytes[i] == ascii_bytes(front)[i]);
            }
        }
    }
}

/// The text that writes one decimal digit.
fn digit_str(digit: u32) -> (s: &'static str)
    requires
        digit < 10,
    ensures
        s@ == seq![digit_symbol(digit as nat)],
{
    proof {
        reveal_strlit("0");
        reveal_strlit("1");
        reveal_strlit("2");
        reveal_strlit("3");
        reveal_strlit("4");
        reveal_strlit("5");
        reveal_strlit("6");
        reveal_strlit("7");
        reveal_strlit("8");
        reveal_strlit("9");
    }
    let s = if digit == 0 {
        "0"
    } else if digit == 1 {
        "1"
    } else if digit == 2 {
        "2"
    } else if digit == 3 {
        "3"
    } else if digit == 4 {
        "4"
    } else if digit == 5 {
        "5"
    } else if digit == 6 {
        "6"
    } else if digit == 7 {
        "7"
    } else if digit == 8 {
        "8"
    } else {
        "9"
    };
    assert(s@ =~= seq![digit_symbol(digit as nat)]);
    s
}

/// Writes a number in decimal digits.
pub fn decimal_string(n: u32) -> (s: String)
    ensures
        s@ == decimal_text(n as nat),
    decreases n,
{
    if n < 10 {
        String::from_str(digit_str(n))
    } else {
        let mut s = decimal_string(n / 10);
        s.append(digit_str(n % 10));
        assert(s@ =~= decimal_text(n as nat));
        s
    }
}

impl Separator {
    /// The separator as it is written in source text.
    pub fn as_str(&self) -> (s: &'static str)
        ensures
            s@ == seq![self.symbol()],
    {
        proof {
            reveal_strlit("(");
            reveal_strlit(")");
            reveal_strlit(";");
            reveal_strlit("{");
            reveal_strlit("}");
            reveal_strlit(",");
        }
        let s = match self {
            Separator::LParan => "(",
            Separator::RParan => ")",
            Separator::Semicolon => ";",
            Separator::LCurly => "{",
            Separator::RCurly => "}",
            Separator::Comma => ",",
        };
        assert(s@ =~= seq![self.symbol()]);
        s
    }

    /// The separator as it is written in source text: its one punctuation
    /// character.
    pub fn to_string(&self) -> (s: String)
        ensures
            s@ == seq![self.symbol()],
    {
        String::from_str(self.as_str())
    }
}

impl Note {
    /// The name of the pitch.
    pub open spec fn name(self) -> Seq<char> {
        match self {
            Note::C => seq!['C'],
            Note::Cs => seq!['C', 's'],
            Note::Db => seq!['D', 'b'],
            Note::D => seq!['D'],
            Note::Ds => seq!['D', 's'],
            Note::Eb => seq!['E', 'b'],
            Note::E => seq!['E'],
            Note::F => seq!['F'],
            Note::Fs => seq!['F', 's'],
            Note::Gb => seq!['G', 'b'],
            Note::G => seq!['G'],
            Note::Gs => seq!['G', 's'],
            Note::Ab => seq!['A', 'b'],
            Note::A => seq!['A'],
            Note::As => seq!['A', 's'],
            Note::Bb => seq!['B', 'b'],
            Note::B => seq!['B'],
        }
    }

    /// The name of the pitch.
    pub fn as_str(&self) -> (s: &'static str)
        ensures
            s@ == self.name(),
    {
        proof {
            reveal_strlit("C");
            reveal_strlit("Cs");
            reveal_strlit("Db");
            reveal_strlit("D");
            reveal_strlit("Ds");
            reveal_strlit("Eb");
            reveal_strlit("E");
            reveal_strlit("F");
            reveal_strlit("Fs");
            reveal_strlit("Gb");
            reveal_strlit("G");
            reveal_strlit("Gs");
            reveal_strlit("Ab");
            reveal_strlit("A");
            reveal_strlit("As");
            reveal_strlit("Bb");
            reveal_strlit("B");
        }
        let s = match self {
            Note::C => "C",
            Note::Cs => "Cs",
            Note::Db => "Db",
            Note::D => "D",
            Note::Ds => "Ds",
            Note::Eb => "Eb",
            Note::E => "E",
            Note::F => "F",
            Note::Fs => "Fs",
            Note::Gb => "Gb",
            Note::G => "G",
            Note::Gs => "Gs",
            Note::Ab => "Ab",
            Note::A => "A",
            Note::As => "As",
            Note::Bb => "Bb",
            Note::B => "B",
        };
        assert(s@ =~= self.name());
        s
    }
}

impl TokenView {
    /// The token as text.
    ///
    /// A separator is its punctuation character and a keyword its lower-case
    /// spelling. A literal stands between double quotes, a signature is
    /// `[top/bottom]`, a note is its pitch, `_` and its octave, and the end
    /// of input is `EOF`.
    pub open spec fn text(self) -> Seq<char> {
        match self {
            TokenView::Separator(sep, _) => seq![sep.symbol()],
            TokenView::Literal(bytes, _) => seq!['"'] + decode_utf8(bytes) + seq!['"'],
            TokenView::Identifier(bytes, _) => decode_utf8(bytes),
            TokenView::Signature(top, bottom, _) => seq!['['] + decimal_text(top as nat) + seq![
                '/',
            ] + decimal_text(bottom as nat) + seq![']'],
            TokenView::Number(value, _) => decimal_text(value as nat),
            TokenView::Note(note, octave, _) => note.name() + seq!['_'] + decimal_text(
                octave as nat,
            ),
            TokenView::Keyword(word, _) => word.spelling(),
            TokenView::EOF(_) => seq!['E', 'O', 'F'],
        }
    }
}

impl<'src> Token<'src> {
    /// The token as text.
    pub fn to_string(&self) -> (s: String)
        ensures
            s@ == self@.text(),
    {
        proof {
            reveal_strlit("\"");
            reveal_strlit("[");
            reveal_strlit("/");
            reveal_strlit("]");
            reveal_strlit("_");
            reveal_strlit("EOF");
        }
        match *self {
            Token::Separator(sep, _) => sep.to_string(),
            Token::Literal(text, _) => {
                proof {
                    encode_utf8_decode_utf8(text@);
                }
                let mut s = String::from_str("\"");
                s.append(text);
                s.append("\"");
                assert(s@ =~= self@.text());
                s
            },
            Token::Identifier(text, _) => {
                proof {
                    encode_utf8_decode_utf8(text@);
                }
                String::from_str(text)
            },
            Token::Signature(top, bottom, _) => {
                let mut s = String::from_str("[");
                s.append(decimal_string(top).as_str());
                s.append("/");
                s.append(decimal_string(bottom).as_str());
                s.append("]");
                assert(s@ =~= self@.text());
                s
            },
            Token::Number(value, _) => decimal_string(value),
            Token::Note(note, octave, _) => {
                let mut s = String::from_str(note.as_str());
                s.append("_");
                s.append(decimal_string(octave as u32).as_str());
                assert(s@ =~= self@.text());
                s
            },
            Token::Keyword(word, _) => String::from_str(word.as_str()),
            Token::EOF(_) => {
                let s = String::from_str("EOF");
                assert(s@ =~= self@.text());
                s
            },
        }
    }
}

} // verus!
