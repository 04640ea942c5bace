//! Front end for a small language that describes musical staff scores: a
//! lexer, a token cursor that can go back, and a recursive-descent parser that
//! builds a syntax tree or reports where the text stops being a program.
//!
//! ```text
//! import { lead, bass } from "voices"
//! meta { tempo(120) }
//! staff Melody is lead(treble) in [4/4] {
//!     pickup { rest(1) }
//!     measure { play(c, 4) with accent play(e, 4) with slur(2) }
//! }
//! ```
//!
//! * [`tokens`]: the tokens, and how they are written.
//! * [`text`]: reading bytes of UTF-8 text.
//! * [`lexer`]: what the token stream of a text is, and the [`lexer::Lexer`]
//!   that produces it token by token.
//! * [`nodes`]: the syntax tree.
//! * [`errors`]: what a failed parse reports.
//! * [`rules`]: what each rule of the grammar does on a token stream.
//! * [`parser`]: the [`parser::Parser`], which does what the rules say.
//! * [`grammar`]: the grammar as predicates on token streams, and the proof
//!   that the rules find exactly what the grammar describes.
//! * [`laws`]: what holds of every parse.
//!
//! Every executable function is proved to return what its contract states,
//! without overflow and without panic.

pub mod errors;
pub mod grammar;
pub mod laws;
pub mod lexer;
pub mod nodes;
pub mod parser;
pub mod rules;
pub mod text;
pub mod tokens;
