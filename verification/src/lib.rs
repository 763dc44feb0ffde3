//! A small regular-expression matcher for single lines.
//!
//! A pattern is compiled once into a sequence of [`Pattern`] nodes and two
//! anchor flags, and then searched for in an input line by a backtracking
//! matcher that walks the line character by character.
//!
//! ```text
//! .        any single character
//! \d       an ASCII digit
//! \w       an ASCII letter, an ASCII digit or `_`
//! \\       a backslash
//! \(       an opening parenthesis
//! \1 - \9  the text of a capture slot, read again as a pattern
//! [abc]    one of `a`, `b`, `c`
//! [^abc]   one character that is none of `a`, `b`, `c`
//! ^        at the start of the pattern: the match begins at offset 0
//! $        at the end of the pattern: the match ends with the line
//! x+       `x` once or more, as often as it will match
//! x?       `x` once or not at all
//! (a|b)    a capturing group of alternatives
//! ```
//!
//! Any other character stands for itself.
//!
//! The matcher is deliberately simple. A quantifier takes all it can and
//! gives nothing back when a later node fails; only a group tries its
//! alternatives in turn. Capture slots are numbered from 1 in the order in
//! which groups match during one attempt, and each attempt at a new offset
//! starts with an empty table. A back-reference does not compare
//! characters: it compiles the captured text as a pattern and matches that.
//!
//! What every function computes is stated as a contract over mathematical
//! models: [`compile::compile`] for the compiler, [`matcher::match_node`]
//! and [`matcher::has_match`] for the matcher. The module [`theorems`] holds
//! what follows from them for all patterns and inputs.

pub mod compile;
pub mod matcher;
pub mod pattern;
pub mod regx;
pub mod text;
pub mod theorems;

pub use compile::CompileError;
pub use matcher::MatchError;
pub use pattern::{Node, Pattern};
pub use regx::{is_match, Regx};
