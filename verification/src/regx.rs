//! A pattern compiled for one input line, and the search for a match.

use crate::compile::{compile, parse_chars, CompileError, Compiled};
use crate::matcher::{
    capture_text, captures_after, check_sequence, depth_limit, expansion_limit, first_match,
    first_match_from, has_match, is_candidate, lemma_has_match_iff_first, MatchError,
};
use crate::pattern::{nodes_view, Pattern};
use crate::text::{texts, to_chars};
use vstd::prelude::*;
use vstd::slice::slice_subrange;

verus! {

/// A [`Regx`] as a mathematical value.
pub struct RegxView {
    /// The input line.
    pub input: Seq<char>,
    /// The compiled pattern.
    pub compiled: Compiled,
    /// The capture table that the last search has left, slot `n` at index
    /// `n - 1`.
    pub captures: Seq<Seq<char>>,
}

/// A compiled pattern together with the input line it is to be matched
/// against.
pub struct Regx<'a> {
    input: &'a str,
    patterns: Vec<Pattern>,
    start_anchor: bool,
    end_anchor: bool,
    captures: Vec<String>,
}

impl<'a> View for Regx<'a> {
    type V = RegxView;

    closed spec fn view(&self) -> RegxView {
        RegxView {
            input: self.input@,
            compiled: Compiled {
                nodes: nodes_view(self.patterns@),
                anchored_start: self.start_anchor,
                anchored_end: self.end_anchor,
            },
            captures: texts(self.captures@),
        }
    }
}

impl<'a> Regx<'a> {
    /// Compiles `pattern` for a search in `input`.
    ///
    /// Fails where `pattern` holds a backslash before a character that no
    /// escape is defined for, with that character.
    pub fn new(input: &'a str, pattern: &'a str) -> (r: Result<Self, CompileError>)
        ensures
            match compile(pattern@) {
                Ok(compiled) => r is Ok && r->Ok_0@ == (RegxView {
                    input: input@,
                    compiled,
                    captures: Seq::empty(),
                }),
                Err(e) => r is Err && r->Err_0 == e,
            },
    {
        let text = to_chars(pattern);
        let len = text.len();
        let start_anchor = len > 0 && text[0] == '^';
        let from: usize = if start_anchor {
            1
        } else {
            0
        };
        let end_anchor = len > from && text[len - 1] == '$';
        let to: usize = if end_anchor {
            len - 1
        } else {
            len
        };
        let body = slice_subrange(text.as_slice(), from, to);
        proof {
            let rest = if start_anchor {
                pattern@.drop_first()
            } else {
                pattern@
            };
            let expected = if end_anchor {
                rest.drop_last()
            } else {
                rest
            };
            assert(body@ =~= expected);
        }
        match parse_chars(body) {
            Ok(patterns) => {
                let captures: Vec<String> = Vec::new();
                assert(texts(captures@) =~= Seq::<Seq<char>>::empty());
                Ok(Regx { input, patterns, start_anchor, end_anchor, captures })
            },
            Err(e) => Err(e),
        }
    }

    /// Whether the pattern matches the input line. See
    /// [`match_pattern`](Regx::match_pattern).
    pub fn matches(&mut self) -> (found: bool)
        ensures
            found == has_match(old(self)@.compiled, old(self)@.input),
            final(self)@.input == old(self)@.input,
            final(self)@.compiled == old(self)@.compiled,
            final(self)@.captures == captures_after(old(self)@.compiled, old(self)@.input),
    {
        self.match_pattern()
    }

    /// Searches the input line for a match: an attempt is made at offset 0
    /// and, unless the pattern is anchored at the start, at every further
    /// offset before the end of the line, in this order. The first attempt
    /// that succeeds decides, and its capture table is kept; where none
    /// succeeds the table is left empty.
    pub fn match_pattern(&mut self) -> (found: bool)
        ensures
            found == has_match(old(self)@.compiled, old(self)@.input),
            final(self)@.input == old(self)@.input,
            final(self)@.compiled == old(self)@.compiled,
            final(self)@.captures == captures_after(old(self)@.compiled, old(self)@.input),
    {
        let ghost p = self@.compiled;
        let chars = to_chars(self.input);
        let input = chars.as_slice();
        proof {
            lemma_has_match_iff_first(p, input@);
        }
        let limit = depth_limit(input.len());
        let mut start: usize = 0;
        loop
            invariant
                input@ == old(self)@.input,
                p == old(self)@.compiled,
                self@.input == old(self)@.input,
                self@.compiled == old(self)@.compiled,
                is_candidate(p, input@, start as int),
                first_match_from(p, input@, start as int) == first_match(p, input@),
                limit == expansion_limit(input@.len()),
                has_match(p, input@) <==> first_match(p, input@) is Some,
            decreases input.len() - start,
        {
            let mut cursor = start;
            let mut table: Vec<String> = Vec::new();
            assert(texts(table@) =~= Seq::<Seq<char>>::empty());
            let r = check_sequence(&self.patterns, input, &mut cursor, &mut table, limit);
            if r.0 && (!self.end_anchor || cursor == input.len()) {
                self.captures = table;
                return true;
            }
            if self.start_anchor || start + 1 >= input.len() {
                self.captures = Vec::new();
                assert(texts(self.captures@) =~= Seq::<Seq<char>>::empty());
                return false;
            }
            start += 1;
        }
    }

    /// The input line.
    pub fn input(&self) -> (input: &'a str)
        ensures
            input@ == self@.input,
    {
        self.input
    }

    /// The nodes of the compiled pattern.
    pub fn patterns(&self) -> (patterns: &Vec<Pattern>)
        ensures
            nodes_view(patterns@) == self@.compiled.nodes,
    {
        &self.patterns
    }

    /// Whether the pattern is anchored at the start of the line.
    pub fn start_anchor(&self) -> (anchored: bool)
        ensures
            anchored == self@.compiled.anchored_start,
    {
        self.start_anchor
    }

    /// Whether the pattern is anchored at the end of the line.
    pub fn end_anchor(&self) -> (anchored: bool)
        ensures
            anchored == self@.compiled.anchored_end,
    {
        self.end_anchor
    }

    /// The text in capture slot `n` after the last search. Slots are
    /// numbered from 1.
    ///
    /// Fails where the table holds no slot of that number.
    pub fn capture(&self, n: usize) -> (r: Result<&String, MatchError>)
        ensures
            1 <= n <= self@.captures.len() ==> r is Ok && r->Ok_0@ == self@.captures[n - 1],
            !(1 <= n <= self@.captures.len()) ==> r is Err && r->Err_0
                == MatchError::InvalidBackreference(n),
    {
        capture_text(&self.captures, n)
    }
}

/// Whether `pattern` matches `input`.
///
/// Fails where `pattern` does not compile, and only there.
pub fn is_match(pattern: &str, input: &str) -> (r: Result<bool, CompileError>)
    ensures
        match compile(pattern@) {
            Ok(compiled) => r == Ok::<bool, CompileError>(has_match(compiled, input@)),
            Err(e) => r == Err::<bool, CompileError>(e),
        },
{
    match Regx::new(input, pattern) {
        Ok(mut regx) => Ok(regx.matches()),
        Err(e) => Err(e),
    }
}

} // verus!
