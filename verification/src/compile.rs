//! The pattern compiler: one scan over the pattern text, left to right, with
//! one character of lookahead.
//!
//! [`parse`] says what a text compiles to, as a fold of the text over a
//! [`ScanState`]; [`compile`] adds the anchors. [`Regx::build_patterns`] is
//! the compiler itself.

use crate::pattern::{alts_view, is_digit, lemma_many_view, nodes_view, Node, Pattern};
use crate::regx::Regx;
use crate::text::{char_at, push_char, to_chars};
use vstd::prelude::*;

verus! {

/// Why a pattern text does not compile.
#[derive(Debug, PartialEq, Eq, Clone, Copy)]
pub enum CompileError {
    /// A backslash stands before this character, which no escape is defined
    /// for.
    UnsupportedEscape(char),
}

/// What the scan puts aside when a group opens: the alternatives closed so
/// far at the level it leaves, and the nodes read there since.
pub struct Frame {
    pub alts: Seq<Seq<Node>>,
    pub acc: Seq<Node>,
}

/// The state of the scan between two characters.
pub struct ScanState {
    /// One frame for each group that is open, the outermost first.
    pub saved: Seq<Frame>,
    /// The alternatives closed so far at the current level.
    pub alts: Seq<Seq<Node>>,
    /// The nodes read at the current level since it opened or since its last
    /// `|`.
    pub acc: Seq<Node>,
}

/// The state in which a scan begins.
pub open spec fn initial_state() -> ScanState {
    ScanState { saved: Seq::empty(), alts: Seq::empty(), acc: Seq::empty() }
}

/// The state after `node` has been read.
pub open spec fn emit(st: ScanState, node: Node) -> ScanState {
    ScanState { saved: st.saved, alts: st.alts, acc: st.acc.push(node) }
}

/// The state after `(`: the current level is put aside and a new one begins.
pub open spec fn open_group(st: ScanState) -> ScanState {
    ScanState {
        saved: st.saved.push(Frame { alts: st.alts, acc: st.acc }),
        alts: Seq::empty(),
        acc: Seq::empty(),
    }
}

/// The state after `|` inside a group: the nodes read since the group opened
/// or since its last `|` become one more alternative of it.
pub open spec fn next_alternative(st: ScanState) -> ScanState {
    ScanState { saved: st.saved, alts: st.alts.push(st.acc), acc: Seq::empty() }
}

/// The state after `)` inside a group: the current level closes as a group,
/// which is read as one node of the level that was put aside last.
pub open spec fn close_group(st: ScanState) -> ScanState
    recommends
        st.saved.len() > 0,
{
    ScanState {
        saved: st.saved.drop_last(),
        alts: st.saved.last().alts,
        acc: st.saved.last().acc.push(Node::Many(st.alts.push(st.acc))),
    }
}

/// The state after the postfix operator `op`, which is `+` or `?`: the node
/// read last is wrapped. Where the current level holds no node yet, the
/// operator is read as a literal.
pub open spec fn quantify(st: ScanState, op: char) -> ScanState {
    if st.acc.len() > 0 {
        let inner = Box::new(st.acc.last());
        let node = if op == '+' {
            Node::OneOrMore(inner)
        } else {
            Node::ZeroOrOne(inner)
        };
        ScanState { saved: st.saved, alts: st.alts, acc: st.acc.drop_last().push(node) }
    } else {
        emit(st, Node::Literal(op))
    }
}

/// The number that the ASCII digit `c` stands for.
pub open spec fn digit_value(c: char) -> nat {
    (c as int - '0' as int) as nat
}

/// The node that a backslash followed by `c` stands for.
pub open spec fn escape(c: char) -> Result<Node, CompileError> {
    if c == 'w' {
        Ok(Node::Alphanumeric)
    } else if c == 'd' {
        Ok(Node::Digit)
    } else if c == '\\' {
        Ok(Node::Literal('\\'))
    } else if c == '(' {
        Ok(Node::Literal('('))
    } else if is_digit(c) {
        Ok(Node::BackReference(digit_value(c)))
    } else {
        Err(CompileError::UnsupportedEscape(c))
    }
}

/// Where the members of a character class end that begin at `from`: at the
/// first `]` from there on, or at the end of the text if there is none.
pub open spec fn class_end(text: Seq<char>, from: int) -> int
    decreases text.len() - from,
{
    if from < 0 || from >= text.len() {
        text.len() as int
    } else if text[from] == ']' {
        from
    } else {
        class_end(text, from + 1)
    }
}

/// The node that begins with character `i` of `text`, and the index of the
/// character behind the node, where that character does not open a group,
/// close one or an alternative of one, or wrap the node before it.
///
/// A backslash that ends the text and a `[` that ends the text are
/// literals. A class runs up to the first `]`, which belongs to it, or to
/// the end of the text; a `^` right behind its `[` negates it. Any
/// character but `.`, `\` and `[` is a literal.
pub open spec fn node_at(text: Seq<char>, i: int) -> Result<(Node, int), CompileError>
    recommends
        0 <= i < text.len(),
{
    let c = text[i];
    if c == '.' {
        Ok((Node::Any, i + 1))
    } else if c == '\\' {
        if i + 1 >= text.len() {
            Ok((Node::Literal('\\'), i + 1))
        } else {
            match escape(text[i + 1]) {
                Ok(node) => Ok((node, i + 2)),
                Err(e) => Err(e),
            }
        }
    } else if c == '[' {
        if i + 1 >= text.len() {
            Ok((Node::Literal('['), i + 1))
        } else {
            let negated = text[i + 1] == '^';
            let from = if negated {
                i + 2
            } else {
                i + 1
            };
            let to = class_end(text, from);
            let next = if to < text.len() {
                to + 1
            } else {
                to
            };
            Ok((Node::Group(!negated, text.subrange(from, to)), next))
        }
    } else {
        Ok((Node::Literal(c), i + 1))
    }
}

/// The members of a class end between where they begin and the end of the
/// text, at a `]` if before the end, and hold no `]`.
pub proof fn lemma_class_end_bounds(text: Seq<char>, from: int)
    requires
        0 <= from <= text.len(),
    ensures
        from <= class_end(text, from) <= text.len(),
        class_end(text, from) < text.len() ==> text[class_end(text, from)] == ']',
        forall|k: int| from <= k < class_end(text, from) ==> text[k] != ']',
    decreases text.len() - from,
{
    if from < text.len() && text[from] != ']' {
        lemma_class_end_bounds(text, from + 1);
    }
}

/// A node takes at least one character and ends inside the text.
pub proof fn lemma_node_at_bounds(text: Seq<char>, i: int)
    requires
        0 <= i < text.len(),
    ensures
        node_at(text, i) matches Ok((_, next)) ==> i < next <= text.len(),
{
    if text[i] == '[' && i + 1 < text.len() {
        let from = if text[i + 1] == '^' {
            i + 2
        } else {
            i + 1
        };
        lemma_class_end_bounds(text, from);
    }
}

/// The nodes of the level that is open when the text ends, for a scan that
/// stands before character `i` of `text` in state `st`.
///
/// `|` and `)` have their meaning inside a group only: where none is open
/// they are literals.
pub open spec fn scan(text: Seq<char>, i: int, st: ScanState) -> Result<Seq<Node>, CompileError>
    decreases text.len() - i,
{
    if i < 0 || i >= text.len() {
        Ok(st.acc)
    } else {
        let c = text[i];
        if c == '(' {
            scan(text, i + 1, open_group(st))
        } else if c == '|' && st.saved.len() > 0 {
            scan(text, i + 1, next_alternative(st))
        } else if c == ')' && st.saved.len() > 0 {
            scan(text, i + 1, close_group(st))
        } else if c == '+' || c == '?' {
            scan(text, i + 1, quantify(st, c))
        } else {
            match node_at(text, i) {
                Ok((node, next)) => {
                    proof {
                        lemma_node_at_bounds(text, i);
                    }
                    scan(text, next, emit(st, node))
                },
                Err(e) => Err(e),
            }
        }
    }
}

/// The node sequence that `text` compiles to, anchors not considered.
///
/// A group that is still open when the text ends gives the result: the
/// nodes read since it opened or since its last `|`. What was put aside for
/// it is dropped, and so are the alternatives that it has closed.
pub open spec fn parse(text: Seq<char>) -> Result<Seq<Node>, CompileError> {
    scan(text, 0, initial_state())
}

/// A compiled pattern: its node sequence, and whether it is anchored at the
/// start and at the end of the input.
pub struct Compiled {
    pub nodes: Seq<Node>,
    pub anchored_start: bool,
    pub anchored_end: bool,
}

/// What the pattern text `text` compiles to. A `^` at the very start, and a
/// `$` at the very end of what follows it, are anchors and make no node; the
/// text between them is parsed.
pub open spec fn compile(text: Seq<char>) -> Result<Compiled, CompileError> {
    let anchored_start = text.len() > 0 && text.first() == '^';
    let rest = if anchored_start {
        text.drop_first()
    } else {
        text
    };
    let anchored_end = rest.len() > 0 && rest.last() == '$';
    let body = if anchored_end {
        rest.drop_last()
    } else {
        rest
    };
    match parse(body) {
        Ok(nodes) => Ok(Compiled { nodes, anchored_start, anchored_end }),
        Err(e) => Err(e),
    }
}

/// Whether `r` is the outcome `expected` of a compilation: the same error,
/// or patterns that stand for the same nodes.
pub open spec fn compiles_to(
    r: Result<Vec<Pattern>, CompileError>,
    expected: Result<Seq<Node>, CompileError>,
) -> bool {
    match expected {
        Ok(nodes) => r is Ok && nodes_view(r->Ok_0@) == nodes,
        Err(e) => r is Err && r->Err_0 == e,
    }
}

/// The frames that the compiler has put aside.
pub open spec fn frames_view(saved: Seq<(Vec<Vec<Pattern>>, Vec<Pattern>)>) -> Seq<Frame> {
    Seq::new(
        saved.len(),
        |i: int| Frame { alts: alts_view(saved[i].0@), acc: nodes_view(saved[i].1@) },
    )
}

/// The scan state that the three parts of the compiler's state stand for.
pub open spec fn state_view(
    saved: Vec<(Vec<Vec<Pattern>>, Vec<Pattern>)>,
    alts: Vec<Vec<Pattern>>,
    acc: Vec<Pattern>,
) -> ScanState {
    ScanState { saved: frames_view(saved@), alts: alts_view(alts@), acc: nodes_view(acc@) }
}

proof fn lemma_nodes_push(v: Seq<Pattern>, p: Pattern)
    ensures
        nodes_view(v.push(p)) == nodes_view(v).push(p@),
{
    assert(nodes_view(v.push(p)) =~= nodes_view(v).push(p@));
}

proof fn lemma_nodes_drop_last(v: Seq<Pattern>)
    requires
        v.len() > 0,
    ensures
        nodes_view(v.drop_last()) == nodes_view(v).drop_last(),
        nodes_view(v).last() == v.last()@,
{
    assert(nodes_view(v.drop_last()) =~= nodes_view(v).drop_last());
}

proof fn lemma_alts_push(a: Seq<Vec<Pattern>>, v: Vec<Pattern>)
    ensures
        alts_view(a.push(v)) == alts_view(a).push(nodes_view(v@)),
{
    assert(alts_view(a.push(v)) =~= alts_view(a).push(nodes_view(v@)));
}

proof fn lemma_frames_push(
    saved: Seq<(Vec<Vec<Pattern>>, Vec<Pattern>)>,
    frame: (Vec<Vec<Pattern>>, Vec<Pattern>),
)
    ensures
        frames_view(saved.push(frame)) == frames_view(saved).push(
            Frame { alts: alts_view(frame.0@), acc: nodes_view(frame.1@) },
        ),
{
    assert(frames_view(saved.push(frame)) =~= frames_view(saved).push(
        Frame { alts: alts_view(frame.0@), acc: nodes_view(frame.1@) },
    ));
}

proof fn lemma_frames_drop_last(saved: Seq<(Vec<Vec<Pattern>>, Vec<Pattern>)>)
    requires
        saved.len() > 0,
    ensures
        frames_view(saved.drop_last()) == frames_view(saved).drop_last(),
        frames_view(saved).last() == (Frame {
            alts: alts_view(saved.last().0@),
            acc: nodes_view(saved.last().1@),
        }),
{
    assert(frames_view(saved.drop_last()) =~= frames_view(saved).drop_last());
}

/// Reads the character class whose members begin at index `from` of `text`.
/// Returns the members and the index at which they end.
fn read_class(text: &[char], from: usize) -> (r: (String, usize))
    requires
        from <= text.len(),
    ensures
        r.1 == class_end(text@, from as int),
        r.0@ == text@.subrange(from as int, r.1 as int),
{
    let mut members = String::new();
    let mut to: usize = from;
    while to < text.len() && text[to] != ']'
        invariant
            from <= to <= text.len(),
            members@ == text@.subrange(from as int, to as int),
            class_end(text@, to as int) == class_end(text@, from as int),
        decreases text.len() - to,
    {
        push_char(&mut members, text[to]);
        to += 1;
        assert(members@ =~= text@.subrange(from as int, to as int));
    }
    (members, to)
}

/// Reads the node that begins with character `i` of `text`: a wildcard, an
/// escape, a class or a literal. Returns the node and the index of the
/// character behind it.
fn read_node(text: &[char], i: usize) -> (r: Result<(Pattern, usize), CompileError>)
    requires
        i < text.len(),
    ensures
        match node_at(text@, i as int) {
            Ok((node, next)) => r is Ok && r->Ok_0.0@ == node && r->Ok_0.1 == next,
            Err(e) => r is Err && r->Err_0 == e,
        },
{
    let c = char_at(text, i);
    if c == '.' {
        Ok((Pattern::Any, i + 1))
    } else if c == '\\' {
        if i + 1 >= text.len() {
            return Ok((Pattern::Literal('\\'), i + 1));
        }
        let e = char_at(text, i + 1);
        let node = if e == 'w' {
            Pattern::Alphanumeric
        } else if e == 'd' {
            Pattern::Digit
        } else if e == '\\' {
            Pattern::Literal('\\')
        } else if e == '(' {
            Pattern::Literal('(')
        } else if '0' <= e && e <= '9' {
            Pattern::BackReference((e as u32 - '0' as u32) as usize)
        } else {
            return Err(CompileError::UnsupportedEscape(e));
        };
        Ok((node, i + 2))
    } else if c == '[' {
        if i + 1 >= text.len() {
            return Ok((Pattern::Literal('['), i + 1));
        }
        let negated = text[i + 1] == '^';
        let from: usize = if negated {
            i + 2
        } else {
            i + 1
        };
        let (members, to) = read_class(text, from);
        proof {
            lemma_class_end_bounds(text@, from as int);
        }
        let next: usize = if to < text.len() {
            to + 1
        } else {
            to
        };
        Ok((Pattern::Group(!negated, members), next))
    } else {
        Ok((Pattern::Literal(c), i + 1))
    }
}

/// Compiles the pattern text `text` to its node sequence, anchors not
/// considered.
pub(crate) fn parse_chars(text: &[char]) -> (r: Result<Vec<Pattern>, CompileError>)
    ensures
        compiles_to(r, parse(text@)),
{
    let mut saved: Vec<(Vec<Vec<Pattern>>, Vec<Pattern>)> = Vec::new();
    let mut alts: Vec<Vec<Pattern>> = Vec::new();
    let mut acc: Vec<Pattern> = Vec::new();
    let mut i: usize = 0;
    assert(state_view(saved, alts, acc) == initial_state()) by {
        assert(frames_view(saved@) =~= Seq::<Frame>::empty());
        assert(alts_view(alts@) =~= Seq::<Seq<Node>>::empty());
        assert(nodes_view(acc@) =~= Seq::<Node>::empty());
    }
    while i < text.len()
        invariant
            i <= text.len(),
            scan(text@, i as int, state_view(saved, alts, acc)) == parse(text@),
        decreases text.len() - i,
    {
        let c = text[i];
        let ghost st = state_view(saved, alts, acc);
        if c == '(' {
            proof {
                lemma_frames_push(saved@, (alts, acc));
            }
            saved.push((alts, acc));
            alts = Vec::new();
            acc = Vec::new();
            i += 1;
            assert(state_view(saved, alts, acc) == open_group(st)) by {
                assert(alts_view(alts@) =~= Seq::<Seq<Node>>::empty());
                assert(nodes_view(acc@) =~= Seq::<Node>::empty());
            }
        } else if c == '|' && saved.len() > 0 {
            proof {
                lemma_alts_push(alts@, acc);
            }
            alts.push(acc);
            acc = Vec::new();
            i += 1;
            assert(state_view(saved, alts, acc) == next_alternative(st)) by {
                assert(nodes_view(acc@) =~= Seq::<Node>::empty());
            }
        } else if c == ')' && saved.len() > 0 {
            proof {
                lemma_alts_push(alts@, acc);
            }
            alts.push(acc);
            proof {
                lemma_many_view(alts);
                lemma_frames_drop_last(saved@);
            }
            let group = Pattern::Many(alts);
            let frame = saved.pop().unwrap();
            proof {
                lemma_nodes_push(frame.1@, group);
            }
            alts = frame.0;
            acc = frame.1;
            acc.push(group);
            i += 1;
            assert(state_view(saved, alts, acc) == close_group(st));
        } else if c == '+' || c == '?' {
            let ghost before = acc@;
            let node = match acc.pop() {
                Some(last) => {
                    proof {
                        lemma_nodes_drop_last(before);
                    }
                    if c == '+' {
                        Pattern::OneOrMore(Box::new(last))
                    } else {
                        Pattern::ZeroOrOne(Box::new(last))
                    }
                },
                None => Pattern::Literal(c),
            };
            proof {
                lemma_nodes_push(acc@, node);
            }
            acc.push(node);
            i += 1;
            assert(state_view(saved, alts, acc) == quantify(st, c));
        } else {
            match read_node(text, i) {
                Ok((node, next)) => {
                    proof {
                        lemma_nodes_push(acc@, node);
                        lemma_node_at_bounds(text@, i as int);
                    }
                    acc.push(node);
                    i = next;
                    assert(state_view(saved, alts, acc) == emit(st, node@));
                },
                Err(e) => {
                    return Err(e);
                },
            }
        }
    }
    Ok(acc)
}

impl<'a> Regx<'a> {
    /// Compiles the pattern text `pattern` to its node sequence. Anchors are
    /// not looked for: `^` and `$` are literals here.
    ///
    /// Fails only on a backslash before a character that no escape is
    /// defined for, with that character.
    pub fn build_patterns(pattern: &str) -> (r: Result<Vec<Pattern>, CompileError>)
        ensures
            compiles_to(r, parse(pattern@)),
    {
        let text = to_chars(pattern);
        parse_chars(text.as_slice())
    }
}

} // verus!
