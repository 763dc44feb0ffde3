//! What holds of the compiler and the matcher together, for every pattern
//! and every input.

use crate::compile::{
    close_group, compile, compiles_to, emit, escape, initial_state, lemma_node_at_bounds,
    next_alternative, node_at, open_group, parse, quantify, scan, CompileError, Compiled,
    ScanState,
};
use crate::matcher::{
    attempt, expansion_limit, first_match, has_match, is_candidate, match_alts, match_more,
    match_node, match_seq, succeeds_at, Outcome,
};
use crate::pattern::{accepts, nodes_view, Node, Pattern};
use vstd::prelude::*;

verus! {

/// Whether the outcome `r` of a match that began at `pos` with capture
/// table `caps` has moved the cursor forward only and not behind the end of
/// the input, and has only added to the capture table.
pub open spec fn advances(input: Seq<char>, pos: int, caps: Seq<Seq<char>>, r: Outcome) -> bool {
    &&& pos <= r.pos
    &&& pos <= input.len() ==> r.pos <= input.len()
    &&& caps.is_prefix_of(r.caps)
}

/// A node moves the cursor forward on success and leaves it where it was on
/// failure; it never moves it behind the end of the input; and the capture
/// table only grows.
pub proof fn lemma_match_node_advances(
    node: Node,
    input: Seq<char>,
    pos: int,
    caps: Seq<Seq<char>>,
    depth: nat,
)
    ensures
        advances(input, pos, caps, match_node(node, input, pos, caps, depth)),
        !match_node(node, input, pos, caps, depth).ok ==> match_node(
            node,
            input,
            pos,
            caps,
            depth,
        ).pos == pos,
    decreases depth, node, 0int,
{
    match node {
        Node::OneOrMore(inner) => {
            let first = match_node(*inner, input, pos, caps, depth);
            lemma_match_node_advances(*inner, input, pos, caps, depth);
            if first.ok {
                lemma_match_more_advances(*inner, input, first.pos, first.caps, depth);
            }
        },
        Node::ZeroOrOne(inner) => {
            lemma_match_node_advances(*inner, input, pos, caps, depth);
        },
        Node::BackReference(n) => {
            if 1 <= n <= caps.len() && depth > 0 {
                if let Ok(nodes) = parse(caps[n - 1]) {
                    lemma_match_seq_advances(nodes, 0, input, pos, caps, (depth - 1) as nat);
                }
            }
        },
        Node::Many(alts) => {
            lemma_match_alts_advances(alts, 0, input, pos, caps, depth);
        },
        _ => {},
    }
}

/// The further repetitions of a node move the cursor as a node does.
pub proof fn lemma_match_more_advances(
    inner: Node,
    input: Seq<char>,
    pos: int,
    caps: Seq<Seq<char>>,
    depth: nat,
)
    ensures
        advances(input, pos, caps, match_more(inner, input, pos, caps, depth)),
        match_more(inner, input, pos, caps, depth).ok,
    decreases depth, inner, (if pos <= input.len() {
        input.len() - pos + 1
    } else {
        1
    }),
{
    let again = match_node(inner, input, pos, caps, depth);
    lemma_match_node_advances(inner, input, pos, caps, depth);
    if again.ok && pos < again.pos <= input.len() {
        lemma_match_more_advances(inner, input, again.pos, again.caps, depth);
    }
}

/// A node sequence moves the cursor as a node does, but for where it
/// leaves the cursor on failure.
pub proof fn lemma_match_seq_advances(
    nodes: Seq<Node>,
    j: int,
    input: Seq<char>,
    pos: int,
    caps: Seq<Seq<char>>,
    depth: nat,
)
    ensures
        advances(input, pos, caps, match_seq(nodes, j, input, pos, caps, depth)),
    decreases depth, nodes, nodes.len() - j,
{
    if 0 <= j < nodes.len() {
        let r = match_node(nodes[j], input, pos, caps, depth);
        lemma_match_node_advances(nodes[j], input, pos, caps, depth);
        if r.ok {
            lemma_match_seq_advances(nodes, j + 1, input, r.pos, r.caps, depth);
        }
    }
}

/// A group moves the cursor as a node does; where it matches, it adds at
/// least its own text to the capture table.
pub proof fn lemma_match_alts_advances(
    alts: Seq<Seq<Node>>,
    k: int,
    input: Seq<char>,
    pos: int,
    caps: Seq<Seq<char>>,
    depth: nat,
)
    ensures
        advances(input, pos, caps, match_alts(alts, k, input, pos, caps, depth)),
        !match_alts(alts, k, input, pos, caps, depth).ok ==> match_alts(
            alts,
            k,
            input,
            pos,
            caps,
            depth,
        ).pos == pos,
        match_alts(alts, k, input, pos, caps, depth).ok ==> match_alts(
            alts,
            k,
            input,
            pos,
            caps,
            depth,
        ).caps.len() > caps.len(),
    decreases depth, alts, alts.len() - k,
{
    if 0 <= k < alts.len() {
        let r = match_seq(alts[k], 0, input, pos, caps, depth);
        lemma_match_seq_advances(alts[k], 0, input, pos, caps, depth);
        if !r.ok {
            lemma_match_alts_advances(alts, k + 1, input, pos, r.caps, depth);
        }
    }
}

/// Whether `node` stands for a single character.
pub open spec fn is_single(node: Node) -> bool {
    node is Literal || node is Digit || node is Alphanumeric || node is Any || node is Group
}

/// The end of the run of characters that `node` accepts from `from` on.
pub open spec fn run_end(node: Node, input: Seq<char>, from: int) -> int
    decreases input.len() - from,
{
    if 0 <= from < input.len() && accepts(node, input[from]) {
        run_end(node, input, from + 1)
    } else {
        from
    }
}

proof fn lemma_match_more_takes_the_run(
    node: Node,
    input: Seq<char>,
    pos: int,
    caps: Seq<Seq<char>>,
    depth: nat,
)
    requires
        is_single(node),
        0 <= pos,
    ensures
        match_more(node, input, pos, caps, depth) == (Outcome {
            ok: true,
            pos: run_end(node, input, pos),
            caps,
        }),
    decreases input.len() - pos,
{
    let again = match_node(node, input, pos, caps, depth);
    assert(again.ok == (pos < input.len() && accepts(node, input[pos])));
    assert(again.caps == caps);
    if pos < input.len() && accepts(node, input[pos]) {
        assert(again.pos == pos + 1);
        lemma_match_more_takes_the_run(node, input, pos + 1, caps, depth);
    } else {
        assert(run_end(node, input, pos) == pos);
    }
}

/// A repetition of a node for a single character is greedy: it matches
/// where the node accepts the character at the cursor, and then takes the
/// whole run of characters that the node accepts.
pub proof fn lemma_one_or_more_takes_the_run(
    node: Node,
    input: Seq<char>,
    pos: int,
    caps: Seq<Seq<char>>,
    depth: nat,
)
    requires
        is_single(node),
        0 <= pos,
    ensures
        match_node(Node::OneOrMore(Box::new(node)), input, pos, caps, depth) == (Outcome {
            ok: pos < input.len() && accepts(node, input[pos]),
            pos: run_end(node, input, pos),
            caps,
        }),
{
    let first = match_node(node, input, pos, caps, depth);
    assert(first.ok == (pos < input.len() && accepts(node, input[pos])));
    if first.ok {
        lemma_match_more_takes_the_run(node, input, pos + 1, caps, depth);
    }
}

/// An optional node never fails: where its inner node fails, it matches
/// nothing and leaves the cursor where it was.
pub proof fn lemma_zero_or_one_never_fails(
    inner: Node,
    input: Seq<char>,
    pos: int,
    caps: Seq<Seq<char>>,
    depth: nat,
)
    ensures
        match_node(Node::ZeroOrOne(Box::new(inner)), input, pos, caps, depth).ok,
        !match_node(inner, input, pos, caps, depth).ok ==> match_node(
            Node::ZeroOrOne(Box::new(inner)),
            input,
            pos,
            caps,
            depth,
        ).pos == pos,
{
    lemma_match_node_advances(inner, input, pos, caps, depth);
}

/// Compiling is a function of the pattern text: two compilations of one
/// text fail alike or give node sequences that stand for the same nodes, so
/// that with the same anchors they match the same inputs.
pub proof fn lemma_compile_twice(
    text: Seq<char>,
    first: Result<Vec<Pattern>, CompileError>,
    second: Result<Vec<Pattern>, CompileError>,
    anchored_start: bool,
    anchored_end: bool,
    input: Seq<char>,
)
    requires
        compiles_to(first, parse(text)),
        compiles_to(second, parse(text)),
    ensures
        first is Ok <==> second is Ok,
        first is Err ==> first->Err_0 == second->Err_0,
        first is Ok ==> nodes_view(first->Ok_0@) == nodes_view(second->Ok_0@),
        first is Ok ==> has_match(
            Compiled { nodes: nodes_view(first->Ok_0@), anchored_start, anchored_end },
            input,
        ) == has_match(
            Compiled { nodes: nodes_view(second->Ok_0@), anchored_start, anchored_end },
            input,
        ),
{
}

proof fn lemma_scan_error(text: Seq<char>, i: int, st: ScanState)
    requires
        0 <= i,
        scan(text, i, st) is Err,
    ensures
        exists|k: int|
            i <= k && k + 1 < text.len() && text[k] == '\\' && escape(text[k + 1]) is Err && scan(
                text,
                i,
                st,
            )->Err_0 == CompileError::UnsupportedEscape(#[trigger] text[k + 1]),
    decreases text.len() - i,
{
    if i < text.len() {
        let c = text[i];
        if c == '(' {
            lemma_scan_error(text, i + 1, open_group(st));
        } else if c == '|' && st.saved.len() > 0 {
            lemma_scan_error(text, i + 1, next_alternative(st));
        } else if c == ')' && st.saved.len() > 0 {
            lemma_scan_error(text, i + 1, close_group(st));
        } else if c == '+' || c == '?' {
            lemma_scan_error(text, i + 1, quantify(st, c));
        } else {
            match node_at(text, i) {
                Ok((node, next)) => {
                    lemma_node_at_bounds(text, i);
                    lemma_scan_error(text, next, emit(st, node));
                },
                Err(e) => {
                    assert(text[i] == '\\' && e == CompileError::UnsupportedEscape(text[i + 1]));
                },
            }
        }
    }
}

/// A text fails to parse only with a character that stands behind a
/// backslash in it and that no escape is defined for.
pub proof fn lemma_parse_error(text: Seq<char>)
    requires
        parse(text) is Err,
    ensures
        exists|k: int|
            0 <= k && k + 1 < text.len() && text[k] == '\\' && escape(text[k + 1]) is Err && parse(
                text,
            )->Err_0 == CompileError::UnsupportedEscape(#[trigger] text[k + 1]),
{
    lemma_scan_error(text, 0, initial_state());
}

/// A pattern fails to compile only with a character that stands behind a
/// backslash in it and that no escape is defined for. A pattern without a
/// backslash compiles.
pub proof fn lemma_compile_error(text: Seq<char>)
    requires
        compile(text) is Err,
    ensures
        exists|k: int|
            0 <= k && k + 1 < text.len() && text[k] == '\\' && escape(text[k + 1]) is Err
                && compile(text)->Err_0 == CompileError::UnsupportedEscape(#[trigger] text[k + 1]),
{
    let anchored_start = text.len() > 0 && text.first() == '^';
    let rest = if anchored_start {
        text.drop_first()
    } else {
        text
    };
    let anchored_end = rest.len() > 0 && rest.last() == '$';
    let body = if anchored_end {
        rest.drop_last()
    } else {
        rest
    };
    lemma_parse_error(body);
    let k = choose|k: int|
        0 <= k && k + 1 < body.len() && body[k] == '\\' && escape(body[k + 1]) is Err && parse(
            body,
        )->Err_0 == CompileError::UnsupportedEscape(#[trigger] body[k + 1]);
    let shift: int = if anchored_start {
        1
    } else {
        0
    };
    assert(body[k] == text[k + shift]);
    assert(body[k + 1] == text[k + shift + 1]);
}

/// Whether `c` is a Unicode scalar value. Every `char` is; the hypothesis
/// says so of characters that are read out of a sequence, where the
/// verifier does not carry it along.
pub open spec fn is_scalar(c: char) -> bool {
    0 <= c as int <= 0xD7FF || 0xE000 <= c as int <= 0x10FFFF
}

/// Whether `c` has no meaning of its own anywhere in a pattern.
pub open spec fn is_ordinary(c: char) -> bool {
    &&& is_literal_alone(c)
    &&& c != '|'
    &&& c != ')'
    &&& c != '\\'
    &&& c != '['
    &&& c != '+'
    &&& c != '?'
}

/// Whether `w` is plain text: none of its characters has a meaning of its
/// own in a pattern.
pub open spec fn is_plain_text(w: Seq<char>) -> bool {
    forall|k: int| 0 <= k < w.len() ==> is_scalar(#[trigger] w[k]) && is_ordinary(w[k])
}

/// The literal nodes that spell `w`.
pub open spec fn literals(w: Seq<char>) -> Seq<Node> {
    Seq::new(
        w.len(),
        |k: int|
            if 0 <= k < w.len() {
                Node::Literal(w[k])
            } else {
                Node::Any
            },
    )
}

/// Whether `input` holds `w` at offset `at`.
pub open spec fn occurs_at(input: Seq<char>, w: Seq<char>, at: int) -> bool {
    0 <= at && at + w.len() <= input.len() && input.subrange(at, at + w.len()) == w
}

proof fn lemma_scan_plain_text(w: Seq<char>, i: int, st: ScanState)
    requires
        is_plain_text(w),
        0 <= i <= w.len(),
    ensures
        scan(w, i, st) == Ok::<Seq<Node>, CompileError>(
            st.acc + literals(w).subrange(i, w.len() as int),
        ),
    decreases w.len() - i,
{
    if i < w.len() {
        assert(is_scalar(w[i]) && is_ordinary(w[i]));
        let next = emit(st, Node::Literal(w[i]));
        lemma_scan_plain_text(w, i + 1, next);
        assert(next.acc + literals(w).subrange(i + 1, w.len() as int) =~= st.acc + literals(
            w,
        ).subrange(i, w.len() as int));
    } else {
        assert(st.acc + literals(w).subrange(i, w.len() as int) =~= st.acc);
    }
}

/// Plain text parses to the literals that spell it.
pub proof fn lemma_parse_plain_text(w: Seq<char>)
    requires
        is_plain_text(w),
    ensures
        parse(w) == Ok::<Seq<Node>, CompileError>(literals(w)),
{
    lemma_scan_plain_text(w, 0, initial_state());
    assert(initial_state().acc + literals(w).subrange(0, w.len() as int) =~= literals(w));
}

proof fn lemma_occurs_step(input: Seq<char>, w: Seq<char>, j: int, pos: int)
    requires
        0 <= j < w.len(),
        0 <= pos,
    ensures
        occurs_at(input, w.subrange(j, w.len() as int), pos) <==> pos < input.len() && input[pos]
            == w[j] && occurs_at(input, w.subrange(j + 1, w.len() as int), pos + 1),
{
    let rest = w.subrange(j, w.len() as int);
    let tail = w.subrange(j + 1, w.len() as int);
    if occurs_at(input, rest, pos) {
        assert(input.subrange(pos, pos + rest.len())[0] == rest[0]);
        assert(input.subrange(pos + 1, pos + 1 + tail.len()) =~= tail) by {
            assert forall|k: int| 0 <= k < tail.len() implies input.subrange(
                pos + 1,
                pos + 1 + tail.len(),
            )[k] == tail[k] by {
                assert(input.subrange(pos, pos + rest.len())[k + 1] == rest[k + 1]);
            }
        }
    }
    if pos < input.len() && input[pos] == w[j] && occurs_at(input, tail, pos + 1) {
        assert(input.subrange(pos, pos + rest.len()) =~= rest) by {
            assert forall|k: int| 0 <= k < rest.len() implies input.subrange(
                pos,
                pos + rest.len(),
            )[k] == rest[k] by {
                if k > 0 {
                    assert(input.subrange(pos + 1, pos + 1 + tail.len())[k - 1] == tail[k - 1]);
                }
            }
        }
    }
}

/// The literals that spell `w`, from the one at index `j` on, match at `pos`
/// exactly where the input holds the rest of `w` there; they move the cursor
/// behind it and leave the capture table as it is.
pub proof fn lemma_match_literals(
    w: Seq<char>,
    j: int,
    input: Seq<char>,
    pos: int,
    caps: Seq<Seq<char>>,
    depth: nat,
)
    requires
        forall|k: int| 0 <= k < w.len() ==> is_scalar(#[trigger] w[k]),
        0 <= j <= w.len(),
        0 <= pos <= input.len(),
    ensures
        ({
            let r = match_seq(literals(w), j, input, pos, caps, depth);
            &&& r.caps == caps
            &&& r.ok == occurs_at(input, w.subrange(j, w.len() as int), pos)
            &&& r.ok ==> r.pos == pos + w.len() - j
        }),
    decreases w.len() - j,
{
    if j < w.len() {
        assert(is_scalar(w[j]));
        let first = match_node(literals(w)[j], input, pos, caps, depth);
        assert(first.ok == (pos < input.len() && input[pos] == w[j]));
        lemma_occurs_step(input, w, j, pos);
        if first.ok {
            lemma_match_literals(w, j + 1, input, pos + 1, caps, depth);
        }
    } else {
        assert(w.subrange(j, w.len() as int) =~= Seq::<char>::empty());
        if pos <= input.len() {
            assert(input.subrange(pos, pos) =~= Seq::<char>::empty());
        }
    }
}

proof fn lemma_attempt_plain_text(p: Compiled, w: Seq<char>, input: Seq<char>, start: int)
    requires
        is_plain_text(w),
        p.nodes == literals(w),
        0 <= start <= input.len(),
    ensures
        attempt(p, input, start).ok == occurs_at(input, w, start),
        attempt(p, input, start).ok ==> attempt(p, input, start).pos == start + w.len(),
{
    lemma_match_literals(w, 0, input, start, Seq::empty(), expansion_limit(input.len()));
    assert(w.subrange(0, w.len() as int) =~= w);
}

/// A pattern of plain text, without anchors, matches exactly the inputs
/// that hold the text somewhere.
pub proof fn lemma_plain_pattern(w: Seq<char>, input: Seq<char>)
    requires
        is_plain_text(w),
    ensures
        compile(w) == Ok::<Compiled, CompileError>(
            Compiled { nodes: literals(w), anchored_start: false, anchored_end: false },
        ),
        has_match(compile(w)->Ok_0, input) <==> exists|at: int| occurs_at(input, w, at),
{
    let p = Compiled { nodes: literals(w), anchored_start: false, anchored_end: false };
    lemma_parse_plain_text(w);
    if w.len() > 0 {
        assert(is_ordinary(w[0]));
        assert(is_ordinary(w[w.len() - 1]));
    }
    assert(compile(w) == Ok::<Compiled, CompileError>(p));
    if has_match(p, input) {
        let start = choose|start: int| is_candidate(p, input, start) && succeeds_at(p, input, start);
        lemma_attempt_plain_text(p, w, input, start);
        assert(occurs_at(input, w, start));
    }
    if exists|at: int| occurs_at(input, w, at) {
        let at = choose|at: int| occurs_at(input, w, at);
        if w.len() == 0 {
            assert(input.subrange(0, 0) =~= w);
            lemma_attempt_plain_text(p, w, input, 0);
            assert(is_candidate(p, input, 0) && succeeds_at(p, input, 0));
        } else {
            lemma_attempt_plain_text(p, w, input, at);
            assert(is_candidate(p, input, at) && succeeds_at(p, input, at));
        }
    }
}

/// A pattern of plain text behind `^` matches exactly the inputs that start
/// with the text.
pub proof fn lemma_plain_pattern_at_start(w: Seq<char>, input: Seq<char>)
    requires
        is_plain_text(w),
    ensures
        compile(seq!['^'] + w) == Ok::<Compiled, CompileError>(
            Compiled { nodes: literals(w), anchored_start: true, anchored_end: false },
        ),
        has_match(compile(seq!['^'] + w)->Ok_0, input) <==> w.is_prefix_of(input),
{
    let text = seq!['^'] + w;
    let p = Compiled { nodes: literals(w), anchored_start: true, anchored_end: false };
    lemma_parse_plain_text(w);
    assert(text.drop_first() =~= w);
    if w.len() > 0 {
        assert(is_ordinary(w[w.len() - 1]));
    }
    assert(compile(text) == Ok::<Compiled, CompileError>(p));
    lemma_attempt_plain_text(p, w, input, 0);
    if occurs_at(input, w, 0) {
        assert(is_candidate(p, input, 0) && succeeds_at(p, input, 0));
    }
}

/// A pattern of plain text before `$` matches exactly the inputs that end
/// with the text. The text is not empty: the anchor alone asks for an
/// attempt that starts at the end of the input, and only the empty input has
/// one.
pub proof fn lemma_plain_pattern_at_end(w: Seq<char>, input: Seq<char>)
    requires
        is_plain_text(w),
        w.len() > 0,
    ensures
        compile(w.push('$')) == Ok::<Compiled, CompileError>(
            Compiled { nodes: literals(w), anchored_start: false, anchored_end: true },
        ),
        has_match(compile(w.push('$'))->Ok_0, input) <==> w.is_suffix_of(input),
{
    let text = w.push('$');
    let p = Compiled { nodes: literals(w), anchored_start: false, anchored_end: true };
    lemma_parse_plain_text(w);
    assert(is_ordinary(w[0]));
    assert(text.drop_last() =~= w);
    assert(compile(text) == Ok::<Compiled, CompileError>(p));
    let last = input.len() - w.len();
    if has_match(p, input) {
        let start = choose|start: int| is_candidate(p, input, start) && succeeds_at(p, input, start);
        lemma_attempt_plain_text(p, w, input, start);
        assert(start == last);
    }
    if w.is_suffix_of(input) {
        lemma_attempt_plain_text(p, w, input, last);
        assert(is_candidate(p, input, last) && succeeds_at(p, input, last));
    }
}

/// A pattern of plain text between `^` and `$` matches the text itself and
/// no other input.
pub proof fn lemma_plain_pattern_anchored(w: Seq<char>, input: Seq<char>)
    requires
        is_plain_text(w),
    ensures
        compile((seq!['^'] + w).push('$')) == Ok::<Compiled, CompileError>(
            Compiled { nodes: literals(w), anchored_start: true, anchored_end: true },
        ),
        has_match(compile((seq!['^'] + w).push('$'))->Ok_0, input) <==> input == w,
{
    let text = (seq!['^'] + w).push('$');
    let p = Compiled { nodes: literals(w), anchored_start: true, anchored_end: true };
    lemma_parse_plain_text(w);
    assert(text.drop_first().drop_last() =~= w);
    assert(compile(text) == Ok::<Compiled, CompileError>(p));
    lemma_attempt_plain_text(p, w, input, 0);
    if has_match(p, input) {
        assert(input.subrange(0, input.len() as int) =~= input);
    }
    if input == w {
        assert(input.subrange(0, input.len() as int) =~= input);
        assert(is_candidate(p, input, 0) && succeeds_at(p, input, 0));
    }
}

/// Whether `c` stands for itself where it is the whole pattern text: every
/// character does but the two anchors, the wildcard and the opening
/// parenthesis.
pub open spec fn is_literal_alone(c: char) -> bool {
    c != '^' && c != '$' && c != '.' && c != '('
}

/// A pattern of one such character compiles to that literal, without
/// anchors, and matches exactly the inputs that hold the character.
pub proof fn lemma_single_literal(c: char, input: Seq<char>)
    requires
        is_literal_alone(c),
    ensures
        compile(seq![c]) == Ok::<Compiled, CompileError>(
            Compiled { nodes: seq![Node::Literal(c)], anchored_start: false, anchored_end: false },
        ),
        has_match(compile(seq![c])->Ok_0, input) == input.contains(c),
{
    let text = seq![c];
    let p = Compiled { nodes: seq![Node::Literal(c)], anchored_start: false, anchored_end: false };
    assert(parse(text) == Ok::<Seq<Node>, CompileError>(seq![Node::Literal(c)])) by {
        reveal_with_fuel(scan, 2);
        let st = initial_state();
        assert(emit(st, Node::Literal(c)).acc =~= seq![Node::Literal(c)]);
        assert(quantify(st, c) == emit(st, Node::Literal(c)));
        assert(!(c == '+' || c == '?') ==> node_at(text, 0) == Ok::<(Node, int), CompileError>(
            (Node::Literal(c), 1),
        ));
    }
    assert(compile(text) == Ok::<Compiled, CompileError>(p));
    assert forall|start: int| succeeds_at(p, input, start) == (0 <= start < input.len()
        && input[start] == c) by {
        reveal_with_fuel(match_seq, 2);
    }
    if input.contains(c) {
        let i = choose|i: int| 0 <= i < input.len() && input[i] == c;
        assert(is_candidate(p, input, i) && succeeds_at(p, input, i));
    }
    if has_match(p, input) {
        let start = choose|start: int| is_candidate(p, input, start) && succeeds_at(p, input, start);
        assert(input[start] == c);
    }
}

/// The pattern `^abc` matches exactly the inputs that start with `abc`.
pub proof fn lemma_anchored_at_start(input: Seq<char>)
    ensures
        compile("^abc"@) == Ok::<Compiled, CompileError>(
            Compiled { nodes: literals("abc"@), anchored_start: true, anchored_end: false },
        ),
        has_match(compile("^abc"@)->Ok_0, input) <==> "abc"@.is_prefix_of(input),
{
    reveal_strlit("^abc");
    reveal_strlit("abc");
    assert("^abc"@ =~= seq!['^'] + "abc"@);
    lemma_plain_pattern_at_start("abc"@, input);
}

/// The pattern `abc$` matches exactly the inputs that end with `abc`.
pub proof fn lemma_anchored_at_end(input: Seq<char>)
    ensures
        compile("abc$"@) == Ok::<Compiled, CompileError>(
            Compiled { nodes: literals("abc"@), anchored_start: false, anchored_end: true },
        ),
        has_match(compile("abc$"@)->Ok_0, input) <==> "abc"@.is_suffix_of(input),
{
    reveal_strlit("abc$");
    reveal_strlit("abc");
    assert("abc$"@ =~= "abc"@.push('$'));
    lemma_plain_pattern_at_end("abc"@, input);
}

/// The empty pattern compiles to no node and no anchor, and matches every
/// input: the attempt at offset 0 has nothing to match.
pub proof fn lemma_empty_pattern(input: Seq<char>)
    ensures
        compile(Seq::empty()) == Ok::<Compiled, CompileError>(
            Compiled { nodes: Seq::empty(), anchored_start: false, anchored_end: false },
        ),
        has_match(compile(Seq::empty())->Ok_0, input),
        first_match(compile(Seq::empty())->Ok_0, input) == Some(0int),
        attempt(compile(Seq::empty())->Ok_0, input, 0) == (Outcome {
            ok: true,
            pos: 0,
            caps: Seq::empty(),
        }),
{
    let p = Compiled { nodes: Seq::<Node>::empty(), anchored_start: false, anchored_end: false };
    assert(parse(Seq::empty()) == Ok::<Seq<Node>, CompileError>(Seq::empty()));
    assert(is_candidate(p, input, 0) && succeeds_at(p, input, 0));
}

/// Whether `node` cannot match without taking a character from the input.
/// That holds of a node for a single character, of a repetition of such a
/// node, and of a group each of whose alternatives holds such a node.
pub open spec fn must_consume(node: Node) -> bool
    decreases node,
{
    match node {
        Node::OneOrMore(inner) => must_consume(*inner),
        Node::ZeroOrOne(_) => false,
        Node::BackReference(_) => false,
        Node::Many(alts) => forall|k: int|
            0 <= k < alts.len() ==> exists|j: int|
                0 <= j < (#[trigger] alts[k]).len() && must_consume(#[trigger] alts[k][j]),
        _ => true,
    }
}

/// Whether no node of `nodes` must take a character.
pub open spec fn may_match_nothing(nodes: Seq<Node>) -> bool {
    forall|j: int| 0 <= j < nodes.len() ==> !must_consume(#[trigger] nodes[j])
}

proof fn lemma_empty_input_node(
    node: Node,
    input: Seq<char>,
    pos: int,
    caps: Seq<Seq<char>>,
    depth: nat,
)
    requires
        input.len() == 0,
        match_node(node, input, pos, caps, depth).ok,
    ensures
        !must_consume(node),
    decreases node, 0int,
{
    match node {
        Node::OneOrMore(inner) => {
            lemma_empty_input_node(*inner, input, pos, caps, depth);
        },
        Node::Many(alts) => {
            lemma_empty_input_alts(alts, 0, input, pos, caps, depth);
            let k = choose|k: int| 0 <= k < alts.len() && may_match_nothing(#[trigger] alts[k]);
            assert(!exists|j: int| 0 <= j < alts[k].len() && must_consume(#[trigger] alts[k][j]));
        },
        _ => {},
    }
}

proof fn lemma_empty_input_seq(
    nodes: Seq<Node>,
    from: int,
    input: Seq<char>,
    pos: int,
    caps: Seq<Seq<char>>,
    depth: nat,
)
    requires
        input.len() == 0,
        0 <= from,
        match_seq(nodes, from, input, pos, caps, depth).ok,
    ensures
        forall|j: int| from <= j < nodes.len() ==> !must_consume(#[trigger] nodes[j]),
        from == 0 ==> may_match_nothing(nodes),
    decreases nodes, nodes.len() - from,
{
    if from < nodes.len() {
        let r = match_node(nodes[from], input, pos, caps, depth);
        lemma_empty_input_node(nodes[from], input, pos, caps, depth);
        lemma_empty_input_seq(nodes, from + 1, input, r.pos, r.caps, depth);
    }
}

proof fn lemma_empty_input_alts(
    alts: Seq<Seq<Node>>,
    from: int,
    input: Seq<char>,
    pos: int,
    caps: Seq<Seq<char>>,
    depth: nat,
)
    requires
        input.len() == 0,
        0 <= from,
        match_alts(alts, from, input, pos, caps, depth).ok,
    ensures
        exists|k: int| from <= k < alts.len() && may_match_nothing(#[trigger] alts[k]),
    decreases alts, alts.len() - from,
{
    if from < alts.len() {
        let r = match_seq(alts[from], 0, input, pos, caps, depth);
        if r.ok {
            lemma_empty_input_seq(alts[from], 0, input, pos, caps, depth);
        } else {
            lemma_empty_input_alts(alts, from + 1, input, pos, r.caps, depth);
        }
    }
}

/// A pattern that matches the empty input holds no node that must take a
/// character.
pub proof fn lemma_empty_input(p: Compiled)
    requires
        has_match(p, Seq::empty()),
    ensures
        may_match_nothing(p.nodes),
{
    let input = Seq::<char>::empty();
    let start = choose|start: int| is_candidate(p, input, start) && succeeds_at(p, input, start);
    lemma_empty_input_seq(p.nodes, 0, input, start, Seq::empty(), expansion_limit(0));
}

} // verus!
