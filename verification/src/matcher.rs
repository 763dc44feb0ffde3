//! The backtracking matcher: what it means for a node, a node sequence and a
//! group to match at a cursor, and the functions that decide it.

use crate::compile::{parse, Compiled};
use crate::pattern::{
    accepts, alts_view, char_is_digit, char_is_word, has_member, lemma_many_view, nodes_view,
    Node, Pattern,
};
use crate::regx::Regx;
use crate::text::{char_at, push_char, span, texts};
use vstd::prelude::*;

verus! {

/// Why a step of a match attempt cannot be taken.
#[derive(Debug, PartialEq, Eq, Clone, Copy)]
pub enum MatchError {
    /// A back-reference names this capture slot, which holds no text yet.
    InvalidBackreference(usize),
}

/// How an attempt to match at a cursor ended.
pub struct Outcome {
    /// Whether the match succeeded.
    pub ok: bool,
    /// The cursor afterwards.
    pub pos: int,
    /// The capture table afterwards: slot `n` is at index `n - 1`.
    pub caps: Seq<Seq<char>>,
}

/// How deep back-references may nest inside the texts of other
/// back-references, for an input of `len` characters.
///
/// The text of a capture slot is read as a pattern, so it may hold
/// back-references of its own, and reading those can lead back to the slot
/// that is being read: a search that followed them without limit would not
/// end. A back-reference is therefore not expanded at a nesting depth beyond
/// this limit, and fails there.
///
/// The limit is the number of situations in which an expansion can begin. A
/// pattern can name nine slots; what an expansion reads of the capture table
/// are those nine slots, of which between one and nine are filled when it
/// begins; and the cursor stands at one of `len + 1` offsets. Slots are
/// never overwritten and the cursor never moves back within an attempt, so
/// expansions nested deeper than the limit would repeat one of these
/// situations.
pub open spec fn expansion_limit(len: nat) -> nat {
    81 * (len + 1)
}

/// Matching `node` at `pos` against `input`, with capture table `caps`.
/// `depth` is how many back-reference expansions may still nest.
///
/// On failure the cursor is where it was; the capture table keeps what
/// groups inside `node` have added to it on the way.
pub open spec fn match_node(
    node: Node,
    input: Seq<char>,
    pos: int,
    caps: Seq<Seq<char>>,
    depth: nat,
) -> Outcome
    decreases depth, node, 0int,
{
    match node {
        Node::OneOrMore(inner) => {
            let first = match_node(*inner, input, pos, caps, depth);
            if first.ok {
                match_more(*inner, input, first.pos, first.caps, depth)
            } else {
                Outcome { ok: false, pos, caps: first.caps }
            }
        },
        Node::ZeroOrOne(inner) => {
            let once = match_node(*inner, input, pos, caps, depth);
            Outcome { ok: true, pos: once.pos, caps: once.caps }
        },
        Node::BackReference(n) => {
            if 1 <= n <= caps.len() && depth > 0 {
                match parse(caps[n - 1]) {
                    Ok(nodes) => {
                        let r = match_seq(nodes, 0, input, pos, caps, (depth - 1) as nat);
                        if r.ok {
                            r
                        } else {
                            Outcome { ok: false, pos, caps: r.caps }
                        }
                    },
                    Err(_) => Outcome { ok: false, pos, caps },
                }
            } else {
                Outcome { ok: false, pos, caps }
            }
        },
        Node::Many(alts) => match_alts(alts, 0, input, pos, caps, depth),
        _ => {
            if 0 <= pos < input.len() && accepts(node, input[pos]) {
                Outcome { ok: true, pos: pos + 1, caps }
            } else {
                Outcome { ok: false, pos, caps }
            }
        },
    }
}

/// The further repetitions of `inner` after its first match: it is matched
/// again for as long as it matches and moves the cursor. Never fails.
pub open spec fn match_more(
    inner: Node,
    input: Seq<char>,
    pos: int,
    caps: Seq<Seq<char>>,
    depth: nat,
) -> Outcome
    decreases depth, inner, (if pos <= input.len() {
        input.len() - pos + 1
    } else {
        1
    }),
{
    let again = match_node(inner, input, pos, caps, depth);
    if again.ok && pos < again.pos <= input.len() {
        match_more(inner, input, again.pos, again.caps, depth)
    } else if again.ok {
        Outcome { ok: true, pos: again.pos, caps: again.caps }
    } else {
        Outcome { ok: true, pos, caps: again.caps }
    }
}

/// Matching the nodes of `nodes` from index `j` on, one after the other,
/// each where the one before it left the cursor. Fails with the first node
/// that fails.
pub open spec fn match_seq(
    nodes: Seq<Node>,
    j: int,
    input: Seq<char>,
    pos: int,
    caps: Seq<Seq<char>>,
    depth: nat,
) -> Outcome
    decreases depth, nodes, nodes.len() - j,
{
    if 0 <= j < nodes.len() {
        let r = match_node(nodes[j], input, pos, caps, depth);
        if r.ok {
            match_seq(nodes, j + 1, input, r.pos, r.caps, depth)
        } else {
            r
        }
    } else {
        Outcome { ok: true, pos, caps }
    }
}

/// Matching a group at `pos` by its alternatives from index `k` on: the
/// first one whose nodes all match wins, and the text it matched is added to
/// the capture table as its next slot. Each alternative starts at `pos`.
pub open spec fn match_alts(
    alts: Seq<Seq<Node>>,
    k: int,
    input: Seq<char>,
    pos: int,
    caps: Seq<Seq<char>>,
    depth: nat,
) -> Outcome
    decreases depth, alts, alts.len() - k,
{
    if 0 <= k < alts.len() {
        let r = match_seq(alts[k], 0, input, pos, caps, depth);
        if r.ok {
            Outcome { ok: true, pos: r.pos, caps: r.caps.push(span(input, pos, r.pos)) }
        } else {
            match_alts(alts, k + 1, input, pos, r.caps, depth)
        }
    } else {
        Outcome { ok: false, pos, caps }
    }
}

/// Whether a match that began at `start` and reports `ok`, the cursor
/// `end`, the capture table `caps` and the matched text `text` ended as
/// `expected`.
pub open spec fn agrees(
    expected: Outcome,
    input: Seq<char>,
    start: int,
    ok: bool,
    end: int,
    caps: Seq<Seq<char>>,
    text: Seq<char>,
) -> bool {
    &&& ok == expected.ok
    &&& end == expected.pos
    &&& caps == expected.caps
    &&& text == if ok {
        span(input, start, end)
    } else {
        Seq::empty()
    }
    &&& start <= end
    &&& end <= input.len() || end == start
    &&& !ok ==> end == start
}

/// The text in capture slot `n` of `captures`. Slots are numbered from 1.
///
/// Fails where the table holds no slot of that number.
pub fn capture_text(captures: &Vec<String>, n: usize) -> (r: Result<&String, MatchError>)
    ensures
        1 <= n <= captures@.len() ==> r is Ok && *r->Ok_0 == captures@[n - 1],
        !(1 <= n <= captures@.len()) ==> r is Err && r->Err_0
            == MatchError::InvalidBackreference(n),
{
    if 1 <= n && n <= captures.len() {
        Ok(&captures[n - 1])
    } else {
        Err(MatchError::InvalidBackreference(n))
    }
}

proof fn lemma_texts_push(table: Seq<String>, text: String)
    ensures
        texts(table.push(text)) == texts(table).push(text@),
{
    assert(texts(table.push(text)) =~= texts(table).push(text@));
}

proof fn lemma_span_join(input: Seq<char>, a: int, b: int, c: int)
    requires
        0 <= a <= b <= c,
        c <= input.len() || c == b,
        b <= input.len() || b == a,
    ensures
        span(input, a, b) + span(input, b, c) == span(input, a, c),
{
    assert(span(input, a, b) + span(input, b, c) =~= span(input, a, c));
}

/// Matches `node` at the cursor, with `depth` back-reference expansions
/// still allowed to nest.
fn check_node(
    node: &Pattern,
    input: &[char],
    cursor: &mut usize,
    captures: &mut Vec<String>,
    depth: u128,
) -> (res: (bool, String))
    ensures
        agrees(
            match_node(
                node@,
                input@,
                *old(cursor) as int,
                texts(old(captures)@),
                depth as nat,
            ),
            input@,
            *old(cursor) as int,
            res.0,
            *final(cursor) as int,
            texts(final(captures)@),
            res.1@,
        ),
    decreases depth, node,
{
    let start = *cursor;
    let ghost caps = texts(captures@);
    match node {
        Pattern::OneOrMore(inner) => {
            let first = check_node(inner, input, cursor, captures, depth);
            if !first.0 {
                return (false, String::new());
            }
            let mut captured = first.1;
            let mut more = true;
            while more
                invariant
                    start == *old(cursor),
                    caps == texts(old(captures)@),
                    start <= *cursor,
                    *cursor <= input.len() || *cursor == start,
                    captured@ == span(input@, start as int, *cursor as int),
                    node@ == Node::OneOrMore(Box::new(inner@)),
                    decreases_to!(node => inner),
                    more ==> match_more(
                        inner@,
                        input@,
                        *cursor as int,
                        texts(captures@),
                        depth as nat,
                    ) == match_node(node@, input@, start as int, caps, depth as nat),
                    !more ==> (Outcome { ok: true, pos: *cursor as int, caps: texts(captures@) })
                        == match_node(node@, input@, start as int, caps, depth as nat),
                decreases
                        (if more {
                            1int
                        } else {
                            0int
                        }),
                        (if *cursor <= input.len() {
                            input.len() - *cursor
                        } else {
                            0
                        }),
            {
                let before = *cursor;
                let again = check_node(inner, input, cursor, captures, depth);
                proof {
                    lemma_span_join(input@, start as int, before as int, *cursor as int);
                }
                captured.append(again.1.as_str());
                if !again.0 || *cursor <= before {
                    more = false;
                }
            }
            (true, captured)
        },
        Pattern::ZeroOrOne(inner) => {
            let once = check_node(inner, input, cursor, captures, depth);
            assert(span(input@, start as int, start as int) =~= Seq::<char>::empty());
            (true, once.1)
        },
        Pattern::BackReference(n) => {
            if depth == 0 {
                return (false, String::new());
            }
            let text = match capture_text(captures, *n) {
                Ok(text) => text.clone(),
                Err(_) => {
                    return (false, String::new());
                },
            };
            match Regx::build_patterns(text.as_str()) {
                Ok(nodes) => check_sequence(&nodes, input, cursor, captures, depth - 1),
                Err(_) => (false, String::new()),
            }
        },
        Pattern::Many(alts) => {
            proof {
                lemma_many_view(*alts);
            }
            let mut k: usize = 0;
            while k < alts.len()
                invariant
                    k <= alts.len(),
                    start == *old(cursor),
                    caps == texts(old(captures)@),
                    *cursor == start,
                    decreases_to!(node => alts),
                    match_alts(
                        alts_view(alts@),
                        k as int,
                        input@,
                        start as int,
                        texts(captures@),
                        depth as nat,
                    ) == match_node(node@, input@, start as int, caps, depth as nat),
                decreases alts.len() - k,
            {
                let r = check_sequence(&alts[k], input, cursor, captures, depth);
                if r.0 {
                    let text = r.1;
                    proof {
                        lemma_texts_push(captures@, text);
                    }
                    captures.push(text.clone());
                    return (true, text);
                }
                k += 1;
            }
            (false, String::new())
        },
        _ => {
            if *cursor < input.len() {
                let c = char_at(input, *cursor);
                let hit = match node {
                    Pattern::Literal(l) => *l == c,
                    Pattern::Digit => char_is_digit(c),
                    Pattern::Alphanumeric => char_is_word(c),
                    Pattern::Any => true,
                    Pattern::Group(positive, members) => has_member(members.as_str(), c)
                        == *positive,
                    _ => false,
                };
                if hit {
                    *cursor = *cursor + 1;
                    let mut text = String::new();
                    push_char(&mut text, c);
                    assert(text@ =~= span(input@, start as int, start + 1));
                    return (true, text);
                }
            }
            (false, String::new())
        },
    }
}

/// Matches the nodes of `nodes` one after the other from the cursor on, with
/// `depth` back-reference expansions still allowed to nest. Where one of
/// them fails, the cursor is put back to where it was.
pub(crate) fn check_sequence(
    nodes: &Vec<Pattern>,
    input: &[char],
    cursor: &mut usize,
    captures: &mut Vec<String>,
    depth: u128,
) -> (res: (bool, String))
    ensures
        ({
            let r = match_seq(
                nodes_view(nodes@),
                0,
                input@,
                *old(cursor) as int,
                texts(old(captures)@),
                depth as nat,
            );
            agrees(
                Outcome {
                    ok: r.ok,
                    pos: if r.ok {
                        r.pos
                    } else {
                        *old(cursor) as int
                    },
                    caps: r.caps,
                },
                input@,
                *old(cursor) as int,
                res.0,
                *final(cursor) as int,
                texts(final(captures)@),
                res.1@,
            )
        }),
    decreases depth, nodes,
{
    let start = *cursor;
    let ghost caps = texts(captures@);
    let mut captured = String::new();
    let mut j: usize = 0;
    while j < nodes.len()
        invariant
            j <= nodes.len(),
            start == *old(cursor),
            caps == texts(old(captures)@),
            start <= *cursor,
            *cursor <= input.len() || *cursor == start,
            captured@ == span(input@, start as int, *cursor as int),
            match_seq(
                nodes_view(nodes@),
                j as int,
                input@,
                *cursor as int,
                texts(captures@),
                depth as nat,
            ) == match_seq(nodes_view(nodes@), 0, input@, start as int, caps, depth as nat),
        decreases nodes.len() - j,
    {
        let before = *cursor;
        let r = check_node(&nodes[j], input, cursor, captures, depth);
        assert(nodes_view(nodes@)[j as int] == nodes@[j as int]@);
        if !r.0 {
            *cursor = start;
            return (false, String::new());
        }
        proof {
            lemma_span_join(input@, start as int, before as int, *cursor as int);
        }
        captured.append(r.1.as_str());
        j += 1;
    }
    (true, captured)
}

/// The most back-reference expansions that may nest for an input of `len`
/// characters.
pub(crate) fn depth_limit(len: usize) -> (depth: u128)
    ensures
        depth == expansion_limit(len as nat),
{
    81u128 * (len as u128 + 1)
}

impl Pattern {
    /// Matches this node against `input` at `*cursor`.
    ///
    /// Returns whether it matched, and the text it matched: the part of
    /// `input` that the cursor has passed over, empty on failure. On success
    /// the cursor stands behind that text; on failure it is where it was.
    /// `captures` is the capture table of the attempt, slot `n` at index
    /// `n - 1`: every group that matches on the way appends its text to it,
    /// also where the node as a whole then fails.
    pub fn checks(&self, input: &[char], cursor: &mut usize, captures: &mut Vec<String>) -> (res:
        (bool, String))
        ensures
            agrees(
                match_node(
                    self@,
                    input@,
                    *old(cursor) as int,
                    texts(old(captures)@),
                    expansion_limit(input@.len()),
                ),
                input@,
                *old(cursor) as int,
                res.0,
                *final(cursor) as int,
                texts(final(captures)@),
                res.1@,
            ),
    {
        check_node(self, input, cursor, captures, depth_limit(input.len()))
    }
}

/// One match attempt: the nodes of `p` matched in order from offset `start`
/// of `input`, with a capture table that is empty at first.
pub open spec fn attempt(p: Compiled, input: Seq<char>, start: int) -> Outcome {
    match_seq(p.nodes, 0, input, start, Seq::empty(), expansion_limit(input.len()))
}

/// Whether the attempt at offset `start` succeeds: every node matches, and
/// where `p` is anchored at the end, the cursor then stands at the end of
/// `input`.
pub open spec fn succeeds_at(p: Compiled, input: Seq<char>, start: int) -> bool {
    let r = attempt(p, input, start);
    r.ok && (p.anchored_end ==> r.pos == input.len())
}

/// Whether an attempt is made at offset `start`: at offset 0 always, and,
/// unless `p` is anchored at the start, at every further offset before the
/// end of `input`.
pub open spec fn is_candidate(p: Compiled, input: Seq<char>, start: int) -> bool {
    start == 0 || (!p.anchored_start && 0 < start < input.len())
}

/// Whether `p` matches `input`: some attempt that is made succeeds.
pub open spec fn has_match(p: Compiled, input: Seq<char>) -> bool {
    exists|start: int| is_candidate(p, input, start) && succeeds_at(p, input, start)
}

/// The first offset from `start` on at which an attempt is made and
/// succeeds, if there is one.
pub open spec fn first_match_from(p: Compiled, input: Seq<char>, start: int) -> Option<int>
    decreases input.len() - start,
{
    if succeeds_at(p, input, start) {
        Some(start)
    } else if !p.anchored_start && 0 <= start && start + 1 < input.len() {
        first_match_from(p, input, start + 1)
    } else {
        None
    }
}

/// The offset of the attempt that decides a match: the first that succeeds.
pub open spec fn first_match(p: Compiled, input: Seq<char>) -> Option<int> {
    first_match_from(p, input, 0)
}

/// The capture table that a search leaves: that of the first attempt that
/// succeeded, and an empty one where none did.
pub open spec fn captures_after(p: Compiled, input: Seq<char>) -> Seq<Seq<char>> {
    match first_match(p, input) {
        Some(start) => attempt(p, input, start).caps,
        None => Seq::empty(),
    }
}

/// The search from `start` on finds the first candidate offset from there
/// on at which the attempt succeeds, and finds none only where there is
/// none.
pub proof fn lemma_first_match_from(p: Compiled, input: Seq<char>, start: int)
    requires
        0 <= start,
        is_candidate(p, input, start),
    ensures
        match first_match_from(p, input, start) {
            Some(found) => {
                &&& start <= found
                &&& is_candidate(p, input, found)
                &&& succeeds_at(p, input, found)
                &&& forall|k: int| start <= k < found ==> !succeeds_at(p, input, k)
            },
            None => forall|k: int|
                start <= k && is_candidate(p, input, k) ==> !succeeds_at(p, input, k),
        },
    decreases input.len() - start,
{
    if !succeeds_at(p, input, start) && !p.anchored_start && start + 1 < input.len() {
        lemma_first_match_from(p, input, start + 1);
    }
}

/// A pattern matches exactly where the search for the first successful
/// attempt finds one.
pub proof fn lemma_has_match_iff_first(p: Compiled, input: Seq<char>)
    ensures
        has_match(p, input) <==> first_match(p, input) is Some,
{
    lemma_first_match_from(p, input, 0);
}

} // verus!
