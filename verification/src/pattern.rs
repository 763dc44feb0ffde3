//! The nodes of a compiled pattern, and the mathematical model that the
//! contracts of this crate are stated over.

use vstd::prelude::*;

verus! {

/// A pattern node as a mathematical value: the view of a [`Pattern`].
pub enum Node {
    /// Exactly this character.
    Literal(char),
    /// One ASCII digit.
    Digit,
    /// One ASCII letter, ASCII digit or underscore.
    Alphanumeric,
    /// Any one character.
    Any,
    /// The inner node, one or more times, as often as it will match.
    OneOrMore(Box<Node>),
    /// The inner node, once if it will match, else not at all.
    ZeroOrOne(Box<Node>),
    /// The text that the capture slot of this number holds, read again as a
    /// pattern.
    BackReference(nat),
    /// A capturing group: its alternatives in order, each a node sequence.
    Many(Seq<Seq<Node>>),
    /// A character class: whether it is positive, and its members.
    Group(bool, Seq<char>),
}

/// A pattern node.
#[derive(Debug, PartialEq)]
pub enum Pattern {
    /// Exactly this character.
    Literal(char),
    /// One ASCII digit.
    Digit,
    /// One ASCII letter, ASCII digit or underscore.
    Alphanumeric,
    /// Any one character.
    Any,
    /// The inner node, one or more times, as often as it will match.
    OneOrMore(Box<Pattern>),
    /// The inner node, once if it will match, else not at all.
    ZeroOrOne(Box<Pattern>),
    /// The text that the capture slot of this number holds, read again as a
    /// pattern. Slots are numbered from 1.
    BackReference(usize),
    /// A capturing group: its alternatives in order, each a node sequence.
    Many(Vec<Vec<Pattern>>),
    /// A character class: `true` for a positive class, `false` for a negated
    /// one; then its members.
    Group(bool, String),
}

impl Pattern {
    /// The node that this value stands for.
    pub open spec fn model(&self) -> Node
        decreases self,
    {
        match self {
            Pattern::Literal(c) => Node::Literal(*c),
            Pattern::Digit => Node::Digit,
            Pattern::Alphanumeric => Node::Alphanumeric,
            Pattern::Any => Node::Any,
            Pattern::OneOrMore(inner) => Node::OneOrMore(Box::new(inner.model())),
            Pattern::ZeroOrOne(inner) => Node::ZeroOrOne(Box::new(inner.model())),
            Pattern::BackReference(n) => Node::BackReference(*n as nat),
            Pattern::Many(alts) => Node::Many(
                Seq::new(
                    alts@.len(),
                    |i: int|
                        if 0 <= i < alts@.len() {
                            Seq::new(
                                alts@[i]@.len(),
                                |j: int|
                                    if 0 <= j < alts@[i]@.len() {
                                        alts@[i]@[j].model()
                                    } else {
                                        Node::Any
                                    },
                            )
                        } else {
                            Seq::empty()
                        },
                ),
            ),
            Pattern::Group(positive, members) => Node::Group(*positive, members@),
        }
    }
}

impl View for Pattern {
    type V = Node;

    open spec fn view(&self) -> Node {
        self.model()
    }
}

/// The nodes that a sequence of patterns stands for.
pub open spec fn nodes_view(patterns: Seq<Pattern>) -> Seq<Node> {
    Seq::new(patterns.len(), |j: int| patterns[j]@)
}

/// The alternatives that a sequence of pattern sequences stands for.
pub open spec fn alts_view(alts: Seq<Vec<Pattern>>) -> Seq<Seq<Node>> {
    Seq::new(alts.len(), |i: int| nodes_view(alts[i]@))
}

/// The view of a group is the group of the views of its alternatives.
pub proof fn lemma_many_view(alts: Vec<Vec<Pattern>>)
    ensures
        Pattern::Many(alts)@ == Node::Many(alts_view(alts@)),
{
    let p = Pattern::Many(alts);
    assert(p@->Many_0 =~~= alts_view(alts@));
}

/// Whether `c` is one of the ASCII digits `0` to `9`.
pub open spec fn is_digit(c: char) -> bool {
    '0' <= c <= '9'
}

/// Whether `c` is an ASCII letter, an ASCII digit or the underscore.
pub open spec fn is_word(c: char) -> bool {
    ||| 'a' <= c <= 'z'
    ||| 'A' <= c <= 'Z'
    ||| '0' <= c <= '9'
    ||| c == '_'
}

/// Whether a node that stands for a single character accepts `c`. No other
/// node does.
pub open spec fn accepts(node: Node, c: char) -> bool {
    match node {
        Node::Literal(l) => l == c,
        Node::Digit => is_digit(c),
        Node::Alphanumeric => is_word(c),
        Node::Any => true,
        Node::Group(positive, members) => members.contains(c) == positive,
        _ => false,
    }
}

/// Tests whether `c` is an ASCII digit.
pub(crate) fn char_is_digit(c: char) -> (r: bool)
    ensures
        r == is_digit(c),
{
    '0' <= c && c <= '9'
}

/// Tests whether `c` is an ASCII letter, an ASCII digit or the underscore.
pub(crate) fn char_is_word(c: char) -> (r: bool)
    ensures
        r == is_word(c),
{
    ('a' <= c && c <= 'z') || ('A' <= c && c <= 'Z') || ('0' <= c && c <= '9') || c == '_'
}

/// Tests whether `c` occurs in `members`.
pub(crate) fn has_member(members: &str, c: char) -> (r: bool)
    ensures
        r == members@.contains(c),
{
    let mut found = false;
    for m in it: members.chars()
        invariant
            it.seq() == members@,
            found == exists|k: int| 0 <= k < it.index() && members@[k] == c,
    {
        if m == c {
            found = true;
        }
    }
    found
}

impl Pattern {
    /// A copy of this node.
    fn duplicate(&self) -> (copy: Pattern)
        ensures
            copy@ == self@,
        decreases self,
    {
        match self {
            Pattern::Literal(c) => Pattern::Literal(*c),
            Pattern::Digit => Pattern::Digit,
            Pattern::Alphanumeric => Pattern::Alphanumeric,
            Pattern::Any => Pattern::Any,
            Pattern::OneOrMore(inner) => Pattern::OneOrMore(Box::new(inner.duplicate())),
            Pattern::ZeroOrOne(inner) => Pattern::ZeroOrOne(Box::new(inner.duplicate())),
            Pattern::BackReference(n) => Pattern::BackReference(*n),
            Pattern::Many(alts) => {
                let mut copy: Vec<Vec<Pattern>> = Vec::new();
                let mut i: usize = 0;
                while i < alts.len()
                    invariant
                        i <= alts.len(),
                        copy.len() == i,
                        decreases_to!(self => alts),
                        forall|k: int|
                            0 <= k < i ==> nodes_view(#[trigger] copy@[k]@) == nodes_view(
                                alts@[k]@,
                            ),
                    decreases alts.len() - i,
                {
                    copy.push(Pattern::duplicate_all(&alts[i]));
                    i += 1;
                }
                proof {
                    lemma_many_view(copy);
                    lemma_many_view(*alts);
                    assert(alts_view(copy@) =~= alts_view(alts@));
                }
                Pattern::Many(copy)
            },
            Pattern::Group(positive, members) => Pattern::Group(*positive, members.clone()),
        }
    }

    /// A copy of each node of `nodes`, in order.
    fn duplicate_all(nodes: &Vec<Pattern>) -> (copy: Vec<Pattern>)
        ensures
            nodes_view(copy@) == nodes_view(nodes@),
        decreases nodes,
    {
        let mut copy: Vec<Pattern> = Vec::new();
        let mut j: usize = 0;
        while j < nodes.len()
            invariant
                j <= nodes.len(),
                copy.len() == j,
                forall|k: int| 0 <= k < j ==> (#[trigger] copy@[k])@ == nodes@[k]@,
            decreases nodes.len() - j,
        {
            copy.push(nodes[j].duplicate());
            j += 1;
        }
        assert(nodes_view(copy@) =~= nodes_view(nodes@));
        copy
    }
}

impl Clone for Pattern {
    fn clone(&self) -> (copy: Self)
        ensures
            copy@ == self@,
    {
        self.duplicate()
    }
}

} // verus!
