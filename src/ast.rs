//! Tokens of a compiled pattern, and their mathematical model.

use vstd::prelude::*;

verus! {

/// Whether a bracket class lists the characters it accepts or those it refuses.
#[derive(Debug, Clone, Copy, PartialEq, Eq)]
pub enum GroupType {
    Positive,
    Negative,
}

/// One node of a compiled pattern.
#[derive(Debug, PartialEq)]
pub enum Token {
    Literal(char),
    Digit,
    Alphanumeric,
    Wildcard,
    BracketGroup(Vec<char>, GroupType),
    EndAnchor,
    Quantifier(Box<Token>, usize, Option<usize>),
    Alternation(Vec<Token>, Vec<Token>),
    Group(Vec<Token>, usize),
    Backreference(usize),
}

/// The mathematical form of a token: sequences in place of vectors, and a
/// flag in place of the class kind (`true` for a negated class).
pub enum Node {
    Literal(char),
    Digit,
    Alphanumeric,
    Wildcard,
    Class(Seq<char>, bool),
    EndAnchor,
    Quantifier(Box<Node>, usize, Option<usize>),
    Alternation(Seq<Node>, Seq<Node>),
    Group(Seq<Node>, usize),
    Backreference(usize),
}

/// The node that a token stands for.
pub open spec fn node_of(t: Token) -> Node
    decreases t,
{
    match t {
        Token::Literal(c) => Node::Literal(c),
        Token::Digit => Node::Digit,
        Token::Alphanumeric => Node::Alphanumeric,
        Token::Wildcard => Node::Wildcard,
        Token::BracketGroup(m, g) => Node::Class(m@, g is Negative),
        Token::EndAnchor => Node::EndAnchor,
        Token::Quantifier(inner, lo, hi) => Node::Quantifier(Box::new(node_of(*inner)), lo, hi),
        Token::Alternation(l, r) => Node::Alternation(nodes_of(l@), nodes_of(r@)),
        Token::Group(b, id) => Node::Group(nodes_of(b@), id),
        Token::Backreference(n) => Node::Backreference(n),
    }
}

/// The nodes of a sequence of tokens, in order.
pub open spec fn nodes_of(s: Seq<Token>) -> Seq<Node>
    decreases s,
{
    if s.len() == 0 {
        Seq::empty()
    } else {
        nodes_of(s.drop_last()).push(node_of(s.last()))
    }
}

/// A measure of a node that every step of the matcher makes smaller or
/// leaves alone while it consumes text; a quantifier counts its minimum.
pub open spec fn node_size(n: Node) -> nat
    decreases n, 0nat,
{
    match n {
        Node::Quantifier(inner, lo, _) => 1 + node_size(*inner) + lo as nat,
        Node::Alternation(l, r) => 1 + rest_size(l, 0) + rest_size(r, 0),
        Node::Group(b, _) => 1 + rest_size(b, 0),
        _ => 1,
    }
}

/// The measure of the nodes of `s` from index `i` on.
pub open spec fn rest_size(s: Seq<Node>, i: nat) -> nat
    decreases s, s.len() - i,
{
    if i < s.len() {
        node_size(s[i as int]) + rest_size(s, i + 1)
    } else {
        0
    }
}

pub proof fn lemma_nodes_of_len(s: Seq<Token>)
    ensures
        nodes_of(s).len() == s.len(),
    decreases s.len(),
{
    if s.len() > 0 {
        lemma_nodes_of_len(s.drop_last());
    }
}

pub proof fn lemma_nodes_of_index(s: Seq<Token>, i: int)
    requires
        0 <= i < s.len(),
    ensures
        nodes_of(s).len() == s.len(),
        nodes_of(s)[i] == node_of(s[i]),
    decreases s.len(),
{
    lemma_nodes_of_len(s);
    if i < s.len() - 1 {
        lemma_nodes_of_index(s.drop_last(), i);
    }
}

pub proof fn lemma_nodes_of_push(s: Seq<Token>, t: Token)
    ensures
        nodes_of(s.push(t)) == nodes_of(s).push(node_of(t)),
{
    assert(s.push(t).drop_last() =~= s);
}

} // verus!
