//! Properties of the parser and the matcher, proved over their models.

use vstd::prelude::*;

use crate::ast::Node;
use crate::matcher::{match_len, match_node, match_seq, accepts, Capture};
use crate::parser::{
    alternatives, braced, find_char, group_body, group_close, lemma_bar_at_bounds,
    lemma_group_close_bounds, lemma_next_pos, next_pos, parse_from, parse_nodes, quantify_last,
    step_nodes, bar_at, escaped,
};

verus! {

/// A character that the parser treats as an operator outside escapes.
pub open spec fn is_meta(c: char) -> bool {
    c == '\\' || c == '$' || c == '[' || c == '(' || c == '{' || c == '+' || c == '?' || c == '*'
        || c == '.'
}

/// A pattern without operators: every character stands for itself.
pub open spec fn is_plain(p: Seq<char>) -> bool {
    forall|k: int| 0 <= k < p.len() ==> !is_meta(#[trigger] p[k])
}

/// The node that a character outside any operator stands for.
pub open spec fn literal_node(c: char) -> Node {
    Node::Literal(c)
}

/// One literal node for each character of `s`.
pub open spec fn literal_nodes(s: Seq<char>) -> Seq<Node>
    decreases s.len(),
{
    if s.len() == 0 {
        Seq::empty()
    } else {
        seq![literal_node(s[0])] + literal_nodes(s.drop_first())
    }
}

proof fn lemma_literals_index(s: Seq<char>)
    ensures
        literal_nodes(s).len() == s.len(),
        forall|k: int| 0 <= k < s.len() ==> #[trigger] literal_nodes(s)[k] == Node::Literal(s[k]),
    decreases s.len(),
{
    if s.len() > 0 {
        lemma_literals_index(s.drop_first());
        assert forall|k: int| 0 <= k < s.len() implies #[trigger] literal_nodes(s)[k] == Node::Literal(s[k]) by {
            if k > 0 {
                assert(literal_nodes(s)[k] == literal_nodes(s.drop_first())[k - 1]);
            }
        }
    }
}

proof fn lemma_parse_plain(p: Seq<char>, i: int, hi: int, acc: Seq<Node>, count: int)
    requires
        0 <= i <= hi <= p.len(),
        is_plain(p),
    ensures
        parse_from(p, i, hi, acc, count) == (acc + literal_nodes(p.subrange(i, hi)), count),
    decreases hi - i,
{
    if i < hi {
        assert(!is_meta(p[i]));
        assert(next_pos(p, i, hi) == i + 1);
        assert(step_nodes(p, i, hi, acc, count) == (acc.push(Node::Literal(p[i])), count));
        lemma_parse_plain(p, i + 1, hi, acc.push(Node::Literal(p[i])), count);
        assert(p.subrange(i, hi).drop_first() =~= p.subrange(i + 1, hi));
        assert(acc.push(Node::Literal(p[i])) + literal_nodes(p.subrange(i + 1, hi)) =~= acc + literal_nodes(
            p.subrange(i, hi),
        ));
    } else {
        assert(p.subrange(i, hi).len() == 0);
        assert(acc + literal_nodes(p.subrange(i, hi)) =~= acc);
    }
}

proof fn lemma_match_literals(
    s: Seq<char>,
    k: nat,
    t: Seq<char>,
    lim: int,
    pos: int,
    caps: Seq<Capture>,
)
    requires
        k <= s.len(),
        0 <= pos <= lim <= t.len(),
    ensures
        match_seq(literal_nodes(s), k, t, lim, pos, caps, false) == (if pos + (s.len() - k) <= lim
            && t.subrange(pos, pos + (s.len() - k)) == s.subrange(k as int, s.len() as int) {
            Some((pos + (s.len() - k), caps))
        } else {
            None
        }),
    decreases s.len() - k,
{
    let ns = literal_nodes(s);
    let n = s.len() as int;
    lemma_literals_index(s);
    if k < s.len() {
        assert(ns[k as int] == Node::Literal(s[k as int]));
        assert(accepts(Node::Literal(s[k as int]), s[k as int]));
        if pos < lim {
            lemma_match_literals(s, k + 1, t, lim, pos + 1, caps);
            if pos + (n - k) <= lim && t.subrange(pos, pos + (n - k)) == s.subrange(k as int, n) {
                assert(t[pos] == t.subrange(pos, pos + (n - k))[0]);
                assert(t.subrange(pos + 1, pos + (n - k)) =~= t.subrange(pos, pos + (n - k)).drop_first());
                assert(s.subrange((k + 1) as int, n) =~= s.subrange(k as int, n).drop_first());
            } else if t[pos] == s[k as int] && pos + 1 + (n - k - 1) <= lim
                && t.subrange(pos + 1, pos + (n - k)) == s.subrange((k + 1) as int, n) {
                assert(t.subrange(pos, pos + (n - k)) =~= s.subrange(k as int, n)) by {
                    assert forall|m: int| 0 <= m < n - k implies t.subrange(pos, pos + (n - k))[m]
                        == s.subrange(k as int, n)[m] by {
                        if m > 0 {
                            assert(t.subrange(pos + 1, pos + (n - k))[m - 1] == s.subrange((k + 1) as int, n)[m - 1]);
                        }
                    }
                }
            }
        } else {
            assert(match_node(ns[k as int], ns, k + 1, t, lim, pos, caps, false) is None);
        }
    } else {
        assert(t.subrange(pos, pos) =~= s.subrange(k as int, n));
    }
}

/// A pattern without operators matches exactly the texts that start with
/// it, and its match is the pattern itself; so it matches itself whole, and
/// no other text of its length.
pub proof fn law_plain_pattern(p: Seq<char>, t: Seq<char>)
    requires
        is_plain(p),
    ensures
        match_len(parse_nodes(p), t) == (if p.len() <= t.len() && t.subrange(0, p.len() as int) == p {
            Some(p.len() as int)
        } else {
            None
        }),
        match_len(parse_nodes(p), p) == Some(p.len() as int),
        t.len() == p.len() && t != p ==> match_len(parse_nodes(p), t) is None,
{
    lemma_parse_plain(p, 0, p.len() as int, Seq::empty(), 0);
    assert(p.subrange(0, p.len() as int) =~= p);
    assert(Seq::<Node>::empty() + literal_nodes(p.subrange(0, p.len() as int)) =~= literal_nodes(p));
    lemma_match_literals(p, 0, t, t.len() as int, 0, Seq::empty());
    lemma_match_literals(p, 0, p, p.len() as int, 0, Seq::empty());
    if t.len() == p.len() && t != p {
        assert(t.subrange(0, p.len() as int) =~= t);
    }
}

/// The pattern `.` matches every one-character text, consuming it.
pub proof fn law_wildcard_matches_any_char(c: char)
    ensures
        match_len(parse_nodes(seq!['.']), seq![c]) == Some(1int),
{
    let p = seq!['.'];
    assert(next_pos(p, 0, 1) == 1);
    assert(step_nodes(p, 0, 1, Seq::empty(), 0) == (seq![Node::Wildcard], 0int));
    assert(parse_from(p, 1, 1, seq![Node::Wildcard], 0) == (seq![Node::Wildcard], 0int));
    assert(parse_nodes(p) == seq![Node::Wildcard]);
    let ns = seq![Node::Wildcard];
    assert(match_seq(ns, 1, seq![c], 1, 1, Seq::empty(), false) == Some((1int, Seq::<Capture>::empty())));
    assert(match_node(Node::Wildcard, ns, 1, seq![c], 1, 0, Seq::empty(), false) == Some((1int, Seq::<Capture>::empty())));
}

/// The pattern `$` matches a text exactly when the text is empty.
pub proof fn law_end_anchor_matches_only_empty(t: Seq<char>)
    ensures
        match_len(parse_nodes(seq!['$']), t) is Some <==> t.len() == 0,
{
    let p = seq!['$'];
    assert(next_pos(p, 0, 1) == 1);
    assert(step_nodes(p, 0, 1, Seq::empty(), 0) == (seq![Node::EndAnchor], 0int));
    assert(parse_from(p, 1, 1, seq![Node::EndAnchor], 0) == (seq![Node::EndAnchor], 0int));
    assert(parse_nodes(p) == seq![Node::EndAnchor]);
    let ns = seq![Node::EndAnchor];
    assert(match_seq(ns, 0, t, t.len() as int, 0, Seq::empty(), false) == match_node(Node::EndAnchor, ns, 1, t, t.len() as int, 0, Seq::empty(), false));
}

/// The ids of the groups in `n`, each before those nested in it, in the
/// order in which the groups appear.
pub open spec fn node_group_ids(n: Node) -> Seq<usize>
    decreases n, 0nat,
{
    match n {
        Node::Quantifier(inner, _, _) => node_group_ids(*inner),
        Node::Alternation(l, r) => group_ids(l) + group_ids(r),
        Node::Group(b, id) => seq![id] + group_ids(b),
        _ => Seq::empty(),
    }
}

/// The ids of the groups in `s`, in order.
pub open spec fn group_ids(s: Seq<Node>) -> Seq<usize>
    decreases s, s.len(),
{
    if s.len() == 0 {
        Seq::empty()
    } else {
        group_ids(s.drop_last()) + node_group_ids(s.last())
    }
}

/// The numbers `a + 1` up to `b`, in order.
pub open spec fn numbered(a: int, b: int) -> Seq<usize>
    decreases b - a,
{
    if b <= a {
        Seq::empty()
    } else {
        numbered(a, b - 1).push(b as usize)
    }
}

proof fn lemma_numbered_concat(a: int, b: int, c: int)
    requires
        a <= b <= c,
    ensures
        numbered(a, b) + numbered(b, c) == numbered(a, c),
    decreases c - b,
{
    if b < c {
        lemma_numbered_concat(a, b, c - 1);
        assert(numbered(a, b) + numbered(b, c) =~= (numbered(a, b) + numbered(b, c - 1)).push(c as usize));
    } else {
        assert(numbered(a, b) + numbered(b, c) =~= numbered(a, b));
    }
}

proof fn lemma_numbered_first(a: int, b: int)
    requires
        a < b,
    ensures
        seq![(a + 1) as usize] + numbered(a + 1, b) == numbered(a, b),
{
    lemma_numbered_concat(a, a + 1, b);
    assert(numbered(a, a) =~= Seq::<usize>::empty());
    assert(numbered(a, a + 1) =~= seq![(a + 1) as usize]);
}

proof fn lemma_group_ids_push(s: Seq<Node>, n: Node)
    ensures
        group_ids(s.push(n)) == group_ids(s) + node_group_ids(n),
{
    assert(s.push(n).drop_last() =~= s);
}

proof fn lemma_group_ids_single(n: Node)
    ensures
        group_ids(seq![n]) == node_group_ids(n),
{
    lemma_group_ids_push(Seq::empty(), n);
    assert(Seq::<Node>::empty().push(n) =~= seq![n]);
    assert(group_ids(Seq::<Node>::empty()) + node_group_ids(n) =~= node_group_ids(n));
}

proof fn lemma_quantify_last_ids(acc: Seq<Node>, lo: usize, hi: Option<usize>)
    ensures
        group_ids(quantify_last(acc, lo, hi)) == group_ids(acc),
{
    if acc.len() > 0 {
        lemma_group_ids_push(acc.drop_last(), Node::Quantifier(Box::new(acc.last()), lo, hi));
    }
}

proof fn lemma_literal_has_no_groups(c: char)
    ensures
        node_group_ids(Node::Literal(c)) == Seq::<usize>::empty(),
{
}

proof fn lemma_step_ids(p: Seq<char>, i: int, hi: int, acc: Seq<Node>, count: int)
    requires
        0 <= i < hi <= p.len(),
    ensures
        count <= step_nodes(p, i, hi, acc, count).1,
        group_ids(step_nodes(p, i, hi, acc, count).0) == group_ids(acc) + numbered(
            count,
            step_nodes(p, i, hi, acc, count).1,
        ),
    decreases hi - i, 0int,
{
    let (acc2, c2) = step_nodes(p, i, hi, acc, count);
    let c = p[i];
    assert(numbered(count, count) =~= Seq::<usize>::empty());
    assert(group_ids(acc) + Seq::<usize>::empty() =~= group_ids(acc));
    if c == '(' {
        let id = count + 1;
        let close = group_close(p, i + 1, hi, 1);
        lemma_group_close_bounds(p, i + 1, hi, 1);
        lemma_group_body_ids(p, i + 1, close, id);
        let (body, cb) = group_body(p, i + 1, close, id);
        lemma_group_ids_push(acc, Node::Group(body, id as usize));
        lemma_numbered_concat(count, id, cb);
        assert(numbered(count, id) =~= seq![id as usize]) by {
            assert(numbered(count, count) =~= Seq::<usize>::empty());
        }
        assert(group_ids(acc2) =~= group_ids(acc) + numbered(count, c2));
    } else if c == '{' && acc.len() > 0 {
        let close = find_char(p, i + 1, hi, '}');
        lemma_group_ids_push(acc.drop_last(), braced(acc.last(), p, i + 1, close));
        lemma_group_ids_push(acc.drop_last(), acc.last());
        assert(acc.drop_last().push(acc.last()) =~= acc);
    } else if c == '+' {
        lemma_quantify_last_ids(acc, 1, None);
    } else if c == '?' {
        lemma_quantify_last_ids(acc, 0, Some(1));
    } else if c == '*' {
        lemma_quantify_last_ids(acc, 0, None);
    } else if c == '\\' {
        if i + 1 < hi {
            let d = p[i + 1];
            lemma_group_ids_push(acc, escaped(d));
            assert(node_group_ids(escaped(d)) =~= Seq::<usize>::empty());
        }
        assert(group_ids(acc2) =~= group_ids(acc) + numbered(count, c2));
    } else if c == '$' {
        lemma_group_ids_push(acc, Node::EndAnchor);
        assert(group_ids(acc2) =~= group_ids(acc) + numbered(count, c2));
    } else if c == '[' {
        let negated = i + 1 < hi && p[i + 1] == '^';
        let start = if negated { i + 2 } else { i + 1 };
        let close = find_char(p, start, hi, ']');
        lemma_group_ids_push(acc, Node::Class(p.subrange(start, close), negated));
        assert(group_ids(acc2) =~= group_ids(acc) + numbered(count, c2));
    } else if c == '.' {
        lemma_group_ids_push(acc, Node::Wildcard);
        assert(group_ids(acc2) =~= group_ids(acc) + numbered(count, c2));
    } else if c != '{' {
        lemma_group_ids_push(acc, Node::Literal(c));
        assert(acc2 == acc.push(Node::Literal(c)));
        lemma_literal_has_no_groups(c);
        assert(group_ids(acc2) =~= group_ids(acc) + numbered(count, c2));
    }
}

proof fn lemma_parse_from_ids(p: Seq<char>, i: int, hi: int, acc: Seq<Node>, count: int)
    requires
        0 <= i <= hi <= p.len(),
    ensures
        count <= parse_from(p, i, hi, acc, count).1,
        group_ids(parse_from(p, i, hi, acc, count).0) == group_ids(acc) + numbered(
            count,
            parse_from(p, i, hi, acc, count).1,
        ),
    decreases hi - i, 1int,
{
    if i < hi {
        let (acc2, c2) = step_nodes(p, i, hi, acc, count);
        lemma_step_ids(p, i, hi, acc, count);
        lemma_next_pos(p, i, hi);
        lemma_parse_from_ids(p, next_pos(p, i, hi), hi, acc2, c2);
        let c3 = parse_from(p, i, hi, acc, count).1;
        lemma_numbered_concat(count, c2, c3);
        assert(group_ids(acc) + numbered(count, c2) + numbered(c2, c3) =~= group_ids(acc) + numbered(count, c3));
    } else {
        assert(numbered(count, count) =~= Seq::<usize>::empty());
        assert(group_ids(acc) + Seq::<usize>::empty() =~= group_ids(acc));
    }
}

proof fn lemma_group_body_ids(p: Seq<char>, lo: int, hi: int, count: int)
    requires
        0 <= lo <= hi <= p.len(),
    ensures
        count <= group_body(p, lo, hi, count).1,
        group_ids(group_body(p, lo, hi, count).0) == numbered(count, group_body(p, lo, hi, count).1),
    decreases hi - lo, 2int,
{
    let j = bar_at(p, lo, hi, 0);
    lemma_bar_at_bounds(p, lo, hi, 0);
    assert(group_ids(Seq::<Node>::empty()) =~= Seq::<usize>::empty());
    if j >= hi {
        lemma_parse_from_ids(p, lo, hi, Seq::empty(), count);
        assert(Seq::<usize>::empty() + numbered(count, group_body(p, lo, hi, count).1) =~= numbered(count, group_body(p, lo, hi, count).1));
    } else {
        let (left, c1) = parse_from(p, lo, j, Seq::empty(), count);
        lemma_parse_from_ids(p, lo, j, Seq::empty(), count);
        let j2 = bar_at(p, j + 1, hi, 0);
        lemma_bar_at_bounds(p, j + 1, hi, 0);
        let (right, c2) = parse_from(p, j + 1, j2, Seq::empty(), c1);
        lemma_parse_from_ids(p, j + 1, j2, Seq::empty(), c1);
        let alt = Node::Alternation(left, right);
        lemma_alternatives_ids(p, j2, hi, alt, c2);
        let c3 = group_body(p, lo, hi, count).1;
        lemma_numbered_concat(count, c1, c2);
        lemma_numbered_concat(count, c2, c3);
        assert(Seq::<usize>::empty() + numbered(count, c1) =~= numbered(count, c1));
        assert(Seq::<usize>::empty() + numbered(c1, c2) =~= numbered(c1, c2));
    }
}

proof fn lemma_alternatives_ids(p: Seq<char>, j: int, hi: int, alt: Node, count: int)
    requires
        0 <= j <= hi <= p.len(),
    ensures
        count <= alternatives(p, j, hi, alt, count).1,
        group_ids(alternatives(p, j, hi, alt, count).0) == node_group_ids(alt) + numbered(
            count,
            alternatives(p, j, hi, alt, count).1,
        ),
    decreases hi - j, 3int,
{
    lemma_group_ids_single(alt);
    assert(group_ids(Seq::<Node>::empty()) =~= Seq::<usize>::empty());
    if j >= hi {
        assert(numbered(count, count) =~= Seq::<usize>::empty());
        assert(node_group_ids(alt) + Seq::<usize>::empty() =~= node_group_ids(alt));
    } else {
        let j2 = bar_at(p, j + 1, hi, 0);
        lemma_bar_at_bounds(p, j + 1, hi, 0);
        let (right, c2) = parse_from(p, j + 1, j2, Seq::empty(), count);
        lemma_parse_from_ids(p, j + 1, j2, Seq::empty(), count);
        let alt2 = Node::Alternation(seq![alt], right);
        lemma_alternatives_ids(p, j2, hi, alt2, c2);
        let c3 = alternatives(p, j, hi, alt, count).1;
        lemma_numbered_concat(count, c2, c3);
        assert(Seq::<usize>::empty() + numbered(count, c2) =~= numbered(count, c2));
        assert(node_group_ids(alt2) == node_group_ids(alt) + numbered(count, c2));
        assert(node_group_ids(alt) + numbered(count, c2) + numbered(c2, c3) =~= node_group_ids(alt) + numbered(count, c3));
    }
}

/// Groups are numbered by the order of their opening parentheses: listed
/// each before the groups nested in it, the ids of the groups of a parsed
/// pattern are 1, 2, 3, ... with none left out or repeated.
pub proof fn law_group_ids_in_order(p: Seq<char>)
    ensures
        group_ids(parse_nodes(p)) == numbered(0, parse_from(p, 0, p.len() as int, Seq::empty(), 0).1),
{
    lemma_parse_from_ids(p, 0, p.len() as int, Seq::empty(), 0);
    assert(group_ids(Seq::<Node>::empty()) =~= Seq::<usize>::empty());
    assert(Seq::<usize>::empty() + numbered(0, parse_from(p, 0, p.len() as int, Seq::empty(), 0).1) =~= numbered(0, parse_from(p, 0, p.len() as int, Seq::empty(), 0).1));
}

/// Parsing depends on the pattern alone: two token trees parsed from the
/// same pattern are the same tree, group numbers included.
pub proof fn law_parse_deterministic(p: Seq<char>, a: Seq<Node>, b: Seq<Node>)
    requires
        a == parse_nodes(p),
        b == parse_nodes(p),
    ensures
        a == b,
{
}

} // verus!
