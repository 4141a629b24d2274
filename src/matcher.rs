//! The backtracking matcher: runs a token tree against text, anchored at
//! its start, with captures for backreferences.

use vstd::prelude::*;
use vstd::std_specs::iter::IteratorSpec;

use crate::ast::{node_of, nodes_of, node_size, rest_size, Node, Token, GroupType};

verus! {

/// A recorded capture: group id, then the start and end positions (in
/// characters) of the captured text. Later entries shadow earlier ones.
pub type Capture = (usize, usize, usize);

/// The text captured most recently for group `id`, as a range of positions.
pub open spec fn capture_of(caps: Seq<Capture>, id: usize) -> Option<(usize, usize)>
    decreases caps.len(),
{
    if caps.len() == 0 {
        None
    } else if caps.last().0 == id {
        Some((caps.last().1, caps.last().2))
    } else {
        capture_of(caps.drop_last(), id)
    }
}

/// Every capture names a range of a text of length `n`.
pub open spec fn captures_wf(caps: Seq<Capture>, n: nat) -> bool {
    forall|j: int| 0 <= j < caps.len() ==> #[trigger] caps[j].1 <= caps[j].2 <= n
}

/// An ASCII letter or digit, or `_`.
pub open spec fn is_word_char(c: char) -> bool {
    ('0' <= c <= '9') || ('a' <= c <= 'z') || ('A' <= c <= 'Z') || c == '_'
}

/// Whether a single-character node accepts `c`; positional and compound
/// nodes accept no character this way.
pub open spec fn accepts(n: Node, c: char) -> bool {
    match n {
        Node::Wildcard => true,
        Node::Literal(l) => c == l,
        Node::Digit => '0' <= c <= '9',
        Node::Alphanumeric => is_word_char(c),
        Node::Class(members, negated) => members.contains(c) != negated,
        _ => false,
    }
}

/// Matches the nodes `ns[i..]` against `t[pos..lim]`, anchored at `pos`;
/// with `to_end`, only a match that ends exactly at `lim` counts. On success
/// gives the end position and the captures then in force.
pub open spec fn match_seq(
    ns: Seq<Node>,
    i: nat,
    t: Seq<char>,
    lim: int,
    pos: int,
    caps: Seq<Capture>,
    to_end: bool,
) -> Option<(int, Seq<Capture>)>
    decreases lim - pos, rest_size(ns, i), lim - pos + 3,
    when 0 <= pos <= lim
{
    if i < ns.len() {
        match_node(ns[i as int], ns, i + 1, t, lim, pos, caps, to_end)
    } else if to_end && pos != lim {
        None
    } else {
        Some((pos, caps))
    }
}

/// Matches node `n` followed by `rest[ri..]` against `t[pos..lim]`; with
/// `to_end`, the match must end at `lim`.
pub open spec fn match_node(
    n: Node,
    rest: Seq<Node>,
    ri: nat,
    t: Seq<char>,
    lim: int,
    pos: int,
    caps: Seq<Capture>,
    to_end: bool,
) -> Option<(int, Seq<Capture>)>
    decreases lim - pos, node_size(n) + rest_size(rest, ri), lim - pos + 2,
    when 0 <= pos <= lim
{
    match n {
        Node::EndAnchor => if pos == lim {
            Some((pos, caps))
        } else {
            None
        },
        Node::Alternation(l, r) => {
            let left = match match_seq(l, 0, t, lim, pos, caps, false) {
                Some((e, c)) => if pos <= e <= lim {
                    match_seq(rest, ri, t, lim, e, c, to_end)
                } else {
                    None
                },
                None => None,
            };
            if left is Some {
                left
            } else {
                match match_seq(r, 0, t, lim, pos, caps, false) {
                    Some((e, c)) => if pos <= e <= lim {
                        match_seq(rest, ri, t, lim, e, c, to_end)
                    } else {
                        None
                    },
                    None => None,
                }
            }
        },
        Node::Group(body, id) => match_group_spec(body, id, rest, ri, t, lim, pos, caps, to_end, lim - pos),
        Node::Backreference(id) => match capture_of(caps, id) {
            Some((a, b)) => {
                let len = b - a;
                if 0 <= len && pos + len <= lim && t.subrange(pos, pos + len) == t.subrange(
                    a as int,
                    b as int,
                ) {
                    match_seq(rest, ri, t, lim, pos + len, caps, to_end)
                } else {
                    None
                }
            },
            None => None,
        },
        Node::Quantifier(inner, lo, hi) => match_repeat_spec(*inner, lo, hi, rest, ri, t, lim, pos, caps, to_end),
        _ => if pos < lim && accepts(n, t[pos]) {
            match_seq(rest, ri, t, lim, pos + 1, caps, to_end)
        } else {
            None
        },
    }
}

/// A group: for `k` from the given value down to zero, tries the body on
/// exactly the next `k` characters (a match of the body that ends there),
/// and takes the first length for which the rest of the pattern matches too.
pub open spec fn match_group_spec(
    body: Seq<Node>,
    id: usize,
    rest: Seq<Node>,
    ri: nat,
    t: Seq<char>,
    lim: int,
    pos: int,
    caps: Seq<Capture>,
    to_end: bool,
    k: int,
) -> Option<(int, Seq<Capture>)>
    decreases lim - pos, 1 + rest_size(body, 0) + rest_size(rest, ri), k + 1,
    when 0 <= pos <= lim && -1 <= k <= lim - pos
{
    if k < 0 {
        None
    } else {
        let attempt = match match_seq(body, 0, t, pos + k, pos, caps, true) {
            Some((_, c)) => match_seq(
                rest,
                ri,
                t,
                lim,
                pos + k,
                c.push((id, pos as usize, (pos + k) as usize)),
                to_end,
            ),
            None => None,
        };
        if attempt is Some {
            attempt
        } else {
            match_group_spec(body, id, rest, ri, t, lim, pos, caps, to_end, k - 1)
        }
    }
}

/// A quantifier with `lo` repetitions still owed and at most `hi` allowed:
/// one more repetition first, then the rest of the pattern.
pub open spec fn match_repeat_spec(
    inner: Node,
    lo: usize,
    hi: Option<usize>,
    rest: Seq<Node>,
    ri: nat,
    t: Seq<char>,
    lim: int,
    pos: int,
    caps: Seq<Capture>,
    to_end: bool,
) -> Option<(int, Seq<Capture>)>
    decreases lim - pos, 1 + node_size(inner) + lo + rest_size(rest, ri), 0int,
    when 0 <= pos <= lim
{
    if hi == Some(0usize) {
        match_seq(rest, ri, t, lim, pos, caps, to_end)
    } else {
        let more = match match_node(inner, Seq::empty(), 0, t, lim, pos, caps, false) {
            Some((e, c)) => if pos <= e <= lim && (e > pos || lo > 0) {
                let lo2: usize = if lo > 0 { (lo - 1) as usize } else { 0 };
                let hi2: Option<usize> = match hi {
                    Some(m) => Some((m - 1) as usize),
                    None => None,
                };
                match_repeat_spec(inner, lo2, hi2, rest, ri, t, lim, e, c, to_end)
            } else {
                None
            },
            None => None,
        };
        if more is Some {
            more
        } else if lo == 0 {
            match_seq(rest, ri, t, lim, pos, caps, to_end)
        } else {
            None
        }
    }
}

/// An executable result `r`, with captures `caps` after the call, agrees
/// with the outcome `o` of a spec matcher.
pub open spec fn outcome(r: Option<usize>, caps: Seq<Capture>, o: Option<(int, Seq<Capture>)>) -> bool {
    match r {
        Some(e) => o == Some((e as int, caps)),
        None => o is None,
    }
}

/// The length of the match of the pattern `ns` at the start of `t`.
pub open spec fn match_len(ns: Seq<Node>, t: Seq<char>) -> Option<int> {
    match match_seq(ns, 0, t, t.len() as int, 0, Seq::empty(), false) {
        Some((e, _)) => Some(e),
        None => None,
    }
}

pub proof fn lemma_capture_of_wf(caps: Seq<Capture>, id: usize, n: nat)
    requires
        captures_wf(caps, n),
    ensures
        capture_of(caps, id) matches Some((a, b)) ==> a <= b <= n,
    decreases caps.len(),
{
    if caps.len() > 0 && caps.last().0 != id {
        lemma_capture_of_wf(caps.drop_last(), id, n);
    }
}

/// The characters of `s`, in order.
pub fn chars_of(s: &str) -> (r: Vec<char>)
    ensures
        r@ == s@,
{
    broadcast use vstd::string::axiom_spec_iter, vstd::string::next_postcondition;

    let mut it = s.chars();
    let mut r: Vec<char> = Vec::new();
    loop
        invariant
            r@ + it.remaining() == s@,
            it.obeys_prophetic_iter_laws(),
            it.decrease() is Some,
        ensures
            r@ == s@,
        decreases it.decrease()->0,
    {
        match it.next() {
            Some(c) => {
                r.push(c);
            },
            None => {
                assert(r@ =~= s@);
                break ;
            },
        }
    }
    r
}

fn copy_captures(caps: &Vec<Capture>) -> (r: Vec<Capture>)
    ensures
        r@ == caps@,
{
    let mut r: Vec<Capture> = Vec::new();
    let mut j: usize = 0;
    while j < caps.len()
        invariant
            j <= caps.len(),
            r@ == caps@.subrange(0, j as int),
        decreases caps.len() - j,
    {
        r.push(caps[j]);
        j += 1;
    }
    assert(r@ =~= caps@);
    r
}

fn find_capture(caps: &Vec<Capture>, id: usize) -> (r: Option<(usize, usize)>)
    ensures
        r == capture_of(caps@, id),
{
    let mut j = caps.len();
    assert(caps@.subrange(0, j as int) =~= caps@);
    while j > 0
        invariant
            j <= caps.len(),
            capture_of(caps@, id) == capture_of(caps@.subrange(0, j as int), id),
        decreases j,
    {
        let (cid, a, b) = caps[j - 1];
        assert(caps@.subrange(0, j as int).drop_last() =~= caps@.subrange(0, j - 1));
        if cid == id {
            return Some((a, b));
        }
        j -= 1;
    }
    None
}

/// Whether `t[x..x + len]` and `t[y..y + len]` hold the same characters.
fn same_text(t: &Vec<char>, x: usize, y: usize, len: usize) -> (r: bool)
    requires
        x + len <= t@.len(),
        y + len <= t@.len(),
    ensures
        r == (t@.subrange(x as int, x + len) == t@.subrange(y as int, y + len)),
{
    let n = t.len();
    let mut j: usize = 0;
    while j < len
        invariant
            n == t@.len(),
            j <= len,
            x + len <= t@.len(),
            y + len <= t@.len(),
            t@.subrange(x as int, x + j) == t@.subrange(y as int, y + j),
        decreases len - j,
    {
        if t[x + j] != t[y + j] {
            assert(t@.subrange(x as int, x + len)[j as int] != t@.subrange(y as int, y + len)[j as int]);
            return false;
        }
        assert(t@.subrange(x as int, x + j + 1) =~= t@.subrange(y as int, y + j + 1));
        j += 1;
    }
    true
}

fn contains_char(members: &Vec<char>, c: char) -> (r: bool)
    ensures
        r == members@.contains(c),
{
    let mut j: usize = 0;
    while j < members.len()
        invariant
            j <= members.len(),
            forall|k: int| 0 <= k < j ==> members@[k] != c,
        decreases members.len() - j,
    {
        if members[j] == c {
            return true;
        }
        j += 1;
    }
    false
}

/// Whether a single-character token accepts `c`.
fn matches_token(token: &Token, c: char) -> (r: bool)
    ensures
        r == accepts(node_of(*token), c),
{
    match token {
        Token::Wildcard => true,
        Token::Literal(l) => c == *l,
        Token::Digit => '0' <= c && c <= '9',
        Token::Alphanumeric => ('0' <= c && c <= '9') || ('a' <= c && c <= 'z') || ('A' <= c
            && c <= 'Z') || c == '_',
        Token::BracketGroup(members, group_type) => {
            let found = contains_char(members, c);
            match group_type {
                GroupType::Positive => found,
                GroupType::Negative => !found,
            }
        },
        _ => false,
    }
}

/// Matches `tokens[i..]` against `t[pos..lim]`, anchored at `pos`; with
/// `to_end`, only a match that ends at `lim` counts.
fn match_here(
    tokens: &[Token],
    i: usize,
    t: &Vec<char>,
    lim: usize,
    pos: usize,
    caps: &mut Vec<Capture>,
    to_end: bool,
) -> (r: Option<usize>)
    requires
        i <= tokens@.len(),
        pos <= lim <= t@.len(),
        captures_wf(old(caps)@, t@.len()),
    ensures
        captures_wf(final(caps)@, t@.len()),
        r matches Some(e) ==> pos <= e <= lim,
        to_end && r is Some ==> r == Some(lim),
        r is None ==> final(caps)@ == old(caps)@,
        outcome(r, final(caps)@, match_seq(nodes_of(tokens@), i as nat, t@, lim as int, pos as int, old(caps)@, to_end)),
    decreases lim - pos, rest_size(nodes_of(tokens@), i as nat), lim - pos + 3,
{
    proof {
        crate::ast::lemma_nodes_of_len(tokens@);
    }
    if i >= tokens.len() {
        if to_end && pos != lim {
            return None;
        }
        return Some(pos);
    }
    proof {
        crate::ast::lemma_nodes_of_index(tokens@, i as int);
    }
    match_token(&tokens[i], tokens, i + 1, t, lim, pos, caps, to_end)
}

/// Matches `token` followed by `rest[ri..]` against `t[pos..lim]`; with
/// `to_end`, the match must end at `lim`.
fn match_token(
    token: &Token,
    rest: &[Token],
    ri: usize,
    t: &Vec<char>,
    lim: usize,
    pos: usize,
    caps: &mut Vec<Capture>,
    to_end: bool,
) -> (r: Option<usize>)
    requires
        ri <= rest@.len(),
        pos <= lim <= t@.len(),
        captures_wf(old(caps)@, t@.len()),
    ensures
        captures_wf(final(caps)@, t@.len()),
        r matches Some(e) ==> pos <= e <= lim,
        to_end && r is Some ==> r == Some(lim),
        r is None ==> final(caps)@ == old(caps)@,
        outcome(r, final(caps)@, match_node(node_of(*token), nodes_of(rest@), ri as nat, t@, lim as int, pos as int, old(caps)@, to_end)),
    decreases lim - pos, node_size(node_of(*token)) + rest_size(nodes_of(rest@), ri as nat), lim - pos + 2,
{
    match token {
        Token::EndAnchor => {
            if pos == lim {
                Some(pos)
            } else {
                None
            }
        },
        Token::Alternation(left, right) => {
            let mut left_caps = copy_captures(caps);
            if let Some(e) = match_here(left.as_slice(), 0, t, lim, pos, &mut left_caps, false) {
                if let Some(e2) = match_here(rest, ri, t, lim, e, &mut left_caps, to_end) {
                    *caps = left_caps;
                    return Some(e2);
                }
            }
            let mut right_caps = copy_captures(caps);
            if let Some(e) = match_here(right.as_slice(), 0, t, lim, pos, &mut right_caps, false) {
                if let Some(e2) = match_here(rest, ri, t, lim, e, &mut right_caps, to_end) {
                    *caps = right_caps;
                    return Some(e2);
                }
            }
            None
        },
        Token::Group(body, id) => match_group(body.as_slice(), *id, rest, ri, t, lim, pos, caps, to_end),
        Token::Backreference(id) => {
            proof {
                lemma_capture_of_wf(caps@, *id, t@.len());
            }
            match find_capture(caps, *id) {
                Some((a, b)) => {
                    let len = b - a;
                    if len <= lim - pos && same_text(t, pos, a, len) {
                        match_here(rest, ri, t, lim, pos + len, caps, to_end)
                    } else {
                        None
                    }
                },
                None => None,
            }
        },
        Token::Quantifier(inner, lo, hi) => match_repeat(&**inner, *lo, *hi, rest, ri, t, lim, pos, caps, to_end),
        _ => {
            if pos < lim && matches_token(token, t[pos]) {
                match_here(rest, ri, t, lim, pos + 1, caps, to_end)
            } else {
                None
            }
        },
    }
}

/// A group: the longest span that the body can fill exactly and after
/// which the rest of the pattern matches too.
fn match_group(
    body: &[Token],
    id: usize,
    rest: &[Token],
    ri: usize,
    t: &Vec<char>,
    lim: usize,
    pos: usize,
    caps: &mut Vec<Capture>,
    to_end: bool,
) -> (r: Option<usize>)
    requires
        ri <= rest@.len(),
        pos <= lim <= t@.len(),
        captures_wf(old(caps)@, t@.len()),
    ensures
        captures_wf(final(caps)@, t@.len()),
        r matches Some(e) ==> pos <= e <= lim,
        to_end && r is Some ==> r == Some(lim),
        r is None ==> final(caps)@ == old(caps)@,
        outcome(r, final(caps)@, match_group_spec(nodes_of(body@), id, nodes_of(rest@), ri as nat, t@, lim as int, pos as int, old(caps)@, to_end, lim - pos)),
    decreases lim - pos, 1 + rest_size(nodes_of(body@), 0) + rest_size(nodes_of(rest@), ri as nat), lim - pos + 1,
{
    let ghost caps0 = caps@;
    let ghost nb = nodes_of(body@);
    let ghost nr = nodes_of(rest@);
    let mut k: usize = lim - pos;
    loop
        invariant
            k <= lim - pos,
            pos <= lim <= t@.len(),
            ri <= rest@.len(),
            caps@ == caps0,
            caps0 == old(caps)@,
            nb == nodes_of(body@),
            nr == nodes_of(rest@),
            captures_wf(caps@, t@.len()),
            match_group_spec(nb, id, nr, ri as nat, t@, lim as int, pos as int, caps0, to_end, lim - pos)
                == match_group_spec(nb, id, nr, ri as nat, t@, lim as int, pos as int, caps0, to_end, k as int),
        decreases k,
    {
        let mut inner = copy_captures(caps);
        if let Some(e) = match_here(body, 0, t, pos + k, pos, &mut inner, true) {
            inner.push((id, pos, e));
            if let Some(e2) = match_here(rest, ri, t, lim, e, &mut inner, to_end) {
                *caps = inner;
                return Some(e2);
            }
        }
        if k == 0 {
            assert(match_group_spec(nb, id, nr, ri as nat, t@, lim as int, pos as int, caps0, to_end, -1) is None);
            return None;
        }
        k = k - 1;
    }
}

/// A quantifier with `lo` repetitions still owed and at most `hi` allowed.
fn match_repeat(
    inner: &Token,
    lo: usize,
    hi: Option<usize>,
    rest: &[Token],
    ri: usize,
    t: &Vec<char>,
    lim: usize,
    pos: usize,
    caps: &mut Vec<Capture>,
    to_end: bool,
) -> (r: Option<usize>)
    requires
        ri <= rest@.len(),
        pos <= lim <= t@.len(),
        captures_wf(old(caps)@, t@.len()),
    ensures
        captures_wf(final(caps)@, t@.len()),
        r matches Some(e) ==> pos <= e <= lim,
        to_end && r is Some ==> r == Some(lim),
        r is None ==> final(caps)@ == old(caps)@,
        outcome(r, final(caps)@, match_repeat_spec(node_of(*inner), lo, hi, nodes_of(rest@), ri as nat, t@, lim as int, pos as int, old(caps)@, to_end)),
    decreases lim - pos, 1 + node_size(node_of(*inner)) + lo + rest_size(nodes_of(rest@), ri as nat), 0int,
{
    let exhausted = match hi {
        Some(m) => m == 0,
        None => false,
    };
    if exhausted {
        return match_here(rest, ri, t, lim, pos, caps, to_end);
    }
    let saved = copy_captures(caps);
    let none: Vec<Token> = Vec::new();
    assert(nodes_of(none@) == Seq::<Node>::empty());
    if let Some(e) = match_token(inner, none.as_slice(), 0, t, lim, pos, caps, false) {
        if e > pos || lo > 0 {
            let lo2: usize = if lo > 0 { lo - 1 } else { 0 };
            let hi2: Option<usize> = match hi {
                Some(m) => Some(m - 1),
                None => None,
            };
            if let Some(e2) = match_repeat(inner, lo2, hi2, rest, ri, t, lim, e, caps, to_end) {
                return Some(e2);
            }
        }
    }
    *caps = saved;
    if lo == 0 {
        match_here(rest, ri, t, lim, pos, caps, to_end)
    } else {
        None
    }
}

/// The length of the match of `tokens` at the start of `t`, if any.
pub fn match_chars(t: &Vec<char>, tokens: &[Token]) -> (r: Option<usize>)
    ensures
        match r {
            Some(e) => match_len(nodes_of(tokens@), t@) == Some(e as int) && e <= t@.len(),
            None => match_len(nodes_of(tokens@), t@) is None,
        },
{
    let mut caps: Vec<Capture> = Vec::new();
    match_here(tokens, 0, t, t.len(), 0, &mut caps, false)
}

/// Matches `tokens` at the start of `input_line` and returns the matched
/// prefix.
pub fn match_pattern<'a>(input_line: &'a str, tokens: &[Token]) -> (r: Option<&'a str>)
    ensures
        match match_len(nodes_of(tokens@), input_line@) {
            Some(e) => r is Some && r->0@ == input_line@.subrange(0, e),
            None => r is None,
        },
{
    let t = chars_of(input_line);
    match match_chars(&t, tokens) {
        Some(e) => Some(input_line.substring_char(0, e)),
        None => None,
    }
}

} // verus!
