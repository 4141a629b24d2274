//! The parser from pattern text to a token tree.

use vstd::prelude::*;

use crate::ast::{node_of, nodes_of, GroupType, Node, Token};

verus! {

/// The position of the first `c` in `p[j..hi]`, or `hi` when there is none.
pub open spec fn find_char(p: Seq<char>, j: int, hi: int, c: char) -> int
    decreases hi - j,
{
    if j >= hi {
        hi
    } else if p[j] == c {
        j
    } else {
        find_char(p, j + 1, hi, c)
    }
}

/// The position of the `)` that closes a group when `depth` groups are open
/// at `j`, or `hi` when the group is never closed.
pub open spec fn group_close(p: Seq<char>, j: int, hi: int, depth: int) -> int
    decreases hi - j,
{
    if j >= hi {
        hi
    } else if p[j] == '(' {
        group_close(p, j + 1, hi, depth + 1)
    } else if p[j] == ')' {
        if depth == 1 {
            j
        } else {
            group_close(p, j + 1, hi, depth - 1)
        }
    } else {
        group_close(p, j + 1, hi, depth)
    }
}

/// The position of the first `|` in `p[j..hi]` outside any parentheses
/// opened from `j` on (`depth` counts those open at `j`), or `hi`.
pub open spec fn bar_at(p: Seq<char>, j: int, hi: int, depth: int) -> int
    decreases hi - j,
{
    if j >= hi {
        hi
    } else if p[j] == '(' {
        bar_at(p, j + 1, hi, depth + 1)
    } else if p[j] == ')' {
        bar_at(p, j + 1, hi, depth - 1)
    } else if p[j] == '|' && depth == 0 {
        j
    } else {
        bar_at(p, j + 1, hi, depth)
    }
}

pub proof fn lemma_find_char_bounds(p: Seq<char>, j: int, hi: int, c: char)
    requires
        j <= hi,
    ensures
        j <= find_char(p, j, hi, c) <= hi,
    decreases hi - j,
{
    if j < hi && p[j] != c {
        lemma_find_char_bounds(p, j + 1, hi, c);
    }
}

pub proof fn lemma_group_close_bounds(p: Seq<char>, j: int, hi: int, depth: int)
    requires
        j <= hi,
    ensures
        j <= group_close(p, j, hi, depth) <= hi,
    decreases hi - j,
{
    if j < hi {
        lemma_group_close_bounds(p, j + 1, hi, if p[j] == '(' { depth + 1 } else if p[j] == ')' { depth - 1 } else { depth });
    }
}

pub proof fn lemma_bar_at_bounds(p: Seq<char>, j: int, hi: int, depth: int)
    requires
        j <= hi,
    ensures
        j <= bar_at(p, j, hi, depth) <= hi,
    decreases hi - j,
{
    if j < hi {
        lemma_bar_at_bounds(p, j + 1, hi, if p[j] == '(' { depth + 1 } else if p[j] == ')' { depth - 1 } else { depth });
    }
}

/// An ASCII decimal digit.
pub open spec fn is_digit(c: char) -> bool {
    '0' <= c <= '9'
}

/// The characters that have the Unicode `White_Space` property.
pub open spec fn is_white_space(c: char) -> bool {
    let u = c as u32;
    (0x9 <= u <= 0xd) || u == 0x20 || u == 0x85 || u == 0xa0 || u == 0x1680 || (0x2000 <= u
        <= 0x200a) || u == 0x2028 || u == 0x2029 || u == 0x202f || u == 0x205f || u == 0x3000
}

/// `s` without leading white space.
pub open spec fn trim_start(s: Seq<char>) -> Seq<char>
    decreases s.len(),
{
    if s.len() > 0 && is_white_space(s[0]) {
        trim_start(s.drop_first())
    } else {
        s
    }
}

/// `s` without trailing white space.
pub open spec fn trim_end(s: Seq<char>) -> Seq<char>
    decreases s.len(),
{
    if s.len() > 0 && is_white_space(s.last()) {
        trim_end(s.drop_last())
    } else {
        s
    }
}

/// `s` without leading and trailing white space.
pub open spec fn trim(s: Seq<char>) -> Seq<char> {
    trim_end(trim_start(s))
}

/// The number written in decimal by the digits `s`.
pub open spec fn digits_value(s: Seq<char>) -> nat
    decreases s.len(),
{
    if s.len() == 0 {
        0
    } else {
        digits_value(s.drop_last()) * 10 + (s.last() as nat - '0' as nat) as nat
    }
}

/// Every character of `d` is a decimal digit.
pub open spec fn all_digits(d: Seq<char>) -> bool {
    forall|k: int| 0 <= k < d.len() ==> is_digit(#[trigger] d[k])
}

/// The digits of `s` after an optional leading `+` (a lone `+` stays).
pub open spec fn unsigned_part(s: Seq<char>) -> Seq<char> {
    if s.len() > 1 && s[0] == '+' {
        s.drop_first()
    } else {
        s
    }
}

/// A `usize` written in decimal, with an optional leading `+`; `None` for
/// an empty text, a character that is no digit, or a value too large.
pub open spec fn parse_usize(s: Seq<char>) -> Option<usize> {
    let d = unsigned_part(s);
    if d.len() > 0 && all_digits(d) && digits_value(d) <= usize::MAX {
        Some(digits_value(d) as usize)
    } else {
        None
    }
}

/// The quantifier that a brace body `p[lo..hi]` makes of `prev`: `{n}`,
/// `{n,}` or `{n,m}`, where a number that does not parse counts as zero
/// for the minimum and as no bound for the maximum.
pub open spec fn braced(prev: Node, p: Seq<char>, lo: int, hi: int) -> Node {
    let comma = find_char(p, lo, hi, ',');
    let min: usize = match parse_usize(trim(p.subrange(lo, comma))) {
        Some(v) => v,
        None => 0,
    };
    if comma < hi {
        let comma2 = find_char(p, comma + 1, hi, ',');
        Node::Quantifier(Box::new(prev), min, parse_usize(trim(p.subrange(comma + 1, comma2))))
    } else {
        Node::Quantifier(Box::new(prev), min, Some(min))
    }
}

/// The node that `\` followed by `d` stands for.
pub open spec fn escaped(d: char) -> Node {
    if d == 'd' {
        Node::Digit
    } else if d == 'w' {
        Node::Alphanumeric
    } else if is_digit(d) {
        Node::Backreference((d as u32 - '0' as u32) as usize)
    } else {
        Node::Literal(d)
    }
}

/// `acc` with its last node wrapped in a quantifier; unchanged when empty.
pub open spec fn quantify_last(acc: Seq<Node>, lo: usize, hi: Option<usize>) -> Seq<Node> {
    if acc.len() == 0 {
        acc
    } else {
        acc.drop_last().push(Node::Quantifier(Box::new(acc.last()), lo, hi))
    }
}

/// Where parsing goes on after the item that starts at `p[i]`.
pub open spec fn next_pos(p: Seq<char>, i: int, hi: int) -> int {
    let c = p[i];
    if c == '\\' {
        if i + 1 >= hi {
            hi
        } else {
            i + 2
        }
    } else if c == '[' {
        let start = if i + 1 < hi && p[i + 1] == '^' { i + 2 } else { i + 1 };
        let close = find_char(p, start, hi, ']');
        if close < hi { close + 1 } else { hi }
    } else if c == '(' {
        let close = group_close(p, i + 1, hi, 1);
        if close < hi { close + 1 } else { hi }
    } else if c == '{' {
        let close = find_char(p, i + 1, hi, '}');
        if close < hi { close + 1 } else { hi }
    } else {
        i + 1
    }
}

pub proof fn lemma_next_pos(p: Seq<char>, i: int, hi: int)
    requires
        0 <= i < hi,
    ensures
        i < next_pos(p, i, hi) <= hi,
{
    lemma_find_char_bounds(p, i + 1, hi, '}');
    lemma_find_char_bounds(p, i + 1, hi, ']');
    if i + 2 <= hi {
        lemma_find_char_bounds(p, i + 2, hi, ']');
    }
    lemma_group_close_bounds(p, i + 1, hi, 1);
}

/// The nodes `acc` and the group count after the item that starts at `p[i]`.
pub open spec fn step_nodes(p: Seq<char>, i: int, hi: int, acc: Seq<Node>, count: int) -> (Seq<Node>, int)
    decreases hi - i, 0int,
    when 0 <= i < hi <= p.len()
{
    let c = p[i];
    if c == '\\' {
        if i + 1 >= hi {
            (acc, count)
        } else {
            (acc.push(escaped(p[i + 1])), count)
        }
    } else if c == '$' {
        (acc.push(Node::EndAnchor), count)
    } else if c == '[' {
        let negated = i + 1 < hi && p[i + 1] == '^';
        let start = if negated { i + 2 } else { i + 1 };
        let close = find_char(p, start, hi, ']');
        (acc.push(Node::Class(p.subrange(start, close), negated)), count)
    } else if c == '(' {
        let id = count + 1;
        let close = group_close(p, i + 1, hi, 1);
        proof {
            lemma_group_close_bounds(p, i + 1, hi, 1);
        }
        let (body, count2) = group_body(p, i + 1, close, id);
        (acc.push(Node::Group(body, id as usize)), count2)
    } else if c == '{' {
        let close = find_char(p, i + 1, hi, '}');
        if acc.len() == 0 {
            (acc, count)
        } else {
            (acc.drop_last().push(braced(acc.last(), p, i + 1, close)), count)
        }
    } else if c == '+' {
        (quantify_last(acc, 1, None), count)
    } else if c == '?' {
        (quantify_last(acc, 0, Some(1)), count)
    } else if c == '*' {
        (quantify_last(acc, 0, None), count)
    } else if c == '.' {
        (acc.push(Node::Wildcard), count)
    } else {
        (acc.push(Node::Literal(c)), count)
    }
}

/// Parses `p[i..hi]` after the nodes `acc`, with `count` groups numbered so
/// far. Gives the nodes and the new group count.
pub open spec fn parse_from(p: Seq<char>, i: int, hi: int, acc: Seq<Node>, count: int) -> (Seq<Node>, int)
    decreases hi - i, 1int,
    when 0 <= i <= hi <= p.len()
{
    if i >= hi {
        (acc, count)
    } else {
        let (acc2, count2) = step_nodes(p, i, hi, acc, count);
        proof {
            lemma_next_pos(p, i, hi);
        }
        parse_from(p, next_pos(p, i, hi), hi, acc2, count2)
    }
}

/// Parses the inside `p[lo..hi]` of a group: one sequence, or, where it holds
/// top-level bars, a chain of alternations nested to the left.
pub open spec fn group_body(p: Seq<char>, lo: int, hi: int, count: int) -> (Seq<Node>, int)
    decreases hi - lo, 2int,
    when 0 <= lo <= hi <= p.len()
{
    let j = bar_at(p, lo, hi, 0);
    proof {
        lemma_bar_at_bounds(p, lo, hi, 0);
    }
    if j >= hi {
        parse_from(p, lo, hi, Seq::empty(), count)
    } else {
        let (left, c1) = parse_from(p, lo, j, Seq::empty(), count);
        let j2 = bar_at(p, j + 1, hi, 0);
        proof {
            lemma_bar_at_bounds(p, j + 1, hi, 0);
        }
        let (right, c2) = parse_from(p, j + 1, j2, Seq::empty(), c1);
        alternatives(p, j2, hi, Node::Alternation(left, right), c2)
    }
}

/// Adds the alternatives that start after the bar at `j` to `alt`.
pub open spec fn alternatives(p: Seq<char>, j: int, hi: int, alt: Node, count: int) -> (Seq<Node>, int)
    decreases hi - j, 3int,
    when 0 <= j <= hi <= p.len()
{
    if j >= hi {
        (seq![alt], count)
    } else {
        let j2 = bar_at(p, j + 1, hi, 0);
        proof {
            lemma_bar_at_bounds(p, j + 1, hi, 0);
        }
        let (right, c2) = parse_from(p, j + 1, j2, Seq::empty(), count);
        alternatives(p, j2, hi, Node::Alternation(seq![alt], right), c2)
    }
}

/// The nodes that a whole pattern parses to.
pub open spec fn parse_nodes(p: Seq<char>) -> Seq<Node> {
    parse_from(p, 0, p.len() as int, Seq::empty(), 0).0
}

pub proof fn lemma_digits_value_prefix(s: Seq<char>, k: int)
    requires
        0 <= k <= s.len(),
        forall|m: int| 0 <= m < s.len() ==> is_digit(#[trigger] s[m]),
    ensures
        digits_value(s.subrange(0, k)) <= digits_value(s),
    decreases s.len() - k,
{
    if k < s.len() {
        lemma_digits_value_prefix(s, k + 1);
        assert(s.subrange(0, k + 1).drop_last() =~= s.subrange(0, k));
    } else {
        assert(s.subrange(0, k) =~= s);
    }
}

/// Whether `c` has the Unicode `White_Space` property.
pub fn is_white_space_char(c: char) -> (r: bool)
    ensures
        r == is_white_space(c),
{
    let u = c as u32;
    (0x9 <= u && u <= 0xd) || u == 0x20 || u == 0x85 || u == 0xa0 || u == 0x1680 || (0x2000 <= u
        && u <= 0x200a) || u == 0x2028 || u == 0x2029 || u == 0x202f || u == 0x205f || u == 0x3000
}

pub(crate) fn find_char_in(p: &Vec<char>, j: usize, hi: usize, c: char) -> (r: usize)
    requires
        j <= hi <= p@.len(),
    ensures
        r == find_char(p@, j as int, hi as int, c),
{
    let mut k = j;
    while k < hi
        invariant
            j <= k <= hi <= p@.len(),
            find_char(p@, j as int, hi as int, c) == find_char(p@, k as int, hi as int, c),
        decreases hi - k,
    {
        if p[k] == c {
            return k;
        }
        k += 1;
    }
    k
}

fn find_group_close(p: &Vec<char>, j: usize, hi: usize) -> (r: usize)
    requires
        j <= hi <= p@.len(),
    ensures
        r == group_close(p@, j as int, hi as int, 1),
{
    let mut k = j;
    let mut opens: usize = 0;
    let mut closes: usize = 0;
    while k < hi
        invariant
            j <= k <= hi <= p@.len(),
            opens + closes <= k - j,
            closes <= opens,
            group_close(p@, j as int, hi as int, 1) == group_close(p@, k as int, hi as int, 1 + opens - closes),
        decreases hi - k,
    {
        if p[k] == '(' {
            opens += 1;
        } else if p[k] == ')' {
            if opens == closes {
                return k;
            }
            closes += 1;
        }
        k += 1;
    }
    k
}

fn find_bar(p: &Vec<char>, j: usize, hi: usize) -> (r: usize)
    requires
        j <= hi <= p@.len(),
    ensures
        r == bar_at(p@, j as int, hi as int, 0),
{
    let mut k = j;
    let mut opens: usize = 0;
    let mut closes: usize = 0;
    while k < hi
        invariant
            j <= k <= hi <= p@.len(),
            opens + closes <= k - j,
            bar_at(p@, j as int, hi as int, 0) == bar_at(p@, k as int, hi as int, opens - closes),
        decreases hi - k,
    {
        if p[k] == '(' {
            opens += 1;
        } else if p[k] == ')' {
            closes += 1;
        } else if p[k] == '|' && opens == closes {
            return k;
        }
        k += 1;
    }
    k
}

/// The bounds of `p[a..b]` without leading and trailing white space.
fn trim_range(p: &Vec<char>, a: usize, b: usize) -> (r: (usize, usize))
    requires
        a <= b <= p@.len(),
    ensures
        a <= r.0 <= r.1 <= b,
        p@.subrange(r.0 as int, r.1 as int) == trim(p@.subrange(a as int, b as int)),
{
    let mut s = a;
    while s < b && is_white_space_char(p[s])
        invariant
            a <= s <= b <= p@.len(),
            trim_start(p@.subrange(a as int, b as int)) == trim_start(p@.subrange(s as int, b as int)),
        decreases b - s,
    {
        assert(p@.subrange(s as int, b as int).drop_first() =~= p@.subrange(s + 1, b as int));
        s += 1;
    }
    let mut e = b;
    while e > s && is_white_space_char(p[e - 1])
        invariant
            a <= s <= e <= b <= p@.len(),
            trim_end(p@.subrange(s as int, b as int)) == trim_end(p@.subrange(s as int, e as int)),
        decreases e,
    {
        assert(p@.subrange(s as int, e as int).drop_last() =~= p@.subrange(s as int, e - 1));
        e -= 1;
    }
    (s, e)
}

/// The `usize` that `p[a..b]` writes in decimal, if any.
fn parse_usize_in(p: &Vec<char>, a: usize, b: usize) -> (r: Option<usize>)
    requires
        a <= b <= p@.len(),
    ensures
        r == parse_usize(p@.subrange(a as int, b as int)),
{
    let ghost s = p@.subrange(a as int, b as int);
    let mut start = a;
    if b - a > 1 && p[a] == '+' {
        start = a + 1;
    }
    let ghost d = p@.subrange(start as int, b as int);
    assert(d =~= unsigned_part(s));
    if start >= b {
        return None;
    }
    let mut v: usize = 0;
    let mut k = start;
    while k < b
        invariant
            start <= k <= b <= p@.len(),
            d == p@.subrange(start as int, b as int),
            s == p@.subrange(a as int, b as int),
            d == unsigned_part(s),
            forall|m: int| start <= m < k ==> is_digit(#[trigger] p@[m]),
            v == digits_value(p@.subrange(start as int, k as int)),
        decreases b - k,
    {
        let c = p[k];
        if !('0' <= c && c <= '9') {
            assert(!is_digit(d[k - start]));
            assert(!all_digits(d));
            return None;
        }
        let dig = (c as u32 - '0' as u32) as usize;
        assert(p@.subrange(start as int, k + 1).drop_last() =~= p@.subrange(start as int, k as int));
        assert(digits_value(p@.subrange(start as int, k + 1)) == v * 10 + dig);
        if v > (usize::MAX - dig) / 10 {
            assert(v * 10 + dig > usize::MAX) by (nonlinear_arith)
                requires
                    v > (usize::MAX - dig) / 10,
                    dig <= 9,
            ;
            proof {
                if all_digits(d) {
                    lemma_digits_value_prefix(d, k + 1 - start);
                    assert(d.subrange(0, k + 1 - start) =~= p@.subrange(start as int, k + 1));
                    assert(digits_value(d) > usize::MAX);
                }
                assert(parse_usize(s) is None);
            }
            return None;
        }
        assert(v * 10 + dig <= usize::MAX) by (nonlinear_arith)
            requires
                v <= (usize::MAX - dig) / 10,
                dig <= 9,
        ;
        v = v * 10 + dig;
        k += 1;
    }
    assert(p@.subrange(start as int, k as int) =~= d);
    Some(v)
}

/// The token that `\` followed by `d` stands for.
fn escape_token(d: char) -> (t: Token)
    ensures
        node_of(t) == escaped(d),
{
    if d == 'd' {
        Token::Digit
    } else if d == 'w' {
        Token::Alphanumeric
    } else if '0' <= d && d <= '9' {
        Token::Backreference((d as u32 - '0' as u32) as usize)
    } else {
        Token::Literal(d)
    }
}

/// The token of a character outside escapes, classes and groups that is no
/// operator: `.` or itself.
fn plain_token(c: char) -> (t: Token)
    ensures
        node_of(t) == (if c == '.' { Node::Wildcard } else { Node::Literal(c) }),
{
    if c == '.' {
        Token::Wildcard
    } else {
        Token::Literal(c)
    }
}

/// The quantifier of a brace body `p[lo..hi]` around `prev`.
fn braced_token(prev: Token, p: &Vec<char>, lo: usize, hi: usize) -> (r: Token)
    requires
        lo <= hi <= p@.len(),
    ensures
        node_of(r) == braced(node_of(prev), p@, lo as int, hi as int),
{
    let comma = find_char_in(p, lo, hi, ',');
    proof {
        lemma_find_char_bounds(p@, lo as int, hi as int, ',');
    }
    let (a, b) = trim_range(p, lo, comma);
    let min = match parse_usize_in(p, a, b) {
        Some(v) => v,
        None => 0,
    };
    if comma < hi {
        let comma2 = find_char_in(p, comma + 1, hi, ',');
        proof {
            lemma_find_char_bounds(p@, comma + 1, hi as int, ',');
        }
        let (a2, b2) = trim_range(p, comma + 1, comma2);
        let max = parse_usize_in(p, a2, b2);
        Token::Quantifier(Box::new(prev), min, max)
    } else {
        Token::Quantifier(Box::new(prev), min, Some(min))
    }
}

/// `tokens` with its last token wrapped in a quantifier; unchanged when empty.
fn quantify_last_token(tokens: &mut Vec<Token>, lo: usize, hi: Option<usize>)
    ensures
        nodes_of(final(tokens)@) == quantify_last(nodes_of(old(tokens)@), lo, hi),
{
    proof {
        crate::ast::lemma_nodes_of_len(old(tokens)@);
    }
    match tokens.pop() {
        Some(prev) => {
            proof {
                assert(old(tokens)@ == tokens@.push(prev));
                crate::ast::lemma_nodes_of_push(tokens@, prev);
            }
            let q = Token::Quantifier(Box::new(prev), lo, hi);
            proof {
                crate::ast::lemma_nodes_of_push(tokens@, q);
            }
            tokens.push(q);
        },
        None => {},
    }
}

/// Parses the item that starts at `p[i]` onto `tokens`; gives the position
/// after it.
fn parse_step(p: &Vec<char>, i: usize, hi: usize, tokens: &mut Vec<Token>, group_counter: &mut usize) -> (next: usize)
    requires
        i < hi <= p@.len(),
        *old(group_counter) + (hi - i) <= usize::MAX,
    ensures
        next == next_pos(p@, i as int, hi as int),
        (nodes_of(final(tokens)@), *final(group_counter) as int) == step_nodes(p@, i as int, hi as int, nodes_of(old(tokens)@), *old(group_counter) as int),
        *final(group_counter) <= *old(group_counter) + (next - i),
    decreases hi - i, 0int,
{
    let c = p[i];
    if c == '\\' {
        if i + 1 >= hi {
            return hi;
        } else {
            let d = p[i + 1];
            let t = escape_token(d);
            proof {
                crate::ast::lemma_nodes_of_push(tokens@, t);
            }
            tokens.push(t);
            return i + 2;
        }
    } else if c == '$' {
        proof {
            crate::ast::lemma_nodes_of_push(tokens@, Token::EndAnchor);
        }
        tokens.push(Token::EndAnchor);
        return i + 1;
    } else if c == '[' {
        let negated = i + 1 < hi && p[i + 1] == '^';
        let start = if negated { i + 2 } else { i + 1 };
        let close = find_char_in(p, start, hi, ']');
        proof {
            lemma_find_char_bounds(p@, start as int, hi as int, ']');
        }
        let mut members: Vec<char> = Vec::new();
        let mut k = start;
        while k < close
            invariant
                start <= k <= close <= hi <= p@.len(),
                members@ == p@.subrange(start as int, k as int),
            decreases close - k,
        {
            members.push(p[k]);
            proof {
                assert(members@ =~= p@.subrange(start as int, k + 1));
            }
            k += 1;
        }
        let group_type = if negated { GroupType::Negative } else { GroupType::Positive };
        let t = Token::BracketGroup(members, group_type);
        proof {
            crate::ast::lemma_nodes_of_push(tokens@, t);
        }
        tokens.push(t);
        return if close < hi { close + 1 } else { hi };
    } else if c == '(' {
        *group_counter += 1;
        let id = *group_counter;
        let close = find_group_close(p, i + 1, hi);
        proof {
            lemma_group_close_bounds(p@, i + 1, hi as int, 1);
        }
        let body = parse_group(p, i + 1, close, group_counter);
        let t = Token::Group(body, id);
        proof {
            crate::ast::lemma_nodes_of_push(tokens@, t);
        }
        tokens.push(t);
        return if close < hi { close + 1 } else { hi };
    } else if c == '{' {
        let close = find_char_in(p, i + 1, hi, '}');
        proof {
            lemma_find_char_bounds(p@, i + 1, hi as int, '}');
            crate::ast::lemma_nodes_of_len(tokens@);
        }
        match tokens.pop() {
            Some(prev) => {
                proof {
                    crate::ast::lemma_nodes_of_push(tokens@, prev);
                }
                let q = braced_token(prev, p, i + 1, close);
                proof {
                    crate::ast::lemma_nodes_of_push(tokens@, q);
                }
                tokens.push(q);
            },
            None => {},
        }
        return if close < hi { close + 1 } else { hi };
    } else if c == '+' {
        quantify_last_token(tokens, 1, None);
        return i + 1;
    } else if c == '?' {
        quantify_last_token(tokens, 0, Some(1));
        return i + 1;
    } else if c == '*' {
        quantify_last_token(tokens, 0, None);
        return i + 1;
    } else {
        let t = plain_token(c);
        proof {
            crate::ast::lemma_nodes_of_push(tokens@, t);
        }
        tokens.push(t);
        return i + 1;
    }
}

/// Parses `p[lo..hi]`, numbering the groups it opens from `*group_counter + 1`
/// on and leaving in `*group_counter` the last number given.
fn parse_pattern(p: &Vec<char>, lo: usize, hi: usize, group_counter: &mut usize) -> (r: Vec<Token>)
    requires
        lo <= hi <= p@.len(),
        *old(group_counter) + (hi - lo) <= usize::MAX,
    ensures
        (nodes_of(r@), *final(group_counter) as int) == parse_from(p@, lo as int, hi as int, Seq::empty(), *old(group_counter) as int),
        *final(group_counter) <= *old(group_counter) + (hi - lo),
    decreases hi - lo, 1int,
{
    let ghost c0 = *group_counter as int;
    let mut tokens: Vec<Token> = Vec::new();
    let mut i = lo;
    assert(nodes_of(tokens@) == Seq::<Node>::empty());
    while i < hi
        invariant
            lo <= i <= hi <= p@.len(),
            *group_counter <= c0 + (i - lo),
            c0 + (hi - lo) <= usize::MAX,
            parse_from(p@, lo as int, hi as int, Seq::empty(), c0) == parse_from(p@, i as int, hi as int, nodes_of(tokens@), *group_counter as int),
        decreases hi - i,
    {
        proof {
            lemma_next_pos(p@, i as int, hi as int);
        }
        i = parse_step(p, i, hi, &mut tokens, group_counter);
    }
    tokens
}

/// Parses the inside `p[lo..hi]` of a group.
fn parse_group(p: &Vec<char>, lo: usize, hi: usize, group_counter: &mut usize) -> (r: Vec<Token>)
    requires
        lo <= hi <= p@.len(),
        *old(group_counter) + (hi - lo) <= usize::MAX,
    ensures
        (nodes_of(r@), *final(group_counter) as int) == group_body(p@, lo as int, hi as int, *old(group_counter) as int),
        *final(group_counter) <= *old(group_counter) + (hi - lo),
    decreases hi - lo, 2int,
{
    let ghost c0 = *group_counter as int;
    let j = find_bar(p, lo, hi);
    proof {
        lemma_bar_at_bounds(p@, lo as int, hi as int, 0);
    }
    if j >= hi {
        return parse_pattern(p, lo, hi, group_counter);
    }
    let left = parse_pattern(p, lo, j, group_counter);
    let j2 = find_bar(p, j + 1, hi);
    proof {
        lemma_bar_at_bounds(p@, j + 1, hi as int, 0);
    }
    let right = parse_pattern(p, j + 1, j2, group_counter);
    let mut alt = Token::Alternation(left, right);
    let mut j = j2;
    while j < hi
        invariant
            lo <= j <= hi <= p@.len(),
            *group_counter <= c0 + (j - lo),
            c0 + (hi - lo) <= usize::MAX,
            group_body(p@, lo as int, hi as int, c0) == alternatives(p@, j as int, hi as int, node_of(alt), *group_counter as int),
        decreases hi - j,
    {
        let j2 = find_bar(p, j + 1, hi);
        proof {
            lemma_bar_at_bounds(p@, j + 1, hi as int, 0);
        }
        let right = parse_pattern(p, j + 1, j2, group_counter);
        let ghost prev = node_of(alt);
        let v = vec![alt];
        proof {
            crate::ast::lemma_nodes_of_push(Seq::empty(), alt);
            assert(Seq::<Token>::empty().push(alt) =~= v@);
            assert(Seq::<Node>::empty().push(prev) =~= seq![prev]);
            assert(nodes_of(Seq::<Token>::empty()) =~= Seq::<Node>::empty());
        }
        alt = Token::Alternation(v, right);
        j = j2;
    }
    let v = vec![alt];
    proof {
        crate::ast::lemma_nodes_of_push(Seq::empty(), alt);
        assert(Seq::<Token>::empty().push(alt) =~= v@);
        assert(Seq::<Node>::empty().push(node_of(alt)) =~= seq![node_of(alt)]);
        assert(nodes_of(Seq::<Token>::empty()) =~= Seq::<Node>::empty());
    }
    v
}

/// Parses a pattern into its tokens; groups are numbered from 1 in the order
/// of their opening parentheses.
pub fn parse_regex(pattern: &str) -> (r: Vec<Token>)
    ensures
        nodes_of(r@) == parse_nodes(pattern@),
{
    let p = crate::matcher::chars_of(pattern);
    let mut group_counter: usize = 0;
    parse_pattern(&p, 0, p.len(), &mut group_counter)
}

} // verus!
