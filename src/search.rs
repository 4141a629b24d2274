//! Searching lines and texts: the spans of successive matches, and the
//! output lines they give.

use vstd::prelude::*;
use vstd::string::StringExecFns;

use crate::ast::{nodes_of, Node, Token};
use crate::matcher::match_len;
use crate::output::{highlight, maybe_colorize};
use crate::parser::{find_char, find_char_in, lemma_find_char_bounds};
use vstd::string::StrSliceExecFns;

verus! {

/// The spans (start and end, in characters) of the successive matches of
/// `ns` in `t`, searching from `p` on. An anchored pattern is tried at `p`
/// alone; otherwise the search moves past each match, or by one character
/// after an empty match or where nothing matches.
pub open spec fn spans_from(ns: Seq<Node>, t: Seq<char>, p: int, anchored: bool) -> Seq<(usize, usize)>
    decreases t.len() - p,
    when 0 <= p <= t.len()
{
    match match_len(ns, t.subrange(p, t.len() as int)) {
        Some(e) => {
            let first = seq![(p as usize, (p + e) as usize)];
            let advance = if e > 0 { e } else { 1 };
            if anchored || p + advance > t.len() {
                first
            } else {
                first + spans_from(ns, t, p + advance, anchored)
            }
        },
        None => if anchored || p >= t.len() {
            Seq::empty()
        } else {
            spans_from(ns, t, p + 1, anchored)
        },
    }
}

/// The leftmost match of `ns` in `t` that starts at `p` or later; an
/// anchored pattern is tried at `p` alone.
pub open spec fn leftmost_from(ns: Seq<Node>, t: Seq<char>, p: int, anchored: bool) -> Option<(usize, usize)>
    decreases t.len() - p,
    when 0 <= p <= t.len()
{
    match match_len(ns, t.subrange(p, t.len() as int)) {
        Some(e) => Some((p as usize, (p + e) as usize)),
        None => if anchored || p >= t.len() {
            None
        } else {
            leftmost_from(ns, t, p + 1, anchored)
        },
    }
}

/// The spans of all matches of `ns` in the line `t`.
pub open spec fn match_spans(ns: Seq<Node>, t: Seq<char>, anchored: bool) -> Seq<(usize, usize)> {
    spans_from(ns, t, 0, anchored)
}

/// Spans that lie inside a text of length `n`, each ending before the next
/// starts.
pub open spec fn spans_ordered(spans: Seq<(usize, usize)>, n: int) -> bool {
    &&& forall|k: int| 0 <= k < spans.len() ==> #[trigger] spans[k].0 <= spans[k].1 <= n
    &&& forall|k: int| 0 <= k < spans.len() - 1 ==> #[trigger] spans[k].1 <= spans[k + 1].0
}

/// `t` from `last` on, with the text of each span highlighted.
pub open spec fn marked_from(t: Seq<char>, spans: Seq<(usize, usize)>, last: int, on: bool) -> Seq<char>
    decreases spans.len(),
{
    if spans.len() == 0 {
        t.subrange(last, t.len() as int)
    } else {
        let (s, e) = spans[0];
        t.subrange(last, s as int) + highlight(t.subrange(s as int, e as int), on) + marked_from(
            t,
            spans.drop_first(),
            e as int,
            on,
        )
    }
}

/// What a line with match spans `spans` prints: with `only_matching`, one
/// output line per match; otherwise the whole line with its matches marked,
/// if it has any. Each output line starts with `prefix`.
pub open spec fn rendered(
    t: Seq<char>,
    spans: Seq<(usize, usize)>,
    only_matching: bool,
    on: bool,
    prefix: Seq<char>,
) -> Seq<Seq<char>> {
    if only_matching {
        Seq::new(spans.len(), |k: int| prefix + highlight(t.subrange(spans[k].0 as int, spans[k].1 as int), on))
    } else if spans.len() > 0 {
        seq![prefix + marked_from(t, spans, 0, on)]
    } else {
        Seq::empty()
    }
}

fn suffix_of(t: &Vec<char>, p: usize) -> (r: Vec<char>)
    requires
        p <= t@.len(),
    ensures
        r@ == t@.subrange(p as int, t@.len() as int),
{
    let mut r: Vec<char> = Vec::new();
    let mut k = p;
    while k < t.len()
        invariant
            p <= k <= t@.len(),
            r@ == t@.subrange(p as int, k as int),
        decreases t@.len() - k,
    {
        r.push(t[k]);
        assert(r@ =~= t@.subrange(p as int, k + 1));
        k += 1;
    }
    r
}

/// The spans of the successive matches of `tokens` in the characters `t`.
fn find_spans(t: &Vec<char>, tokens: &[Token], anchored: bool) -> (r: Vec<(usize, usize)>)
    ensures
        r@ == match_spans(nodes_of(tokens@), t@, anchored),
        spans_ordered(r@, t@.len() as int),
{
    let ghost ns = nodes_of(tokens@);
    let n = t.len();
    let mut spans: Vec<(usize, usize)> = Vec::new();
    let mut p: usize = 0;
    let mut searching = true;
    while searching
        invariant
            p <= n == t@.len(),
            ns == nodes_of(tokens@),
            spans_ordered(spans@, t@.len() as int),
            searching && spans@.len() > 0 ==> spans@.last().1 <= p,
            searching ==> match_spans(ns, t@, anchored) == spans@ + spans_from(ns, t@, p as int, anchored),
            !searching ==> match_spans(ns, t@, anchored) == spans@,
        decreases (if searching { n - p + 1 } else { 0 }),
    {
        let suffix = suffix_of(t, p);
        let ghost before = spans@;
        let found = crate::matcher::match_chars(&suffix, tokens);
        match found {
            Some(e) => {
                let ghost first = seq![(p, (p + e) as usize)];
                let ghost adv: int = if e > 0 { e as int } else { 1 };
                assert(spans_from(ns, t@, p as int, anchored) == (if anchored || p + adv > t@.len() {
                    first
                } else {
                    first + spans_from(ns, t@, p + adv, anchored)
                }));
                spans.push((p, p + e));
                assert(spans@ == before + seq![(p, (p + e) as usize)]);
                let advance = if e > 0 { e } else { 1 };
                if anchored || advance > n - p {
                    searching = false;
                } else {
                    assert(spans@ + spans_from(ns, t@, (p + advance) as int, anchored) =~= before + (seq![(p, (p + e) as usize)] + spans_from(ns, t@, (p + advance) as int, anchored)));
                    p = p + advance;
                }
            },
            None => {
                assert(spans_from(ns, t@, p as int, anchored) == (if anchored || p >= t@.len() {
                    Seq::<(usize, usize)>::empty()
                } else {
                    spans_from(ns, t@, p + 1, anchored)
                }));
                if anchored || p >= n {
                    searching = false;
                    assert(spans@ + Seq::<(usize, usize)>::empty() =~= spans@);
                } else {
                    p = p + 1;
                }
            },
        }
    }
    spans
}

/// The spans (start and end, in characters) of the successive matches of
/// `tokens` in `line`.
pub fn find_matches(line: &str, tokens: &[Token], anchored: bool) -> (r: Vec<(usize, usize)>)
    ensures
        r@ == match_spans(nodes_of(tokens@), line@, anchored),
        spans_ordered(r@, line@.len() as int),
{
    let t = crate::matcher::chars_of(line);
    find_spans(&t, tokens, anchored)
}

/// The span of the first match of `tokens` in `line`: the leftmost one, or,
/// for an anchored pattern, the one at the start.
pub fn match_anywhere(line: &str, tokens: &[Token], anchored: bool) -> (r: Option<(usize, usize)>)
    ensures
        r == leftmost_from(nodes_of(tokens@), line@, 0, anchored),
{
    let t = crate::matcher::chars_of(line);
    let ghost ns = nodes_of(tokens@);
    let n = t.len();
    let mut p: usize = 0;
    while p <= n
        invariant
            p <= n == t@.len(),
            t@ == line@,
            ns == nodes_of(tokens@),
            leftmost_from(ns, t@, 0, anchored) == leftmost_from(ns, t@, p as int, anchored),
        decreases n + 1 - p,
    {
        let suffix = suffix_of(&t, p);
        let found = crate::matcher::match_chars(&suffix, tokens);
        assert(leftmost_from(ns, t@, p as int, anchored) == match match_len(ns, suffix@) {
            Some(e) => Some((p as usize, (p + e) as usize)),
            None => if anchored || p >= t@.len() {
                None
            } else {
                leftmost_from(ns, t@, p + 1, anchored)
            },
        });
        match found {
            Some(e) => {
                return Some((p, p + e));
            },
            None => {
                if anchored || p >= n {
                    return None;
                }
            },
        }
        p = p + 1;
    }
    None
}

/// The output lines for `line`, whose match spans are `spans`.
#[verifier::rlimit(40)]
pub fn render_line(
    line: &str,
    spans: &Vec<(usize, usize)>,
    only_matching: bool,
    use_color: bool,
    prefix: &str,
) -> (r: Vec<String>)
    requires
        spans_ordered(spans@, line@.len() as int),
    ensures
        r@.map_values(|s: String| s@) == rendered(line@, spans@, only_matching, use_color, prefix@),
{
    let ghost want = rendered(line@, spans@, only_matching, use_color, prefix@);
    let mut out: Vec<String> = Vec::new();
    let n = line.unicode_len();
    if only_matching {
        let mut k: usize = 0;
        while k < spans.len()
            invariant
                k <= spans@.len(),
                n == line@.len(),
                spans_ordered(spans@, line@.len() as int),
                want == rendered(line@, spans@, only_matching, use_color, prefix@),
                only_matching,
                want.len() == spans@.len(),
                out@.len() == k,
                forall|j: int| 0 <= j < k ==> #[trigger] out@[j]@ == want[j],
            decreases spans@.len() - k,
        {
            let (s, e) = spans[k];
            assert(spans@[k as int].0 <= spans@[k as int].1 <= n);
            let mut o = String::from_str(prefix);
            let piece = maybe_colorize(line.substring_char(s, e), use_color);
            o.append(piece.as_str());
            assert(o@ == want[k as int]);
            let ghost before = out@;
            out.push(o);
            assert(forall|j: int| 0 <= j < k ==> out@[j] == before[j]);
            k += 1;
        }
        assert(out@.map_values(|s: String| s@) =~= want);
    } else if spans.len() > 0 {
        let mut o = String::from_str(prefix);
        let mut last: usize = 0;
        let mut k: usize = 0;
        assert(spans@.subrange(0, spans@.len() as int) =~= spans@);
        while k < spans.len()
            invariant
                k <= spans@.len(),
                n == line@.len(),
                spans_ordered(spans@, line@.len() as int),
                last <= n,
                k > 0 ==> last == spans@[k - 1].1,
                k == 0 ==> last == 0,
                prefix@ + marked_from(line@, spans@, 0, use_color) == o@ + marked_from(line@, spans@.subrange(k as int, spans@.len() as int), last as int, use_color),
            decreases spans@.len() - k,
        {
            let (s, e) = spans[k];
            assert(last <= s) by {
                if k > 0 {
                    assert(spans@[k - 1].1 <= spans@[k as int].0);
                }
            }
            assert(spans@[k as int].0 <= spans@[k as int].1 <= n);
            let ghost rest = spans@.subrange(k as int, spans@.len() as int);
            assert(rest.drop_first() =~= spans@.subrange(k + 1, spans@.len() as int));
            let ghost before = o@;
            o.append(line.substring_char(last, s));
            let piece = maybe_colorize(line.substring_char(s, e), use_color);
            o.append(piece.as_str());
            assert(before + marked_from(line@, rest, last as int, use_color) =~= o@ + marked_from(line@, spans@.subrange(k + 1, spans@.len() as int), e as int, use_color));
            last = e;
            k += 1;
        }
        assert(spans@.subrange(k as int, spans@.len() as int) =~= Seq::<(usize, usize)>::empty());
        o.append(line.substring_char(last, n));
        assert(spans@.subrange(0, spans@.len() as int) =~= spans@);
        out.push(o);
        assert(out@.map_values(|s: String| s@) =~= want);
    } else {
        assert(out@.map_values(|s: String| s@) =~= want);
    }
    out
}

/// The output lines for one line of input: the matches of `tokens` in
/// `line`, rendered as `render_line` does.
pub fn process_line(
    line: &str,
    tokens: &[Token],
    anchored: bool,
    only_matching: bool,
    use_color: bool,
    prefix: &str,
) -> (r: Vec<String>)
    ensures
        r@.map_values(|s: String| s@) == rendered(
            line@,
            match_spans(nodes_of(tokens@), line@, anchored),
            only_matching,
            use_color,
            prefix@,
        ),
{
    let spans = find_matches(line, tokens, anchored);
    render_line(line, &spans, only_matching, use_color, prefix)
}

/// The lines of `s` from `start` on: the text is cut after each `\n`; a
/// line loses its `\n` and then one `\r` before it; the text after the
/// last `\n` is a line when it is not empty.
pub open spec fn lines_from(s: Seq<char>, start: int) -> Seq<Seq<char>>
    decreases s.len() - start,
    when 0 <= start <= s.len()
{
    if start >= s.len() {
        Seq::empty()
    } else {
        let k = find_char(s, start, s.len() as int, '\n');
        proof {
            lemma_find_char_bounds(s, start, s.len() as int, '\n');
        }
        if k < s.len() {
            let end = if k > start && s[k - 1] == '\r' { k - 1 } else { k };
            seq![s.subrange(start, end)] + lines_from(s, k + 1)
        } else {
            seq![s.subrange(start, k)]
        }
    }
}

/// The lines of `s`.
pub open spec fn lines_of(s: Seq<char>) -> Seq<Seq<char>> {
    lines_from(s, 0)
}

/// What the lines `lines` print, one after another.
pub open spec fn text_output(
    ns: Seq<Node>,
    lines: Seq<Seq<char>>,
    anchored: bool,
    only_matching: bool,
    on: bool,
    prefix: Seq<char>,
) -> Seq<Seq<char>>
    decreases lines.len(),
{
    if lines.len() == 0 {
        Seq::empty()
    } else {
        rendered(lines[0], match_spans(ns, lines[0], anchored), only_matching, on, prefix)
            + text_output(ns, lines.drop_first(), anchored, only_matching, on, prefix)
    }
}

/// The output lines for a whole text: each of its lines processed as
/// `process_line` does, in order.
pub fn search_text(
    content: &str,
    tokens: &[Token],
    anchored: bool,
    only_matching: bool,
    use_color: bool,
    prefix: &str,
) -> (r: Vec<String>)
    ensures
        r@.map_values(|s: String| s@) == text_output(
            nodes_of(tokens@),
            lines_of(content@),
            anchored,
            only_matching,
            use_color,
            prefix@,
        ),
{
    let ghost ns = nodes_of(tokens@);
    let t = crate::matcher::chars_of(content);
    let n = t.len();
    let mut out: Vec<String> = Vec::new();
    let mut start: usize = 0;
    let mut more = n > 0;
    assert(out@.map_values(|s: String| s@) =~= Seq::<Seq<char>>::empty());
    assert(Seq::<Seq<char>>::empty() + text_output(ns, lines_from(t@, 0), anchored, only_matching, use_color, prefix@) =~= text_output(ns, lines_from(t@, 0), anchored, only_matching, use_color, prefix@));
    while more
        invariant
            start <= n == t@.len(),
            t@ == content@,
            ns == nodes_of(tokens@),
            more ==> start < n,
            text_output(ns, lines_of(t@), anchored, only_matching, use_color, prefix@) == out@.map_values(|s: String| s@)
                + (if more { text_output(ns, lines_from(t@, start as int), anchored, only_matching, use_color, prefix@) } else { Seq::empty() }),
        decreases n - start, (if more { 1int } else { 0int }),
    {
        let k = find_char_in(&t, start, n, '\n');
        proof {
            lemma_find_char_bounds(t@, start as int, n as int, '\n');
        }
        let end = if k < n && k > start && t[k - 1] == '\r' { k - 1 } else { k };
        let line = content.substring_char(start, end);
        let ghost lines = lines_from(t@, start as int);
        let ghost rest = if k < n { lines_from(t@, k + 1) } else { Seq::<Seq<char>>::empty() };
        assert(lines == seq![t@.subrange(start as int, end as int)] + rest);
        assert(lines[0] == line@);
        assert(lines.drop_first() =~= rest);
        let found = process_line(line, tokens, anchored, only_matching, use_color, prefix);
        let ghost before = out@.map_values(|s: String| s@);
        let mut j: usize = 0;
        while j < found.len()
            invariant
                j <= found@.len(),
                out@.map_values(|s: String| s@) == before + found@.subrange(0, j as int).map_values(|s: String| s@),
            decreases found@.len() - j,
        {
            let ghost old_out = out@;
            let item = found[j].clone();
            out.push(item);
            assert(out@ == old_out.push(found@[j as int]));
            assert(out@.map_values(|s: String| s@) =~= old_out.map_values(|s: String| s@).push(found@[j as int]@));
            assert(found@.subrange(0, j + 1).map_values(|s: String| s@) =~= found@.subrange(0, j as int).map_values(|s: String| s@).push(found@[j as int]@));
            assert(out@.map_values(|s: String| s@) =~= before + found@.subrange(0, j + 1).map_values(|s: String| s@));
            j += 1;
        }
        assert(found@.subrange(0, j as int) =~= found@);
        if k < n {
            start = k + 1;
            more = start < n;
            if !more {
                assert(lines_from(t@, start as int) =~= Seq::<Seq<char>>::empty());
                assert(text_output(ns, Seq::<Seq<char>>::empty(), anchored, only_matching, use_color, prefix@) =~= Seq::<Seq<char>>::empty());
            }
        } else {
            more = false;
            assert(text_output(ns, Seq::<Seq<char>>::empty(), anchored, only_matching, use_color, prefix@) =~= Seq::<Seq<char>>::empty());
        }
        assert(text_output(ns, lines, anchored, only_matching, use_color, prefix@) == found@.map_values(|s: String| s@) + text_output(ns, rest, anchored, only_matching, use_color, prefix@));
        assert(before + found@.map_values(|s: String| s@) + text_output(ns, rest, anchored, only_matching, use_color, prefix@) =~= out@.map_values(|s: String| s@) + text_output(ns, rest, anchored, only_matching, use_color, prefix@));
    }
    assert(out@.map_values(|s: String| s@) + Seq::<Seq<char>>::empty() =~= out@.map_values(|s: String| s@));
    out
}

} // verus!
