//! The callout repair: `[!important]` and `[!info]` admonitions flattened into
//! a blockquote become quoted lines and titled links.

use vstd::prelude::*;
use crate::text::{
    lemma_find_on_line_bounds, lemma_find_open_bounds,
    line_end,
    chars_of, char_on_line, find_on_line, find_open, is_subseq, join, occurs, occurs_at,
    open_on_line, push_part, push_range, string_of, subseq_from, trim, trimmed, wide,
};

verus! {

pub open spec fn important_marker() -> Seq<char> {
    seq!['[', '!', 'i', 'm', 'p', 'o', 'r', 't', 'a', 'n', 't', ']']
}

pub open spec fn info_marker() -> Seq<char> {
    seq!['[', '!', 'i', 'n', 'f', 'o', ']']
}

/// A callout body stops at `e`: at the end of the text, before another `[!...]`
/// marker, or before an attribute list of the shape `{: k=v k=v}`.
pub open spec fn ends_body_at(s: Seq<char>, e: int) -> bool {
    e == s.len() || (occurs_at(s, e, seq!['[', '!']) && is_subseq(seq![']'], s.skip(e + 2)))
        || (occurs_at(s, e, seq!['{', ':', ' ']) && is_subseq(
        seq!['=', ' ', '=', '}'],
        s.skip(e + 3),
    ))
}

/// The first index from `p` on where a callout body stops.
pub open spec fn body_end(s: Seq<char>, p: int) -> int
    decreases s.len() - p,
{
    if p >= s.len() || ends_body_at(s, p) {
        p
    } else {
        body_end(s, p + 1)
    }
}

/// The body of the callout whose marker `m` starts at `i`.
pub open spec fn body_after(s: Seq<char>, i: int, m: Seq<char>) -> Seq<char> {
    s.subrange(i + m.len(), body_end(s, i + m.len()))
}

/// The target of a markdown link `[text](target)` that starts at `p`; the
/// link lies on one line.
pub open spec fn link_at(s: Seq<char>, p: int) -> Option<Seq<char>> {
    if 0 <= p < s.len() && s[p] == '[' {
        match find_open(s, p + 1) {
            Some(j) => match find_on_line(s, j + 2, ')') {
                Some(r) => Some(s.subrange(j + 2, r)),
                None => None,
            },
            None => None,
        }
    } else {
        None
    }
}

/// The target of the first markdown link that starts at `p` or later.
pub open spec fn link_target(s: Seq<char>, p: int) -> Option<Seq<char>>
    decreases s.len() - p,
{
    if p < 0 || p >= s.len() {
        None
    } else if link_at(s, p) is Some {
        link_at(s, p)
    } else {
        link_target(s, p + 1)
    }
}

/// An important callout becomes its trimmed body, quoted.
pub open spec fn quote_line(b: Seq<char>) -> Seq<char> {
    seq!['>', ' '] + trim(b)
}

/// An info callout becomes its trimmed first line, as the text of a link to
/// the body's first link target where there is one.
pub open spec fn info_line(b: Seq<char>) -> Seq<char> {
    let title = trim(b.take(line_end(b, 0)));
    match link_target(b, 0) {
        Some(u) => seq!['['] + title + seq![']', '('] + u + seq![')'],
        None => title,
    }
}

/// The lines of the important callouts whose markers start at `i` or later.
pub open spec fn important_lines(s: Seq<char>, i: int) -> Seq<Seq<char>>
    decreases s.len() - i,
{
    if i < 0 || i >= s.len() {
        Seq::empty()
    } else if occurs_at(s, i, important_marker()) {
        seq![quote_line(body_after(s, i, important_marker()))] + important_lines(s, i + 1)
    } else {
        important_lines(s, i + 1)
    }
}

/// The lines of the info callouts whose markers start at `i` or later.
pub open spec fn info_lines(s: Seq<char>, i: int) -> Seq<Seq<char>>
    decreases s.len() - i,
{
    if i < 0 || i >= s.len() {
        Seq::empty()
    } else if occurs_at(s, i, info_marker()) {
        seq![info_line(body_after(s, i, info_marker()))] + info_lines(s, i + 1)
    } else {
        info_lines(s, i + 1)
    }
}

/// All important callouts in order, then all info callouts in order.
pub open spec fn callout_lines(s: Seq<char>) -> Seq<Seq<char>> {
    important_lines(s, 0) + info_lines(s, 0)
}

/// The repaired blockquote: its callout lines separated by blank lines, or
/// the text itself where it holds no callout.
pub open spec fn blockquote(s: Seq<char>) -> Seq<char> {
    let lines = callout_lines(s);
    if lines.len() == 0 {
        s
    } else {
        join(lines, seq!['\n', '\n'])
    }
}

fn ends_body(s: &Vec<char>, e: usize) -> (r: bool)
    requires
        e <= s@.len(),
    ensures
        r == ends_body_at(s@, e as int),
{
    let bang = vec!['[', '!'];
    let close = vec![']'];
    let attr = vec!['{', ':', ' '];
    let pairs = vec!['=', ' ', '=', '}'];
    assert(bang@ =~= seq!['[', '!']);
    assert(close@ =~= seq![']']);
    assert(attr@ =~= seq!['{', ':', ' ']);
    assert(pairs@ =~= seq!['=', ' ', '=', '}']);
    if e == s.len() {
        return true;
    }
    if occurs(s, e, &bang) && subseq_from(s, e + 2, &close) {
        return true;
    }
    occurs(s, e, &attr) && subseq_from(s, e + 3, &pairs)
}

fn find_body_end(s: &Vec<char>, p: usize) -> (r: usize)
    requires
        p <= s@.len(),
    ensures
        r as int == body_end(s@, p as int),
        p <= r <= s@.len(),
{
    let n = s.len();
    let mut e: usize = p;
    while !ends_body(s, e)
        invariant
            p <= e <= s@.len() <= usize::MAX,
            body_end(s@, p as int) == body_end(s@, e as int),
        decreases s@.len() - e,
    {
        e = e + 1;
    }
    e
}

fn find_line_end(s: &Vec<char>) -> (r: usize)
    ensures
        r as int == line_end(s@, 0),
        r <= s@.len(),
{
    let mut k: usize = 0;
    while k < s.len() && s[k] != '\n'
        invariant
            k <= s@.len(),
            line_end(s@, 0) == line_end(s@, k as int),
        decreases s@.len() - k,
    {
        k = k + 1;
    }
    k
}

/// Where the link that starts at `p` has its target.
fn link_span(s: &Vec<char>, p: usize) -> (r: Option<(usize, usize)>)
    ensures
        match r {
            Some((a, z)) => a <= z <= s@.len() && link_at(s@, p as int) == Some(
                s@.subrange(a as int, z as int),
            ),
            None => link_at(s@, p as int) is None,
        },
{
    if p >= s.len() || s[p] != '[' {
        return None;
    }
    match open_on_line(s, p + 1) {
        Some(j) => {
            proof {
                lemma_find_open_bounds(s@, p + 1);
            }
            match char_on_line(s, j + 2, ')') {
                Some(z) => {
                    proof {
                        lemma_find_on_line_bounds(s@, j + 2, ')');
                    }
                    Some((j + 2, z))
                },
                None => None,
            }
        },
        None => None,
    }
}

fn info_text(b: &Vec<char>) -> (r: Vec<char>)
    ensures
        r@ == info_line(b@),
{
    let end = find_line_end(b);
    let title = trimmed(b, 0, end);
    assert(b@.subrange(0, end as int) =~= b@.take(end as int));
    assert(title@ == trim(b@.take(line_end(b@, 0))));
    let mut p: usize = 0;
    while p < b.len()
        invariant
            p <= b@.len(),
            link_target(b@, 0) == link_target(b@, p as int),
            title@ == trim(b@.take(line_end(b@, 0))),
        decreases b@.len() - p,
    {
        match link_span(b, p) {
            Some((a, z)) => {
                let mut r: Vec<char> = vec!['['];
                crate::text::push_all(&mut r, &title);
                r.push(']');
                r.push('(');
                push_range(&mut r, b, a, z);
                r.push(')');
                assert(r@ =~= seq!['['] + title@ + seq![']', '('] + b@.subrange(a as int, z as int)
                    + seq![')']);
                return r;
            },
            None => {},
        }
        p = p + 1;
    }
    title
}

/// Rewrites a blockquote's callouts: each `[!important]` body becomes a quoted
/// line, each `[!info]` body its title (linked where the body holds a link);
/// the lines are separated by blank lines. Text without callouts is returned
/// as it is.
pub fn update_node_blockquote(data: &str) -> (r: String)
    ensures
        r@ == blockquote(data@),
{
    let s = chars_of(data);
    let imp = vec!['[', '!', 'i', 'm', 'p', 'o', 'r', 't', 'a', 'n', 't', ']'];
    let info = vec!['[', '!', 'i', 'n', 'f', 'o', ']'];
    let sep = vec!['\n', '\n'];
    let mut out: Vec<char> = Vec::new();
    let mut any = false;
    let ghost mut done: Seq<Seq<char>> = Seq::empty();
    let mut i: usize = 0;
    while i < s.len()
        invariant
            i <= s@.len(),
            imp@ == important_marker(),
            done + important_lines(s@, i as int) == important_lines(s@, 0),
            out@ == join(done, sep@),
            any == (done.len() > 0),
            sep@ == seq!['\n', '\n'],
        decreases s@.len() - i,
    {
        if occurs(&s, i, &imp) {
            let p = i + 12;
            let e = find_body_end(&s, p);
            let line_body = trimmed(&s, p, e);
            let mut line: Vec<char> = vec!['>', ' '];
            crate::text::push_all(&mut line, &line_body);
            push_part(&mut out, !any, &sep, &line, Ghost(done));
            any = true;
            proof {
                assert(line@ == quote_line(body_after(s@, i as int, important_marker())));
                assert(done.push(line@) + important_lines(s@, i + 1) =~= done + important_lines(s@, i as int));
                done = done.push(line@);
            }
        }
        i = i + 1;
    }
    assert(done + important_lines(s@, s@.len() as int) =~= done);
    let mut i: usize = 0;
    while i < s.len()
        invariant
            i <= s@.len(),
            info@ == info_marker(),
            done + info_lines(s@, i as int) == callout_lines(s@),
            out@ == join(done, sep@),
            any == (done.len() > 0),
            sep@ == seq!['\n', '\n'],
        decreases s@.len() - i,
    {
        if occurs(&s, i, &info) {
            let p = i + 7;
            let e = find_body_end(&s, p);
            let mut b: Vec<char> = Vec::new();
            push_range(&mut b, &s, p, e);
            let line = info_text(&b);
            push_part(&mut out, !any, &sep, &line, Ghost(done));
            any = true;
            proof {
                assert(done.push(line@) + info_lines(s@, i + 1) =~= done + info_lines(s@, i as int));
                done = done.push(line@);
            }
        }
        i = i + 1;
    }
    assert(done + info_lines(s@, s@.len() as int) =~= done);
    if !any {
        string_of(&s)
    } else {
        string_of(&out)
    }
}

proof fn lemma_no_markers_no_lines(s: Seq<char>, i: int)
    requires
        forall|x: int| !occurs_at(s, x, important_marker()) && !occurs_at(s, x, info_marker()),
    ensures
        important_lines(s, i).len() == 0,
        info_lines(s, i).len() == 0,
    decreases s.len() - i,
{
    if 0 <= i < s.len() {
        lemma_no_markers_no_lines(s, i + 1);
    }
}

/// Text in which neither `[!important]` nor `[!info]` occurs comes back unchanged.
pub proof fn lemma_no_callout_unchanged(s: Seq<char>)
    requires
        forall|x: int| !occurs_at(s, x, important_marker()) && !occurs_at(s, x, info_marker()),
    ensures
        blockquote(s) == s,
{
    lemma_no_markers_no_lines(s, 0);
}

} // verus!
