//! The paragraph repair: escaped math delimiters lose half of their
//! backslashes, and links to image files become image embeds.

use vstd::prelude::*;
use crate::text::{
    lemma_line_end_bounds,
    line_end,
    chars_of, drop_last_line, occurs, push_range, string_of, wide, without_last_line,
};

verus! {

/// `n` backslashes.
pub open spec fn backslashes(n: nat) -> Seq<char> {
    Seq::new(n, |_x: int| '\\')
}

/// `s[i..]` with escapes collapsed, where `k` backslashes stand right before
/// `i`: a run of `k` backslashes directly before a `'$'` keeps `k / 2` of
/// them; every other character stays.
pub open spec fn collapse_from(s: Seq<char>, i: int, k: nat) -> Seq<char>
    decreases s.len() - i,
{
    if i < 0 || i >= s.len() {
        backslashes(k)
    } else if s[i] == '\\' {
        collapse_from(s, i + 1, k + 1)
    } else if s[i] == '$' {
        backslashes(k / 2) + seq!['$'] + collapse_from(s, i + 1, 0)
    } else {
        backslashes(k) + seq![s[i]] + collapse_from(s, i + 1, 0)
    }
}

/// `s` with each escaped math delimiter `\\...\$` collapsed to half as many
/// backslashes.
pub open spec fn collapse_escapes(s: Seq<char>) -> Seq<char> {
    collapse_from(s, 0, 0)
}

/// The file extensions that mark a link as an image.
pub open spec fn is_image_ext(e: Seq<char>) -> bool {
    e == seq!['b', 'm', 'p'] || e == seq!['j', 'p', 'g'] || e == seq!['j', 'p', 'e', 'g']
        || e == seq!['p', 'n', 'g'] || e == seq!['t', 'i', 'f'] || e == seq!['g', 'i', 'f']
        || e == seq!['p', 'c', 'x'] || e == seq!['t', 'g', 'a'] || e == seq!['e', 'x', 'i', 'f']
        || e == seq!['f', 'p', 'x'] || e == seq!['s', 'v', 'g'] || e == seq!['p', 's', 'd']
        || e == seq!['c', 'd', 'r'] || e == seq!['p', 'c', 'd'] || e == seq!['d', 'x', 'f']
        || e == seq!['u', 'f', 'o'] || e == seq!['e', 'p', 's'] || e == seq!['a', 'i']
        || e == seq!['r', 'a', 'w'] || e == seq!['w', 'm', 'f'] || e == seq!['w', 'e', 'b', 'p']
}

/// A character that no part of an image link may hold: a link stays on one
/// line, and neither its text nor its target holds a `'['`.
pub open spec fn breaks_link(c: char) -> bool {
    c == '\n' || c == '['
}

/// First index `j >= k` where `"]("` starts, with no `'\n'` or `'['` in `s[k..j]`.
pub open spec fn find_text_end(s: Seq<char>, k: int) -> Option<int>
    decreases s.len() - k,
{
    if k < 0 || k >= s.len() || breaks_link(s[k]) {
        None
    } else if s[k] == ']' && k + 1 < s.len() && s[k + 1] == '(' {
        Some(k)
    } else {
        find_text_end(s, k + 1)
    }
}

/// First index `r >= k` of a `')'`, with no `'\n'` or `'['` in `s[k..r]`.
pub open spec fn find_close(s: Seq<char>, k: int) -> Option<int>
    decreases s.len() - k,
{
    if k < 0 || k >= s.len() || breaks_link(s[k]) {
        None
    } else if s[k] == ')' {
        Some(k)
    } else {
        find_close(s, k + 1)
    }
}

/// Where the first `.ext)` with an image extension stands from `k` on, before
/// any `'\n'` or `'['`: the index just past its `')'`.
pub open spec fn find_image_target_end(s: Seq<char>, k: int) -> Option<int>
    decreases s.len() - k,
{
    if k < 0 || k >= s.len() || breaks_link(s[k]) {
        None
    } else if s[k] == '.' && (match find_close(s, k + 1) {
        Some(r) => is_image_ext(s.subrange(k + 1, r)),
        None => false,
    }) {
        Some(find_close(s, k + 1)->0 + 1)
    } else {
        find_image_target_end(s, k + 1)
    }
}

/// Where the rest of an image link, after its `'['`, ends when it starts at
/// `k`; the character before the `'['` is not looked at.
pub open spec fn image_pattern(s: Seq<char>, k: int) -> Option<int> {
    match find_text_end(s, k) {
        Some(j) => find_image_target_end(s, j + 2),
        None => None,
    }
}

/// Where a link to an image that is not yet embedded starts at `p`: the index
/// just past the link.
pub open spec fn image_link_at(s: Seq<char>, p: int) -> Option<int> {
    if 0 <= p < s.len() && s[p] == '[' && (p == 0 || s[p - 1] != '!') {
        image_pattern(s, p + 1)
    } else {
        None
    }
}

pub proof fn lemma_find_close_bounds(s: Seq<char>, k: int)
    ensures
        find_close(s, k) matches Some(r) ==> k <= r < s.len() && s[r] == ')' && forall|q: int|
            k <= q < r ==> !breaks_link(#[trigger] s[q]),
    decreases s.len() - k,
{
    if 0 <= k < s.len() && !breaks_link(s[k]) && s[k] != ')' {
        lemma_find_close_bounds(s, k + 1);
    }
}

pub proof fn lemma_find_text_end_bounds(s: Seq<char>, k: int)
    ensures
        find_text_end(s, k) matches Some(j) ==> k <= j && j + 1 < s.len() && s[j] == ']' && s[j
            + 1] == '(' && forall|q: int| k <= q < j ==> !breaks_link(#[trigger] s[q]),
    decreases s.len() - k,
{
    if 0 <= k < s.len() && !breaks_link(s[k]) && !(s[k] == ']' && k + 1 < s.len() && s[k + 1]
        == '(') {
        lemma_find_text_end_bounds(s, k + 1);
    }
}

pub proof fn lemma_image_target_bounds(s: Seq<char>, k: int)
    ensures
        find_image_target_end(s, k) matches Some(e) ==> k < e <= s.len(),
    decreases s.len() - k,
{
    if 0 <= k < s.len() && !breaks_link(s[k]) {
        lemma_find_close_bounds(s, k + 1);
        lemma_image_target_bounds(s, k + 1);
    }
}

pub proof fn lemma_image_link_bounds(s: Seq<char>, p: int)
    ensures
        image_link_at(s, p) matches Some(e) ==> p < e <= s.len(),
{
    lemma_find_text_end_bounds(s, p + 1);
    if let Some(j) = find_text_end(s, p + 1) {
        lemma_image_target_bounds(s, j + 2);
    }
}

/// `s[i..]` with `'!'` put before each image link, taken from left to right.
pub open spec fn embed_from(s: Seq<char>, i: int) -> Seq<char>
    decreases s.len() - i,
{
    if i < 0 || i >= s.len() {
        Seq::empty()
    } else {
        proof {
            lemma_image_link_bounds(s, i);
        }
        match image_link_at(s, i) {
            Some(e) => seq!['!'] + s.subrange(i, e) + embed_from(s, e),
            None => seq![s[i]] + embed_from(s, i + 1),
        }
    }
}

/// `s` with every link `[text](path.ext)` to an image file that is not yet
/// prefixed by `'!'` turned into an image embed `![text](path.ext)`.
pub open spec fn embed_images(s: Seq<char>) -> Seq<char> {
    embed_from(s, 0)
}

fn same(s: &Vec<char>, a: usize, z: usize, m: Vec<char>) -> (r: bool)
    requires
        a <= z <= s@.len(),
    ensures
        r == (s@.subrange(a as int, z as int) == m@),
{
    if z - a != m.len() {
        assert(s@.subrange(a as int, z as int).len() != m@.len());
        return false;
    }
    occurs(s, a, &m)
}

fn image_ext(s: &Vec<char>, a: usize, z: usize) -> (r: bool)
    requires
        a <= z <= s@.len(),
    ensures
        r == is_image_ext(s@.subrange(a as int, z as int)),
{
    let r = same(s, a, z, vec!['b', 'm', 'p']) || same(s, a, z, vec!['j', 'p', 'g']) || same(
        s,
        a,
        z,
        vec!['j', 'p', 'e', 'g'],
    ) || same(s, a, z, vec!['p', 'n', 'g']) || same(s, a, z, vec!['t', 'i', 'f']) || same(
        s,
        a,
        z,
        vec!['g', 'i', 'f'],
    ) || same(s, a, z, vec!['p', 'c', 'x']) || same(s, a, z, vec!['t', 'g', 'a']) || same(
        s,
        a,
        z,
        vec!['e', 'x', 'i', 'f'],
    ) || same(s, a, z, vec!['f', 'p', 'x']) || same(s, a, z, vec!['s', 'v', 'g']) || same(
        s,
        a,
        z,
        vec!['p', 's', 'd'],
    ) || same(s, a, z, vec!['c', 'd', 'r']) || same(s, a, z, vec!['p', 'c', 'd']) || same(
        s,
        a,
        z,
        vec!['d', 'x', 'f'],
    ) || same(s, a, z, vec!['u', 'f', 'o']) || same(s, a, z, vec!['e', 'p', 's']) || same(
        s,
        a,
        z,
        vec!['a', 'i'],
    ) || same(s, a, z, vec!['r', 'a', 'w']) || same(s, a, z, vec!['w', 'm', 'f']) || same(
        s,
        a,
        z,
        vec!['w', 'e', 'b', 'p'],
    );
    r
}

fn text_end(s: &Vec<char>, k: usize) -> (r: Option<usize>)
    ensures
        wide(r) == find_text_end(s@, k as int),
{
    let mut i: usize = k;
    while i < s.len()
        invariant
            k <= i,
            find_text_end(s@, k as int) == find_text_end(s@, i as int),
        decreases s@.len() - i,
    {
        if s[i] == '\n' || s[i] == '[' {
            return None;
        }
        if s[i] == ']' && i + 1 < s.len() && s[i + 1] == '(' {
            return Some(i);
        }
        i = i + 1;
    }
    None
}

fn close_paren(s: &Vec<char>, k: usize) -> (r: Option<usize>)
    ensures
        wide(r) == find_close(s@, k as int),
{
    let mut i: usize = k;
    while i < s.len()
        invariant
            k <= i,
            find_close(s@, k as int) == find_close(s@, i as int),
        decreases s@.len() - i,
    {
        if s[i] == '\n' || s[i] == '[' {
            return None;
        }
        if s[i] == ')' {
            return Some(i);
        }
        i = i + 1;
    }
    None
}

fn image_target_end(s: &Vec<char>, k: usize) -> (r: Option<usize>)
    ensures
        wide(r) == find_image_target_end(s@, k as int),
{
    let mut i: usize = k;
    while i < s.len()
        invariant
            k <= i,
            find_image_target_end(s@, k as int) == find_image_target_end(s@, i as int),
        decreases s@.len() - i,
    {
        if s[i] == '\n' || s[i] == '[' {
            return None;
        }
        if s[i] == '.' {
            match close_paren(s, i + 1) {
                Some(r) => {
                    proof {
                        lemma_find_close_bounds(s@, i + 1);
                    }
                    if image_ext(s, i + 1, r) {
                        return Some(r + 1);
                    }
                },
                None => {},
            }
        }
        i = i + 1;
    }
    None
}

fn image_link(s: &Vec<char>, p: usize) -> (r: Option<usize>)
    ensures
        wide(r) == image_link_at(s@, p as int),
{
    if p >= s.len() || s[p] != '[' || (p > 0 && s[p - 1] == '!') {
        return None;
    }
    match text_end(s, p + 1) {
        Some(j) => {
            proof {
                lemma_find_text_end_bounds(s@, p + 1);
            }
            image_target_end(s, j + 2)
        },
        None => None,
    }
}

/// Repairs a paragraph's content: drops its last line (the attribute line),
/// collapses escaped math delimiters, and embeds linked images.
pub fn update_node_paragraph(data: &str) -> (r: String)
    ensures
        r@ == embed_images(collapse_escapes(drop_last_line(data@))),
{
    let full = chars_of(data);
    let t = without_last_line(&full);
    let mut s: Vec<char> = Vec::new();
    let mut k: usize = 0;
    let mut i: usize = 0;
    while i < t.len()
        invariant
            i <= t@.len(),
            k <= i,
            s@ + collapse_from(t@, i as int, k as nat) == collapse_escapes(t@),
        decreases t@.len() - i,
    {
        let ghost before = s@;
        if t[i] == '\\' {
            k = k + 1;
        } else {
            let m: usize = if t[i] == '$' {
                k / 2
            } else {
                k
            };
            let mut n: usize = m;
            while n > 0
                invariant
                    s@ == before + backslashes((m - n) as nat),
                    n <= m,
                decreases n,
            {
                s.push('\\');
                n = n - 1;
                assert(s@ =~= before + backslashes((m - n) as nat));
            }
            s.push(t[i]);
            assert(s@ + collapse_from(t@, i + 1, 0) =~= before + collapse_from(t@, i as int, k as nat));
            k = 0;
        }
        i = i + 1;
    }
    let mut n: usize = k;
    let ghost before = s@;
    while n > 0
        invariant
            s@ == before + backslashes((k - n) as nat),
            n <= k,
        decreases n,
    {
        s.push('\\');
        n = n - 1;
        assert(s@ =~= before + backslashes((k - n) as nat));
    }
    assert(s@ =~= before + collapse_from(t@, i as int, k as nat));
    let mut out: Vec<char> = Vec::new();
    let mut i: usize = 0;
    while i < s.len()
        invariant
            i <= s@.len(),
            out@ + embed_from(s@, i as int) == embed_from(s@, 0),
        decreases s@.len() - i,
    {
        let ghost before = out@;
        match image_link(&s, i) {
            Some(e) => {
                proof {
                    lemma_image_link_bounds(s@, i as int);
                }
                out.push('!');
                push_range(&mut out, &s, i, e);
                assert(out@ + embed_from(s@, e as int) =~= before + embed_from(s@, i as int));
                i = e;
            },
            None => {
                out.push(s[i]);
                assert(out@ + embed_from(s@, i + 1) =~= before + embed_from(s@, i as int));
                i = i + 1;
            },
        }
    }
    assert(out@ =~= out@ + embed_from(s@, s@.len() as int));
    string_of(&out)
}

proof fn lemma_collapse_shift(p: Seq<char>, t: Seq<char>, j: int, k: nat)
    requires
        0 <= j <= t.len(),
    ensures
        collapse_from(p + t, p.len() + j, k) == collapse_from(t, j, k),
    decreases t.len() - j,
{
    if j < t.len() {
        assert((p + t)[p.len() + j] == t[j]);
        lemma_collapse_shift(p, t, j + 1, k + 1);
        lemma_collapse_shift(p, t, j + 1, 0);
    }
}

proof fn lemma_collapse_concat(a: Seq<char>, t: Seq<char>, i: int, k: nat)
    requires
        0 <= i <= a.len(),
        a.len() > 0 ==> a.last() != '\\',
        i == a.len() ==> k == 0,
    ensures
        collapse_from(a + t, i, k) == collapse_from(a, i, k) + collapse_escapes(t),
    decreases a.len() - i,
{
    if i == a.len() {
        lemma_collapse_shift(a, t, 0, 0);
        assert(backslashes(0) =~= Seq::<char>::empty());
        assert(collapse_from(a, i, k) + collapse_escapes(t) =~= collapse_escapes(t));
    } else {
        assert((a + t)[i] == a[i]);
        if a[i] == '\\' {
            lemma_collapse_concat(a, t, i + 1, k + 1);
        } else {
            lemma_collapse_concat(a, t, i + 1, 0);
            if a[i] == '$' {
                assert(collapse_from(a + t, i, k) =~= collapse_from(a, i, k) + collapse_escapes(t));
            } else {
                assert(collapse_from(a + t, i, k) =~= collapse_from(a, i, k) + collapse_escapes(t));
            }
        }
    }
}

proof fn lemma_collapse_run(k: nat, b: Seq<char>, j: nat)
    requires
        j <= k,
    ensures
        collapse_from(backslashes(k) + seq!['$'] + b, j as int, j) == backslashes(k / 2) + seq![
            '$',
        ] + collapse_escapes(b),
    decreases k - j,
{
    let x = backslashes(k) + seq!['$'] + b;
    if j < k {
        assert(x[j as int] == '\\');
        lemma_collapse_run(k, b, j + 1);
    } else {
        assert(x[k as int] == '$');
        assert(x =~= (backslashes(k) + seq!['$']) + b);
        lemma_collapse_shift(backslashes(k) + seq!['$'], b, 0, 0);
    }
}

/// An escaped math delimiter, a run of `k` backslashes before a `'$'`, keeps
/// `k / 2` of them, whatever text stands around it; the text before it is
/// collapsed on its own (it must not end in a backslash, which would belong
/// to the run).
pub proof fn lemma_collapse_escaped_delimiter(a: Seq<char>, k: nat, b: Seq<char>)
    requires
        a.len() > 0 ==> a.last() != '\\',
    ensures
        collapse_escapes(a + backslashes(k) + seq!['$'] + b) == collapse_escapes(a) + backslashes(
            k / 2,
        ) + seq!['$'] + collapse_escapes(b),
{
    let x = backslashes(k) + seq!['$'] + b;
    assert(a + backslashes(k) + seq!['$'] + b =~= a + x);
    lemma_collapse_concat(a, x, 0, 0);
    lemma_collapse_run(k, b, 0);
    assert(collapse_escapes(a) + collapse_escapes(x) =~= collapse_escapes(a) + backslashes(k / 2)
        + seq!['$'] + collapse_escapes(b));
}

/// Text built from pieces: each piece is plain text followed by a run of
/// backslashes and a `'$'`; the text ends with `tail`.
pub open spec fn escaped_text(parts: Seq<(Seq<char>, nat)>, tail: Seq<char>) -> Seq<char>
    decreases parts.len(),
{
    if parts.len() == 0 {
        tail
    } else {
        parts[0].0 + backslashes(parts[0].1) + seq!['$'] + escaped_text(parts.drop_first(), tail)
    }
}

/// The same text with each run of `k` backslashes cut to `k / 2`.
pub open spec fn halved_text(parts: Seq<(Seq<char>, nat)>, tail: Seq<char>) -> Seq<char>
    decreases parts.len(),
{
    if parts.len() == 0 {
        tail
    } else {
        parts[0].0 + backslashes(parts[0].1 / 2) + seq!['$'] + halved_text(parts.drop_first(), tail)
    }
}

proof fn lemma_collapse_plain(p: Seq<char>, i: int)
    requires
        0 <= i <= p.len(),
        forall|x: int| 0 <= x < p.len() ==> p[x] != '\\',
    ensures
        collapse_from(p, i, 0) == p.skip(i),
    decreases p.len() - i,
{
    if i < p.len() {
        lemma_collapse_plain(p, i + 1);
        assert(backslashes(0) =~= Seq::<char>::empty());
        assert(p.skip(i) =~= seq![p[i]] + p.skip(i + 1));
        assert(collapse_from(p, i, 0) =~= p.skip(i));
    } else {
        assert(p.skip(i) =~= Seq::<char>::empty());
        assert(backslashes(0) =~= Seq::<char>::empty());
    }
}

/// Every escaped math delimiter keeps half of its backslashes: in text whose
/// only backslashes stand in runs directly before a `'$'`, each run of `k`
/// becomes a run of `k / 2`, and nothing else changes.
pub proof fn lemma_collapse_all_runs(parts: Seq<(Seq<char>, nat)>, tail: Seq<char>)
    requires
        forall|i: int, x: int|
            0 <= i < parts.len() && 0 <= x < parts[i].0.len() ==> #[trigger] parts[i].0[x]
                != '\\',
        forall|x: int| 0 <= x < tail.len() ==> tail[x] != '\\',
    ensures
        collapse_escapes(escaped_text(parts, tail)) == halved_text(parts, tail),
    decreases parts.len(),
{
    if parts.len() == 0 {
        lemma_collapse_plain(tail, 0);
        assert(tail.skip(0) =~= tail);
    } else {
        let a = parts[0].0;
        let rest = parts.drop_first();
        assert forall|i: int, x: int|
            0 <= i < rest.len() && 0 <= x < rest[i].0.len() implies #[trigger] rest[i].0[x]
            != '\\' by {
            assert(rest[i] == parts[i + 1]);
        }
        lemma_collapse_all_runs(rest, tail);
        if a.len() > 0 {
            assert(a[a.len() - 1] != '\\');
        }
        lemma_collapse_escaped_delimiter(a, parts[0].1, escaped_text(rest, tail));
        lemma_collapse_plain(a, 0);
        assert(a.skip(0) =~= a);
    }
}

proof fn lemma_embedded_from(s: Seq<char>, i: int)
    requires
        0 <= i <= s.len(),
        forall|q: int| 0 <= q < s.len() && #[trigger] s[q] == '[' ==> q > 0 && s[q - 1] == '!',
    ensures
        embed_from(s, i) == s.skip(i),
    decreases s.len() - i,
{
    if i < s.len() {
        lemma_embedded_from(s, i + 1);
        assert(s.skip(i) =~= seq![s[i]] + s.skip(i + 1));
    } else {
        assert(s.skip(i) =~= Seq::<char>::empty());
    }
}

/// A link already embedded, its `'['` directly after a `'!'`, is never
/// prefixed again: text in which every `'['` follows a `'!'` comes back
/// unchanged.
pub proof fn lemma_embedded_links_unchanged(s: Seq<char>)
    requires
        forall|q: int| 0 <= q < s.len() && #[trigger] s[q] == '[' ==> q > 0 && s[q - 1] == '!',
    ensures
        embed_images(s) == s,
{
    lemma_embedded_from(s, 0);
    assert(s.skip(0) =~= s);
}

/// An optional index moved by `d`.
pub open spec fn shifted(o: Option<int>, d: int) -> Option<int> {
    match o {
        Some(r) => Some(r + d),
        None => None,
    }
}

/// No image link reaches past index `i`: it is the end of the text, a
/// `'\n'`, a `'['`, or a `'!'` directly before a `'['`.
pub open spec fn link_stop(s: Seq<char>, i: int) -> bool {
    i == s.len() || (0 <= i < s.len() && (breaks_link(s[i]) || (s[i] == '!' && i + 1 < s.len()
        && s[i + 1] == '[')))
}

/// `s[a..a + n]` and `t[b..b + n]` are the same, and no image link reaches
/// past either.
pub open spec fn same_rest(s: Seq<char>, a: int, t: Seq<char>, b: int, n: int) -> bool {
    &&& 0 <= a && 0 <= b && 0 <= n
    &&& a + n <= s.len() && b + n <= t.len()
    &&& forall|x: int| 0 <= x < n ==> #[trigger] s[a + x] == t[b + x]
    &&& link_stop(s, a + n)
    &&& link_stop(t, b + n)
}

proof fn lemma_stop_ends_parts(s: Seq<char>, i: int)
    requires
        link_stop(s, i),
    ensures
        find_close(s, i) is None,
        find_text_end(s, i) is None,
        find_image_target_end(s, i) is None,
{
    if i < s.len() && !breaks_link(s[i]) {
        assert(breaks_link(s[i + 1]));
        assert(find_close(s, i + 1) is None);
        assert(find_text_end(s, i + 1) is None);
        assert(find_image_target_end(s, i + 1) is None);
    }
}

proof fn lemma_close_local(s: Seq<char>, a: int, t: Seq<char>, b: int, n: int, k: int)
    requires
        same_rest(s, a, t, b, n),
        0 <= k <= n,
    ensures
        find_close(s, a + k) == shifted(find_close(t, b + k), a - b),
        find_close(s, a + k) matches Some(r) ==> r < a + n,
    decreases n - k,
{
    if k < n {
        assert(s[a + k] == t[b + k]);
        lemma_close_local(s, a, t, b, n, k + 1);
    } else {
        lemma_stop_ends_parts(s, a + n);
        lemma_stop_ends_parts(t, b + n);
    }
}

proof fn lemma_text_end_local(s: Seq<char>, a: int, t: Seq<char>, b: int, n: int, k: int)
    requires
        same_rest(s, a, t, b, n),
        0 <= k <= n,
    ensures
        find_text_end(s, a + k) == shifted(find_text_end(t, b + k), a - b),
        find_text_end(s, a + k) matches Some(j) ==> j + 1 < a + n,
    decreases n - k,
{
    if k < n {
        assert(s[a + k] == t[b + k]);
        if k + 1 < n {
            assert(s[a + (k + 1)] == t[b + (k + 1)]);
        }
        lemma_text_end_local(s, a, t, b, n, k + 1);
    } else {
        lemma_stop_ends_parts(s, a + n);
        lemma_stop_ends_parts(t, b + n);
    }
}

proof fn lemma_target_local(s: Seq<char>, a: int, t: Seq<char>, b: int, n: int, k: int)
    requires
        same_rest(s, a, t, b, n),
        0 <= k <= n,
    ensures
        find_image_target_end(s, a + k) == shifted(find_image_target_end(t, b + k), a - b),
    decreases n - k,
{
    if k < n {
        assert(s[a + k] == t[b + k]);
        lemma_close_local(s, a, t, b, n, k + 1);
        if let Some(r) = find_close(s, a + k + 1) {
            lemma_find_close_bounds(s, a + k + 1);
            assert forall|y: int| 0 <= y < r - (a + k + 1) implies #[trigger] s.subrange(
                a + k + 1,
                r,
            )[y] == t.subrange(b + k + 1, r - a + b)[y] by {
                assert(s[a + (k + 1 + y)] == t[b + (k + 1 + y)]);
            }
            assert(s.subrange(a + k + 1, r) =~= t.subrange(b + k + 1, r - a + b));
        }
        lemma_target_local(s, a, t, b, n, k + 1);
    } else {
        lemma_stop_ends_parts(s, a + n);
        lemma_stop_ends_parts(t, b + n);
    }
}

proof fn lemma_pattern_local(s: Seq<char>, a: int, t: Seq<char>, b: int, n: int)
    requires
        same_rest(s, a, t, b, n),
    ensures
        image_pattern(s, a) == shifted(image_pattern(t, b), a - b),
{
    lemma_text_end_local(s, a, t, b, n, 0);
    if let Some(j) = find_text_end(s, a) {
        lemma_find_text_end_bounds(s, a);
        lemma_target_local(s, a, t, b, n, j + 2 - a);
        assert(a + (j + 2 - a) == j + 2);
        assert(b + (j + 2 - a) == j - a + b + 2);
    }
}

proof fn lemma_target_no_break(s: Seq<char>, k: int)
    ensures
        find_image_target_end(s, k) matches Some(e) ==> forall|q: int|
            k <= q < e ==> !breaks_link(#[trigger] s[q]),
    decreases s.len() - k,
{
    if 0 <= k < s.len() && !breaks_link(s[k]) {
        lemma_find_close_bounds(s, k + 1);
        lemma_target_no_break(s, k + 1);
    }
}

proof fn lemma_link_no_break(s: Seq<char>, p: int)
    ensures
        image_link_at(s, p) matches Some(e) ==> forall|q: int|
            p < q < e ==> !breaks_link(#[trigger] s[q]),
{
    lemma_find_text_end_bounds(s, p + 1);
    if let Some(j) = find_text_end(s, p + 1) {
        lemma_target_no_break(s, j + 2);
    }
}

proof fn lemma_embed_plain(s: Seq<char>, i: int, le: int)
    requires
        0 <= i <= le <= s.len(),
        forall|q: int| i <= q < le ==> #[trigger] image_link_at(s, q) is None,
    ensures
        embed_from(s, i) == s.subrange(i, le) + embed_from(s, le),
    decreases le - i,
{
    if i < le {
        lemma_embed_plain(s, i + 1, le);
        assert(s.subrange(i, le) =~= seq![s[i]] + s.subrange(i + 1, le));
    } else {
        assert(s.subrange(i, le) =~= Seq::<char>::empty());
    }
}

/// The first index from `k` on that holds a `'\n'` or a `'['`, or the length.
pub open spec fn next_break(s: Seq<char>, k: int) -> int
    decreases s.len() - k,
{
    if k >= s.len() || breaks_link(s[k]) {
        k
    } else {
        next_break(s, k + 1)
    }
}

proof fn lemma_next_break(s: Seq<char>, k: int)
    requires
        0 <= k <= s.len(),
    ensures
        k <= next_break(s, k) <= s.len(),
        next_break(s, k) < s.len() ==> breaks_link(s[next_break(s, k)]),
        forall|q: int| k <= q < next_break(s, k) ==> !breaks_link(#[trigger] s[q]),
    decreases s.len() - k,
{
    if k < s.len() && !breaks_link(s[k]) {
        lemma_next_break(s, k + 1);
    }
}

#[verifier::rlimit(40)]
proof fn lemma_embed_stable(x: Seq<char>, i: int, w: Seq<char>)
    requires
        0 <= i <= x.len(),
        i == 0 ==> w.len() == 0,
        i > 0 ==> w.len() > 0 && w.last() == x[i - 1],
    ensures
        embed_from(w + embed_from(x, i), w.len() as int) == embed_from(x, i),
    decreases x.len() - i,
{
    let z = embed_from(x, i);
    let t = w + z;
    let m = w.len() as int;
    if i == x.len() {
        assert(t =~= w);
    } else {
        lemma_image_link_bounds(x, i);
        match image_link_at(x, i) {
            Some(e) => {
                let r = x.subrange(i, e);
                let ze = embed_from(x, e);
                assert(z == seq!['!'] + r + ze);
                lemma_link_no_break(x, i);
                let w2 = w + seq!['!'] + r;
                assert(t =~= w2 + ze);
                assert(w2.last() == x[e - 1]);
                lemma_embed_stable(x, e, w2);
                let n = e - i;
                assert forall|q: int| m <= q < m + 1 + n implies #[trigger] image_link_at(t, q)
                    is None by {
                    if q == m {
                        assert(t[q] == '!');
                    } else if q == m + 1 {
                        assert(t[q - 1] == '!');
                    } else {
                        assert(t[q] == x[i + (q - m - 1)]);
                    }
                }
                lemma_embed_plain(t, m, m + 1 + n);
                assert(t.subrange(m, m + 1 + n) =~= seq!['!'] + r);
                assert(w2.len() == m + 1 + n);
                assert(embed_from(t, m) =~= z);
            },
            None => {
                let z1 = embed_from(x, i + 1);
                assert(z == seq![x[i]] + z1);
                let w2 = w + seq![x[i]];
                assert(t =~= w2 + z1);
                lemma_embed_stable(x, i + 1, w2);
                assert(t[m] == x[i]);
                if x[i] == '[' && !(i > 0 && x[i - 1] == '!') {
                    let bb = next_break(x, i + 1);
                    lemma_next_break(x, i + 1);
                    assert forall|q: int| i <= q < bb implies #[trigger] image_link_at(x, q)
                        is None by {
                        if q > i {
                            assert(!breaks_link(x[q]));
                        }
                    }
                    lemma_embed_plain(x, i, bb);
                    let zb = embed_from(x, bb);
                    assert(z == x.subrange(i, bb) + zb);
                    assert forall|y: int| 0 <= y < bb - i - 1 implies #[trigger] x[(i + 1) + y]
                        == t[(m + 1) + y] by {
                        assert(t[(m + 1) + y] == z[1 + y]);
                    }
                    if bb < x.len() {
                        lemma_image_link_bounds(x, bb);
                        assert(t[(m + 1) + (bb - i - 1)] == zb[0]);
                        if image_link_at(x, bb) is Some {
                            assert(zb[0] == '!');
                            assert(zb[1] == x[bb]);
                            assert(t[(m + 1) + (bb - i - 1) + 1] == zb[1]);
                        } else {
                            assert(zb[0] == x[bb]);
                        }
                    } else {
                        assert(zb.len() == 0);
                    }
                    lemma_pattern_local(x, i + 1, t, m + 1, bb - i - 1);
                    if i > 0 {
                        assert(t[m - 1] == w.last());
                    }
                    assert(image_link_at(t, m) is None);
                }
                assert(embed_from(t, m) =~= z);
            },
        }
    }
}

/// Embedding image links twice gives what embedding them once gives: an
/// embedded link is not prefixed again, and no new link appears.
pub proof fn lemma_embed_images_idempotent(x: Seq<char>)
    ensures
        embed_images(embed_images(x)) == embed_images(x),
{
    lemma_embed_stable(x, 0, Seq::empty());
    assert(Seq::<char>::empty() + embed_images(x) =~= embed_images(x));
}

/// How many `'$'` characters `s` holds.
pub open spec fn dollar_count(s: Seq<char>) -> nat
    decreases s.len(),
{
    if s.len() == 0 {
        0
    } else {
        dollar_count(s.drop_last()) + if s.last() == '$' {
            1nat
        } else {
            0nat
        }
    }
}

proof fn lemma_dollar_count_concat(a: Seq<char>, b: Seq<char>)
    ensures
        dollar_count(a + b) == dollar_count(a) + dollar_count(b),
    decreases b.len(),
{
    if b.len() == 0 {
        assert(a + b =~= a);
    } else {
        assert((a + b).drop_last() =~= a + b.drop_last());
        lemma_dollar_count_concat(a, b.drop_last());
    }
}

proof fn lemma_backslashes_no_dollar(k: nat)
    ensures
        dollar_count(backslashes(k)) == 0,
    decreases k,
{
    if k > 0 {
        assert(backslashes(k).drop_last() =~= backslashes((k - 1) as nat));
        lemma_backslashes_no_dollar((k - 1) as nat);
    } else {
        assert(backslashes(k).len() == 0);
    }
}

proof fn lemma_one_char_count(c: char)
    ensures
        dollar_count(seq![c]) == if c == '$' {
            1nat
        } else {
            0nat
        },
{
    assert(seq![c].drop_last() =~= Seq::<char>::empty());
    assert(dollar_count(Seq::<char>::empty()) == 0);
    assert(seq![c].last() == c);
    assert(dollar_count(seq![c]) == dollar_count(seq![c].drop_last()) + if c == '$' {
        1nat
    } else {
        0nat
    });
}

proof fn lemma_collapse_count(s: Seq<char>, i: int, k: nat)
    requires
        0 <= i <= s.len(),
    ensures
        dollar_count(collapse_from(s, i, k)) == dollar_count(s.skip(i)),
    decreases s.len() - i,
{
    if i == s.len() {
        lemma_backslashes_no_dollar(k);
        assert(s.skip(i).len() == 0);
    } else {
        assert(s.skip(i) =~= seq![s[i]] + s.skip(i + 1));
        lemma_dollar_count_concat(seq![s[i]], s.skip(i + 1));
        lemma_one_char_count(s[i]);
        if s[i] == '\\' {
            lemma_collapse_count(s, i + 1, k + 1);
        } else {
            lemma_collapse_count(s, i + 1, 0);
            let n: nat = if s[i] == '$' {
                k / 2
            } else {
                k
            };
            lemma_backslashes_no_dollar(n);
            lemma_dollar_count_concat(backslashes(n), seq![s[i]]);
            lemma_dollar_count_concat(backslashes(n) + seq![s[i]], collapse_from(s, i + 1, 0));
        }
    }
}

proof fn lemma_embed_count(s: Seq<char>, i: int)
    requires
        0 <= i <= s.len(),
    ensures
        dollar_count(embed_from(s, i)) == dollar_count(s.skip(i)),
    decreases s.len() - i,
{
    if i < s.len() {
        lemma_image_link_bounds(s, i);
        lemma_one_char_count('!');
        match image_link_at(s, i) {
            Some(e) => {
                lemma_embed_count(s, e);
                assert(s.skip(i) =~= s.subrange(i, e) + s.skip(e));
                lemma_dollar_count_concat(s.subrange(i, e), s.skip(e));
                lemma_dollar_count_concat(seq!['!'], s.subrange(i, e));
                lemma_dollar_count_concat(seq!['!'] + s.subrange(i, e), embed_from(s, e));
            },
            None => {
                lemma_embed_count(s, i + 1);
                assert(s.skip(i) =~= seq![s[i]] + s.skip(i + 1));
                lemma_dollar_count_concat(seq![s[i]], s.skip(i + 1));
                lemma_dollar_count_concat(seq![s[i]], embed_from(s, i + 1));
            },
        }
    } else {
        assert(s.skip(i).len() == 0);
    }
}

/// The paragraph repair keeps every `'$'`: escaped delimiters lose only
/// backslashes, and embedding images only adds `'!'`.
pub proof fn lemma_paragraph_keeps_dollars(s: Seq<char>)
    ensures
        dollar_count(embed_images(collapse_escapes(s))) == dollar_count(s),
{
    lemma_collapse_count(s, 0, 0);
    lemma_embed_count(collapse_escapes(s), 0);
    assert(s.skip(0) =~= s);
    assert(collapse_escapes(s).skip(0) =~= collapse_escapes(s));
}

} // verus!
