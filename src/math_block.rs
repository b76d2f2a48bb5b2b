//! The math block repair: `$$`, a line `$...$`, `$$` becomes `$$`, the bare
//! formula, `$$`.

use vstd::prelude::*;
use crate::text::{
    chars_of, drop_last_line, last_newline, lemma_unix_lines_plain, lemma_line_end_bounds, line_end, occurs, occurs_at, push_range,
    string_of, without_last_line,
};

verus! {

/// `s` without its leading `'$'` characters.
pub open spec fn strip_lead_dollars(s: Seq<char>) -> Seq<char>
    decreases s.len(),
{
    if s.len() > 0 && s[0] == '$' {
        strip_lead_dollars(s.drop_first())
    } else {
        s
    }
}

/// `s` without its trailing `'$'` characters.
pub open spec fn strip_trail_dollars(s: Seq<char>) -> Seq<char>
    decreases s.len(),
{
    if s.len() > 0 && s.last() == '$' {
        strip_trail_dollars(s.drop_last())
    } else {
        s
    }
}

/// A line stripped of the `'$'` characters at either end.
pub open spec fn strip_dollars(s: Seq<char>) -> Seq<char> {
    strip_trail_dollars(strip_lead_dollars(s))
}

/// Where a math block starts at `i`: a line `$$`, one more line, then `$$`.
/// The result is the index of the `'\n'` that ends the inner line.
pub open spec fn math_at(s: Seq<char>, i: int) -> Option<int> {
    if occurs_at(s, i, seq!['$', '$', '\n']) {
        let nl = line_end(s, i + 3);
        if nl + 2 < s.len() && s[nl + 1] == '$' && s[nl + 2] == '$' {
            Some(nl)
        } else {
            None
        }
    } else {
        None
    }
}

/// `s[i..]` with each math block put in the form `$$`, formula, `$$`; the
/// blocks are taken from left to right and do not overlap.
pub open spec fn math_from(s: Seq<char>, i: int) -> Seq<char>
    decreases s.len() - i,
{
    if i < 0 || i >= s.len() {
        Seq::empty()
    } else {
        proof {
            if occurs_at(s, i, seq!['$', '$', '\n']) {
                lemma_line_end_bounds(s, i + 3);
            }
        }
        match math_at(s, i) {
            Some(nl) => seq!['$', '$', '\n'] + strip_dollars(s.subrange(i + 3, nl)) + seq![
                '\n',
                '$',
                '$',
            ] + math_from(s, nl + 3),
            None => seq![s[i]] + math_from(s, i + 1),
        }
    }
}

/// The math block repair of a whole text.
pub open spec fn normalize_math(s: Seq<char>) -> Seq<char> {
    math_from(s, 0)
}

fn math_span(s: &Vec<char>, i: usize) -> (r: Option<usize>)
    requires
        i < s@.len(),
    ensures
        match r {
            Some(nl) => math_at(s@, i as int) == Some(nl as int) && i + 3 <= nl && nl + 3 <= s@.len(),
            None => math_at(s@, i as int) is None,
        },
{
    let n = s.len();
    let open = vec!['$', '$', '\n'];
    assert(open@ =~= seq!['$', '$', '\n']);
    if !occurs(s, i, &open) {
        return None;
    }
    let mut nl: usize = i + 3;
    while nl < s.len() && s[nl] != '\n'
        invariant
            i + 3 <= nl <= s@.len(),
            n == s@.len(),
            line_end(s@, i + 3) == line_end(s@, nl as int),
        decreases s@.len() - nl,
    {
        nl = nl + 1;
    }
    if nl < n && n - nl > 2 && s[nl + 1] == '$' && s[nl + 2] == '$' {
        Some(nl)
    } else {
        None
    }
}

fn push_stripped(out: &mut Vec<char>, s: &Vec<char>, lo: usize, hi: usize)
    requires
        lo <= hi <= s@.len(),
    ensures
        final(out)@ == old(out)@ + strip_dollars(s@.subrange(lo as int, hi as int)),
{
    let mut a: usize = lo;
    while a < hi && s[a] == '$'
        invariant
            lo <= a <= hi <= s@.len(),
            strip_lead_dollars(s@.subrange(lo as int, hi as int)) == strip_lead_dollars(
                s@.subrange(a as int, hi as int),
            ),
        decreases hi - a,
    {
        assert(s@.subrange(a as int, hi as int).drop_first() =~= s@.subrange(a + 1, hi as int));
        a = a + 1;
    }
    let mut z: usize = hi;
    while z > a && s[z - 1] == '$'
        invariant
            lo <= a <= z <= hi <= s@.len(),
            strip_trail_dollars(s@.subrange(a as int, hi as int)) == strip_trail_dollars(
                s@.subrange(a as int, z as int),
            ),
        decreases z,
    {
        assert(s@.subrange(a as int, z as int).drop_last() =~= s@.subrange(a as int, z - 1));
        z = z - 1;
    }
    push_range(out, s, a, z);
}

/// Repairs a math block's content: drops its last line (the attribute line)
/// and puts each `$$` / `$...$` / `$$` block in the form `$$` / `...` / `$$`.
pub fn update_node_math_block(data: &str) -> (r: String)
    ensures
        r@ == normalize_math(drop_last_line(data@)),
{
    let full = chars_of(data);
    let s = without_last_line(&full);
    let mut out: Vec<char> = Vec::new();
    let mut i: usize = 0;
    while i < s.len()
        invariant
            i <= s@.len(),
            out@ + math_from(s@, i as int) == math_from(s@, 0),
        decreases s@.len() - i,
    {
        match math_span(&s, i) {
            Some(nl) => {
                let ghost before = out@;
                out.push('$');
                out.push('$');
                out.push('\n');
                push_stripped(&mut out, &s, i + 3, nl);
                out.push('\n');
                out.push('$');
                out.push('$');
                assert(out@ =~= before + (seq!['$', '$', '\n'] + strip_dollars(
                    s@.subrange(i + 3, nl as int),
                ) + seq!['\n', '$', '$']));
                assert(out@ + math_from(s@, nl + 3) =~= before + math_from(s@, i as int));
                i = nl + 3;
            },
            None => {
                let ghost before = out@;
                out.push(s[i]);
                assert(out@ + math_from(s@, i + 1) =~= before + math_from(s@, i as int));
                i = i + 1;
            },
        }
    }
    assert(out@ =~= out@ + math_from(s@, s@.len() as int));
    string_of(&out)
}

/// A line that is exactly `$$` starts at `i`.
pub open spec fn delimiter_line_at(s: Seq<char>, i: int) -> bool {
    &&& 0 <= i && i + 2 <= s.len()
    &&& i == 0 || s[i - 1] == '\n'
    &&& s[i] == '$' && s[i + 1] == '$'
    &&& i + 2 == s.len() || s[i + 2] == '\n'
}

/// The first index from `k` on where a `$$` line starts.
pub open spec fn next_delimiter_line(s: Seq<char>, k: int) -> Option<int>
    decreases s.len() - k,
{
    if k < 0 || k >= s.len() {
        None
    } else if delimiter_line_at(s, k) {
        Some(k)
    } else {
        next_delimiter_line(s, k + 1)
    }
}

pub proof fn lemma_next_delimiter_bounds(s: Seq<char>, k: int)
    ensures
        next_delimiter_line(s, k) matches Some(j) ==> k <= j && delimiter_line_at(s, j),
    decreases s.len() - k,
{
    if 0 <= k < s.len() && !delimiter_line_at(s, k) {
        lemma_next_delimiter_bounds(s, k + 1);
    }
}

/// Scanning `s[i..]` for math blocks as `math_from` does, and taking a `$$`
/// line that opens no single-line block to run until the next `$$` line, a
/// `$$` line is met that no later `$$` line closes.
pub open spec fn unclosed_from(s: Seq<char>, i: int) -> bool
    decreases s.len() - i,
{
    if i < 0 || i >= s.len() {
        false
    } else {
        proof {
            if occurs_at(s, i, seq!['$', '$', '\n']) {
                lemma_line_end_bounds(s, i + 3);
            }
            lemma_next_delimiter_bounds(s, i + 1);
        }
        match math_at(s, i) {
            Some(nl) => unclosed_from(s, nl + 3),
            None => if delimiter_line_at(s, i) {
                match next_delimiter_line(s, i + 1) {
                    Some(j) => unclosed_from(s, j + 2),
                    None => true,
                }
            } else {
                unclosed_from(s, i + 1)
            },
        }
    }
}

/// The text holds a `$$` line that no later `$$` line closes.
pub open spec fn math_unclosed(s: Seq<char>) -> bool {
    unclosed_from(s, 0)
}

fn delimiter_line(s: &Vec<char>, i: usize) -> (r: bool)
    requires
        i < s@.len(),
    ensures
        r == delimiter_line_at(s@, i as int),
{
    let n = s.len();
    (i == 0 || s[i - 1] == '\n') && n - i >= 2 && s[i] == '$' && s[i + 1] == '$' && (n - i == 2
        || s[i + 2] == '\n')
}

/// Whether a math block's content, without its last line (the attribute
/// line), holds a `$$` line that no later `$$` line closes.
pub fn math_block_unclosed(data: &str) -> (r: bool)
    ensures
        r == math_unclosed(drop_last_line(data@)),
{
    let full = chars_of(data);
    let s = without_last_line(&full);
    let n = s.len();
    let mut i: usize = 0;
    while i < n
        invariant
            i <= s@.len(),
            n == s@.len(),
            s@ == drop_last_line(data@),
            unclosed_from(s@, i as int) == math_unclosed(s@),
        decreases s@.len() - i,
    {
        match math_span(&s, i) {
            Some(nl) => {
                i = nl + 3;
            },
            None => {
                if delimiter_line(&s, i) {
                    let mut j: usize = i + 1;
                    while j < n && !delimiter_line(&s, j)
                        invariant
                            i < j <= n,
                            n == s@.len(),
                            next_delimiter_line(s@, i + 1) == next_delimiter_line(s@, j as int),
                        decreases n - j,
                    {
                        j = j + 1;
                    }
                    if j == n {
                        return true;
                    }
                    i = j + 2;
                } else {
                    i = i + 1;
                }
            },
        }
    }
    false
}

/// `n` dollar signs.
pub open spec fn dollars(n: nat) -> Seq<char> {
    Seq::new(n, |_x: int| '$')
}

proof fn lemma_strip_lead(a: nat, r: Seq<char>)
    ensures
        strip_lead_dollars(dollars(a) + r) == strip_lead_dollars(r),
    decreases a,
{
    if a > 0 {
        assert((dollars(a) + r).drop_first() =~= dollars((a - 1) as nat) + r);
        lemma_strip_lead((a - 1) as nat, r);
    } else {
        assert(dollars(a) + r =~= r);
    }
}

proof fn lemma_strip_trail(r: Seq<char>, b: nat)
    ensures
        strip_trail_dollars(r + dollars(b)) == strip_trail_dollars(r),
    decreases b,
{
    if b > 0 {
        assert((r + dollars(b)).drop_last() =~= r + dollars((b - 1) as nat));
        lemma_strip_trail(r, (b - 1) as nat);
    } else {
        assert(r + dollars(b) =~= r);
    }
}

proof fn lemma_last_newline_at(s: Seq<char>, end: int, k: int)
    requires
        0 <= k < end <= s.len(),
        s[k] == '\n',
        forall|x: int| k < x < end ==> s[x] != '\n',
    ensures
        last_newline(s, end) == k,
    decreases end,
{
    if end - 1 > k {
        lemma_last_newline_at(s, end - 1, k);
    }
}

proof fn lemma_line_end_at(s: Seq<char>, k: int, e: int)
    requires
        0 <= k <= e < s.len(),
        s[e] == '\n',
        forall|x: int| k <= x < e ==> s[x] != '\n',
    ensures
        line_end(s, k) == e,
    decreases e - k,
{
    if k < e {
        lemma_line_end_at(s, k + 1, e);
    }
}

proof fn lemma_strip_shape(a: nat, body: Seq<char>, b: nat)
    requires
        forall|x: int| 0 <= x < body.len() ==> body[x] != '$',
    ensures
        strip_dollars(dollars(a) + body + dollars(b)) == body,
{
    lemma_strip_lead(a, body + dollars(b));
    assert(dollars(a) + body + dollars(b) =~= dollars(a) + (body + dollars(b)));
    lemma_strip_trail(body, b);
    if body.len() > 0 {
        assert((body + dollars(b))[0] == body[0]);
        assert(strip_lead_dollars(body + dollars(b)) == body + dollars(b));
        assert(body.last() == body[body.len() - 1]);
        assert(strip_trail_dollars(body) == body);
    } else {
        assert(body + dollars(b) =~= Seq::<char>::empty() + dollars(b));
        lemma_strip_lead(b, Seq::<char>::empty());
        assert(dollars(b) + Seq::<char>::empty() =~= dollars(b));
        assert(strip_lead_dollars(Seq::<char>::empty()) =~= body);
        assert(strip_trail_dollars(body) == body);
    }
}

proof fn lemma_math_plain(s: Seq<char>, i: int, k: int)
    requires
        0 <= i <= k <= s.len(),
        forall|x: int| i <= x < k ==> s[x] != '$',
    ensures
        math_from(s, i) == s.subrange(i, k) + math_from(s, k),
        unclosed_from(s, i) == unclosed_from(s, k),
    decreases k - i,
{
    if i < k {
        if i + 3 <= s.len() {
            assert(s.subrange(i, i + 3)[0] == s[i]);
        }
        assert(math_at(s, i) is None);
        lemma_math_plain(s, i + 1, k);
        assert(s.subrange(i, k) =~= seq![s[i]] + s.subrange(i + 1, k));
    } else {
        assert(s.subrange(i, k) =~= Seq::<char>::empty());
    }
}

/// A math block of the expected shape, anywhere between whole lines of text
/// without `'$'` (and without `'\r'`, so that every line ends at `'\n'`): a line `$$`, a line holding a formula (no `'$'` in it)
/// between any number of `'$'` on either side, a line `$$`; the content ends
/// with the attribute line. It comes out as exactly `$$`, the formula, `$$`,
/// with the text around it unchanged: two delimiter lines and no `'$'`
/// between them. Such content is never reported as unclosed.
#[verifier::rlimit(80)]
pub proof fn lemma_math_block_shape(
    pre: Seq<char>,
    a: nat,
    body: Seq<char>,
    b: nat,
    post: Seq<char>,
    attrs: Seq<char>,
)
    requires
        forall|x: int| 0 <= x < pre.len() ==> pre[x] != '$' && pre[x] != '\r',
        pre.len() == 0 || pre.last() == '\n',
        forall|x: int| 0 <= x < body.len() ==> body[x] != '$' && body[x] != '\n' && body[x]
            != '\r',
        forall|x: int| 0 <= x < post.len() ==> post[x] != '$' && post[x] != '\r',
        post.len() == 0 || post[0] == '\n',
        attrs.len() > 0,
        forall|x: int| 0 <= x < attrs.len() ==> attrs[x] != '\n',
    ensures
        normalize_math(
            drop_last_line(
                pre + seq!['$', '$', '\n'] + dollars(a) + body + dollars(b) + seq!['\n', '$', '$']
                    + post + seq!['\n'] + attrs,
            ),
        ) == pre + seq!['$', '$', '\n'] + body + seq!['\n', '$', '$'] + post,
        !math_unclosed(
            drop_last_line(
                pre + seq!['$', '$', '\n'] + dollars(a) + body + dollars(b) + seq!['\n', '$', '$']
                    + post + seq!['\n'] + attrs,
            ),
        ),
{
    let l = dollars(a) + body + dollars(b);
    let block = seq!['$', '$', '\n'] + l + seq!['\n', '$', '$'];
    let y = pre + block + post;
    let x = pre + seq!['$', '$', '\n'] + dollars(a) + body + dollars(b) + seq!['\n', '$', '$']
        + post + seq!['\n'] + attrs;
    assert(x =~= y + seq!['\n'] + attrs);
    assert(x.last() == attrs.last());
    assert forall|i: int| y.len() < i < x.len() implies x[i] != '\n' by {
        assert(x[i] == attrs[i - y.len() - 1]);
    }
    lemma_last_newline_at(x, x.len() as int, y.len() as int);
    assert forall|i: int| 0 <= i < y.len() implies x[i] != '\r' by {
        assert(x[i] == y[i]);
        if i < pre.len() {
            assert(y[i] == pre[i]);
        } else if i < pre.len() + block.len() {
            let q = i - pre.len();
            assert(y[i] == block[q]);
            if 3 <= q < 3 + l.len() {
                assert(block[q] == l[q - 3]);
                if q - 3 >= a && q - 3 < a + body.len() {
                    assert(l[q - 3] == body[q - 3 - a]);
                }
            }
        } else {
            assert(y[i] == post[i - pre.len() - block.len()]);
        }
    }
    lemma_unix_lines_plain(x, y.len() as int);
    assert(x.take(y.len() as int) =~= y);
    assert(drop_last_line(x) == y);
    let p = pre.len() as int;
    let nl: int = p + 3 + l.len() as int;
    let end: int = nl + 3;
    assert(end == p + block.len());
    assert forall|i: int| 0 <= i < p implies y[i] != '$' by {
        assert(y[i] == pre[i]);
    }
    lemma_math_plain(y, 0, p);
    assert forall|i: int| end <= i < y.len() implies y[i] != '$' by {
        assert(y[i] == post[i - end]);
    }
    lemma_math_plain(y, end, y.len() as int);
    assert forall|i: int| p + 3 <= i < nl implies y[i] != '\n' by {
        assert(y[i] == l[i - p - 3]);
        if i - p - 3 < a {
        } else if i - p - 3 < a + body.len() {
            assert(l[i - p - 3] == body[i - p - 3 - a]);
        } else {
        }
    }
    assert(y[nl] == '\n');
    lemma_line_end_at(y, p + 3, nl);
    assert(y.subrange(p, p + 3) =~= seq!['$', '$', '\n']);
    assert(y[nl + 1] == '$' && y[nl + 2] == '$');
    assert(math_at(y, p) == Some(nl));
    assert(y.subrange(p + 3, nl) =~= l);
    lemma_strip_shape(a, body, b);
    assert(y.subrange(0, p) =~= pre);
    assert(y.subrange(end, y.len() as int) =~= post);
    assert(math_from(y, y.len() as int) =~= Seq::<char>::empty());
    assert(math_from(y, 0) =~= pre + seq!['$', '$', '\n'] + body + seq!['\n', '$', '$'] + post);
    assert(!unclosed_from(y, y.len() as int));
}

} // verus!
