//! Character-level helpers shared by the content transforms.

use vstd::prelude::*;
use vstd::std_specs::iter::IteratorSpec;

verus! {

/// The characters of `s`, in order.
pub(crate) fn chars_of(s: &str) -> (r: Vec<char>)
    ensures
        r@ == s@,
{
    broadcast use vstd::string::group_string_axioms;

    let mut it = s.chars();
    let mut r: Vec<char> = Vec::new();
    loop
        invariant
            r@ + it.remaining() == s@,
            it.obeys_prophetic_iter_laws(),
            it.decrease() is Some,
        ensures
            r@ == s@,
        decreases it.decrease()->0,
    {
        match it.next() {
            Some(c) => {
                r.push(c);
            },
            None => {
                break;
            },
        }
    }
    r
}

/// Relies on `String: FromIterator<char>`: the string made of `v`'s characters, in order.
#[verifier::external_body]
pub(crate) fn string_of(v: &Vec<char>) -> (r: String)
    ensures
        r@ == v@,
{
    v.iter().collect()
}

/// Unicode white space (the `White_Space` property, as `char::is_whitespace` uses it).
pub open spec fn is_white(c: char) -> bool {
    let u = c as u32;
    (0x9 <= u && u <= 0xD) || u == 0x20 || u == 0x85 || u == 0xA0 || u == 0x1680
        || (0x2000 <= u && u <= 0x200A) || u == 0x2028 || u == 0x2029 || u == 0x202F
        || u == 0x205F || u == 0x3000
}

pub fn white(c: char) -> (r: bool)
    ensures
        r == is_white(c),
{
    let u = c as u32;
    (0x9 <= u && u <= 0xD) || u == 0x20 || u == 0x85 || u == 0xA0 || u == 0x1680
        || (0x2000 <= u && u <= 0x200A) || u == 0x2028 || u == 0x2029 || u == 0x202F
        || u == 0x205F || u == 0x3000
}

/// `s` without its leading white space.
pub open spec fn trim_start(s: Seq<char>) -> Seq<char>
    decreases s.len(),
{
    if s.len() > 0 && is_white(s[0]) {
        trim_start(s.drop_first())
    } else {
        s
    }
}

/// `s` without its trailing white space.
pub open spec fn trim_end(s: Seq<char>) -> Seq<char>
    decreases s.len(),
{
    if s.len() > 0 && is_white(s.last()) {
        trim_end(s.drop_last())
    } else {
        s
    }
}

/// `s` without white space at either end.
pub open spec fn trim(s: Seq<char>) -> Seq<char> {
    trim_end(trim_start(s))
}

/// The characters `s[lo..hi]` with white space removed from both ends.
pub fn trimmed(s: &Vec<char>, lo: usize, hi: usize) -> (r: Vec<char>)
    requires
        lo <= hi <= s@.len(),
    ensures
        r@ == trim(s@.subrange(lo as int, hi as int)),
{
    let mut i: usize = lo;
    while i < hi && white(s[i])
        invariant
            lo <= i <= hi <= s@.len(),
            trim_start(s@.subrange(lo as int, hi as int)) == trim_start(
                s@.subrange(i as int, hi as int),
            ),
        decreases hi - i,
    {
        assert(s@.subrange(i as int, hi as int).drop_first() =~= s@.subrange(
            i + 1,
            hi as int,
        ));
        i = i + 1;
    }
    let mut j: usize = hi;
    while j > i && white(s[j - 1])
        invariant
            lo <= i <= j <= hi <= s@.len(),
            trim_end(s@.subrange(i as int, hi as int)) == trim_end(
                s@.subrange(i as int, j as int),
            ),
        decreases j,
    {
        assert(s@.subrange(i as int, j as int).drop_last() =~= s@.subrange(
            i as int,
            j - 1,
        ));
        j = j - 1;
    }
    let mut r: Vec<char> = Vec::new();
    let mut k: usize = i;
    while k < j
        invariant
            i <= k <= j <= s@.len(),
            r@ == s@.subrange(i as int, k as int),
        decreases j - k,
    {
        r.push(s[k]);
        k = k + 1;
        assert(r@ =~= s@.subrange(i as int, k as int));
    }
    r
}

/// Appends `s[lo..hi]` to `out`.
pub fn push_range(out: &mut Vec<char>, s: &Vec<char>, lo: usize, hi: usize)
    requires
        lo <= hi <= s@.len(),
    ensures
        final(out)@ == old(out)@ + s@.subrange(lo as int, hi as int),
{
    let mut k: usize = lo;
    while k < hi
        invariant
            lo <= k <= hi <= s@.len(),
            out@ == old(out)@ + s@.subrange(lo as int, k as int),
        decreases hi - k,
    {
        out.push(s[k]);
        k = k + 1;
        assert(out@ =~= old(out)@ + s@.subrange(lo as int, k as int));
    }
}

/// Appends all of `t` to `out`.
pub fn push_all(out: &mut Vec<char>, t: &Vec<char>)
    ensures
        final(out)@ == old(out)@ + t@,
{
    push_range(out, t, 0, t.len());
    assert(t@.subrange(0, t@.len() as int) =~= t@);
}

/// Index of the last `'\n'` in `s[0..end]`, or -1 where there is none.
pub open spec fn last_newline(s: Seq<char>, end: int) -> int
    decreases end,
{
    if end <= 0 {
        -1
    } else if s[end - 1] == '\n' {
        end - 1
    } else {
        last_newline(s, end - 1)
    }
}

/// The characters of `s[0..n]`, leaving out each `'\r'` that stands directly
/// before a `'\n'` of `s`.
pub open spec fn unix_lines(s: Seq<char>, n: int) -> Seq<char>
    decreases n,
{
    if n <= 0 {
        Seq::empty()
    } else if s[n - 1] == '\r' && n < s.len() && s[n] == '\n' {
        unix_lines(s, n - 1)
    } else {
        unix_lines(s, n - 1).push(s[n - 1])
    }
}

/// The text of `s` without its last line, its lines joined by `'\n'`. A line
/// ends at `'\n'` or at `"\r\n"`, and a final line ending does not start
/// another line.
pub open spec fn drop_last_line(s: Seq<char>) -> Seq<char> {
    let t = if s.len() > 0 && s.last() == '\n' {
        s.drop_last()
    } else {
        s
    };
    let k = last_newline(t, t.len() as int);
    if k >= 0 {
        unix_lines(t, k)
    } else {
        Seq::empty()
    }
}

/// `s` without its last line.
pub fn without_last_line(s: &Vec<char>) -> (r: Vec<char>)
    ensures
        r@ == drop_last_line(s@),
{
    let mut t: usize = s.len();
    if t > 0 && s[t - 1] == '\n' {
        t = t - 1;
    }
    let ghost tv = if s@.len() > 0 && s@.last() == '\n' {
        s@.drop_last()
    } else {
        s@
    };
    assert(tv =~= s@.take(t as int));
    let mut k: usize = t;
    while k > 0 && s[k - 1] != '\n'
        invariant
            k <= t <= s@.len(),
            tv == s@.take(t as int),
            last_newline(tv, t as int) == last_newline(tv, k as int),
        decreases k,
    {
        k = k - 1;
    }
    let mut r: Vec<char> = Vec::new();
    if k > 0 {
        let mut n: usize = 0;
        while n < k - 1
            invariant
                0 < k <= t <= s@.len(),
                tv == s@.take(t as int),
                n <= k - 1,
                r@ == unix_lines(tv, n as int),
            decreases k - 1 - n,
        {
            if !(s[n] == '\r' && n + 1 < t && s[n + 1] == '\n') {
                r.push(s[n]);
            }
            n = n + 1;
        }
    } else {
        assert(r@ =~= Seq::<char>::empty());
    }
    r
}

/// With no `'\r'` in `s[0..n]`, nothing is left out.
pub proof fn lemma_unix_lines_plain(s: Seq<char>, n: int)
    requires
        0 <= n <= s.len(),
        forall|x: int| 0 <= x < n ==> s[x] != '\r',
    ensures
        unix_lines(s, n) == s.take(n),
    decreases n,
{
    if n > 0 {
        lemma_unix_lines_plain(s, n - 1);
        assert(s.take(n) =~= s.take(n - 1).push(s[n - 1]));
    } else {
        assert(s.take(n) =~= Seq::<char>::empty());
    }
}

/// An optional index, widened to `int`.
pub open spec fn wide(o: Option<usize>) -> Option<int> {
    match o {
        Some(x) => Some(x as int),
        None => None,
    }
}

/// `m` stands in `s` from index `i` on.
pub open spec fn occurs_at(s: Seq<char>, i: int, m: Seq<char>) -> bool {
    0 <= i && i + m.len() <= s.len() && s.subrange(i, i + m.len()) == m
}

pub fn occurs(s: &Vec<char>, i: usize, m: &Vec<char>) -> (r: bool)
    ensures
        r == occurs_at(s@, i as int, m@),
{
    if i > s.len() || m.len() > s.len() - i {
        return false;
    }
    let mut k: usize = 0;
    while k < m.len()
        invariant
            i <= s@.len() <= usize::MAX,
            m@.len() <= s@.len() - i,
            k <= m@.len(),
            forall|x: int| 0 <= x < k ==> s@[i + x] == m@[x],
        decreases m@.len() - k,
    {
        if s[i + k] != m[k] {
            assert(s@.subrange(i as int, i + m@.len())[k as int] != m@[k as int]);
            return false;
        }
        k = k + 1;
    }
    assert(s@.subrange(i as int, i + m@.len()) =~= m@);
    true
}

/// `p` can be had from `t` by leaving characters out.
pub open spec fn is_subseq(p: Seq<char>, t: Seq<char>) -> bool
    decreases t.len(),
{
    if p.len() == 0 {
        true
    } else if t.len() == 0 {
        false
    } else if t[0] == p[0] {
        is_subseq(p.drop_first(), t.drop_first())
    } else {
        is_subseq(p, t.drop_first())
    }
}

/// Whether `p` is a subsequence of `s[k..]`.
pub fn subseq_from(s: &Vec<char>, k: usize, p: &Vec<char>) -> (r: bool)
    requires
        k <= s@.len(),
    ensures
        r == is_subseq(p@, s@.skip(k as int)),
{
    let mut i: usize = k;
    let mut j: usize = 0;
    assert(p@.skip(0) =~= p@);
    while i < s.len() && j < p.len()
        invariant
            k <= i <= s@.len(),
            j <= p@.len(),
            is_subseq(p@, s@.skip(k as int)) == is_subseq(p@.skip(j as int), s@.skip(i as int)),
        decreases s@.len() - i,
    {
        assert(s@.skip(i as int).drop_first() =~= s@.skip(i + 1));
        assert(p@.skip(j as int).drop_first() =~= p@.skip(j + 1));
        if s[i] == p[j] {
            j = j + 1;
        }
        i = i + 1;
    }
    j == p.len()
}

/// First index `r >= k` with `s[r] == c` such that no `'\n'` stands in `s[k..r]`.
pub open spec fn find_on_line(s: Seq<char>, k: int, c: char) -> Option<int>
    decreases s.len() - k,
{
    if k < 0 || k >= s.len() || s[k] == '\n' {
        None
    } else if s[k] == c {
        Some(k)
    } else {
        find_on_line(s, k + 1, c)
    }
}

pub fn char_on_line(s: &Vec<char>, k: usize, c: char) -> (r: Option<usize>)
    ensures
        wide(r) == find_on_line(s@, k as int, c),
{
    let mut i: usize = k;
    while i < s.len()
        invariant
            k <= i,
            find_on_line(s@, k as int, c) == find_on_line(s@, i as int, c),
        decreases s@.len() - i,
    {
        if s[i] == '\n' {
            return None;
        }
        if s[i] == c {
            return Some(i);
        }
        i = i + 1;
    }
    None
}

/// First index `j >= k` where `"]("` starts, with no `'\n'` in `s[k..j]`.
pub open spec fn find_open(s: Seq<char>, k: int) -> Option<int>
    decreases s.len() - k,
{
    if k < 0 || k >= s.len() || s[k] == '\n' {
        None
    } else if s[k] == ']' && k + 1 < s.len() && s[k + 1] == '(' {
        Some(k)
    } else {
        find_open(s, k + 1)
    }
}

pub fn open_on_line(s: &Vec<char>, k: usize) -> (r: Option<usize>)
    ensures
        wide(r) == find_open(s@, k as int),
{
    let mut i: usize = k;
    while i < s.len()
        invariant
            k <= i,
            find_open(s@, k as int) == find_open(s@, i as int),
        decreases s@.len() - i,
    {
        if s[i] == '\n' {
            return None;
        }
        if s[i] == ']' && i + 1 < s.len() && s[i + 1] == '(' {
            return Some(i);
        }
        i = i + 1;
    }
    None
}

/// The parts, with `sep` between each two neighbours.
pub open spec fn join(parts: Seq<Seq<char>>, sep: Seq<char>) -> Seq<char>
    decreases parts.len(),
{
    if parts.len() == 0 {
        Seq::empty()
    } else if parts.len() == 1 {
        parts[0]
    } else {
        join(parts.drop_last(), sep) + sep + parts.last()
    }
}

/// Appends `part` to `out`, which holds `join(done, sep)`.
pub fn push_part(out: &mut Vec<char>, first: bool, sep: &Vec<char>, part: &Vec<char>, Ghost(done): Ghost<Seq<Seq<char>>>)
    requires
        old(out)@ == join(done, sep@),
        first == (done.len() == 0),
    ensures
        final(out)@ == join(done.push(part@), sep@),
{
    assert(done.push(part@).drop_last() =~= done);
    if !first {
        push_all(out, sep);
    }
    push_all(out, part);
    if first {
        assert(final(out)@ =~= part@);
    }
}

/// The index of the first `'\n'` from `k` on, or the length of `s`.
pub open spec fn line_end(s: Seq<char>, k: int) -> int
    decreases s.len() - k,
{
    if k >= s.len() || s[k] == '\n' {
        k
    } else {
        line_end(s, k + 1)
    }
}

pub proof fn lemma_line_end_bounds(s: Seq<char>, k: int)
    requires
        0 <= k <= s.len(),
    ensures
        k <= line_end(s, k) <= s.len(),
        line_end(s, k) < s.len() ==> s[line_end(s, k)] == '\n',
        forall|x: int| k <= x < line_end(s, k) ==> s[x] != '\n',
    decreases s.len() - k,
{
    if k < s.len() && s[k] != '\n' {
        lemma_line_end_bounds(s, k + 1);
    }
}

pub proof fn lemma_find_on_line_bounds(s: Seq<char>, k: int, c: char)
    ensures
        find_on_line(s, k, c) matches Some(r) ==> k <= r < s.len() && s[r] == c,
    decreases s.len() - k,
{
    if 0 <= k < s.len() && s[k] != '\n' && s[k] != c {
        lemma_find_on_line_bounds(s, k + 1, c);
    }
}

pub proof fn lemma_find_open_bounds(s: Seq<char>, k: int)
    ensures
        find_open(s, k) matches Some(j) ==> k <= j && j + 1 < s.len(),
    decreases s.len() - k,
{
    if 0 <= k < s.len() && s[k] != '\n' && !(s[k] == ']' && k + 1 < s.len() && s[k + 1]
        == '(') {
        lemma_find_open_bounds(s, k + 1);
    }
}

} // verus!
