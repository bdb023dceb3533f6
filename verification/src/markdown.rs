//! Reading markdown text: the first heading of a document, used as an
//! agent's description.

use vstd::prelude::*;
use crate::text::chars_of;

verus! {

/// Unicode `White_Space`, the characters that `str::trim` removes.
pub open spec fn is_space(c: char) -> bool {
    ||| ('\u{9}' <= c && c <= '\u{d}')
    ||| c == ' '
    ||| c == '\u{85}'
    ||| c == '\u{a0}'
    ||| c == '\u{1680}'
    ||| ('\u{2000}' <= c && c <= '\u{200a}')
    ||| c == '\u{2028}'
    ||| c == '\u{2029}'
    ||| c == '\u{202f}'
    ||| c == '\u{205f}'
    ||| c == '\u{3000}'
}

/// `s` without its leading whitespace.
pub open spec fn trim_start(s: Seq<char>) -> Seq<char>
    decreases s.len(),
{
    if s.len() > 0 && is_space(s[0]) {
        trim_start(s.drop_first())
    } else {
        s
    }
}

/// `s` without its trailing whitespace.
pub open spec fn trim_end(s: Seq<char>) -> Seq<char>
    decreases s.len(),
{
    if s.len() > 0 && is_space(s.last()) {
        trim_end(s.drop_last())
    } else {
        s
    }
}

/// `s` without leading and trailing whitespace.
pub open spec fn trim(s: Seq<char>) -> Seq<char> {
    trim_end(trim_start(s))
}

/// `s` without its leading `#` characters.
pub open spec fn trim_hashes(s: Seq<char>) -> Seq<char>
    decreases s.len(),
{
    if s.len() > 0 && s[0] == '#' {
        trim_hashes(s.drop_first())
    } else {
        s
    }
}

/// The heading text of one line: the trimmed line must start with `#`;
/// the heading is what follows the leading `#`s, trimmed, and must not be
/// empty.
pub open spec fn line_heading(line: Seq<char>) -> Option<Seq<char>> {
    let t = trim(line);
    if t.len() > 0 && t[0] == '#' {
        let h = trim(trim_hashes(t.drop_first()));
        if h.len() > 0 {
            Some(h)
        } else {
            None
        }
    } else {
        None
    }
}

/// The length of the first line of `s`: the position of the first `\n`, or
/// the whole length where there is none.
pub open spec fn line_len(s: Seq<char>) -> nat
    decreases s.len(),
{
    if s.len() == 0 || s[0] == '\n' {
        0
    } else {
        1 + line_len(s.drop_first())
    }
}

/// The heading of the first line of `s` that has one.
pub open spec fn first_heading(s: Seq<char>) -> Option<Seq<char>>
    decreases s.len(),
{
    let k = line_len(s);
    match line_heading(s.take(k as int)) {
        Some(h) => Some(h),
        None => if k < s.len() {
            first_heading(s.skip(k + 1 as int))
        } else {
            None
        },
    }
}

pub proof fn lemma_line_len(s: Seq<char>)
    ensures
        line_len(s) <= s.len(),
        line_len(s) < s.len() ==> s[line_len(s) as int] == '\n',
        forall|i: int| 0 <= i < line_len(s) ==> s[i] != '\n',
    decreases s.len(),
{
    if s.len() > 0 && s[0] != '\n' {
        lemma_line_len(s.drop_first());
        assert forall|i: int| 0 <= i < line_len(s) implies s[i] != '\n' by {
            if i > 0 {
                assert(s[i] == s.drop_first()[i - 1]);
            }
        }
    }
}

proof fn lemma_trim_start(s: Seq<char>) -> (k: int)
    ensures
        0 <= k <= s.len(),
        trim_start(s) == s.skip(k),
        k < s.len() ==> !is_space(s[k]),
    decreases s.len(),
{
    if s.len() > 0 && is_space(s[0]) {
        let j = lemma_trim_start(s.drop_first());
        assert(s.drop_first().skip(j) =~= s.skip(j + 1));
        j + 1
    } else {
        assert(s.skip(0) =~= s);
        0
    }
}

proof fn lemma_trim_end(s: Seq<char>) -> (k: int)
    ensures
        0 <= k <= s.len(),
        trim_end(s) == s.take(k),
        k > 0 ==> !is_space(s[k - 1]),
    decreases s.len(),
{
    if s.len() > 0 && is_space(s.last()) {
        let j = lemma_trim_end(s.drop_last());
        assert(s.drop_last().take(j) =~= s.take(j));
        j
    } else {
        assert(s.take(s.len() as int) =~= s);
        s.len() as int
    }
}

proof fn lemma_trim_hashes(s: Seq<char>) -> (k: int)
    ensures
        0 <= k <= s.len(),
        trim_hashes(s) == s.skip(k),
    decreases s.len(),
{
    if s.len() > 0 && s[0] == '#' {
        let j = lemma_trim_hashes(s.drop_first());
        assert(s.drop_first().skip(j) =~= s.skip(j + 1));
        j + 1
    } else {
        assert(s.skip(0) =~= s);
        0
    }
}

/// `trim(s)` is a piece of `s` that starts and ends with no whitespace.
proof fn lemma_trim(s: Seq<char>) -> (r: (int, int))
    ensures
        0 <= r.0 <= r.1 <= s.len(),
        trim(s) == s.subrange(r.0, r.1),
        r.0 < r.1 ==> !is_space(s[r.0]) && !is_space(s[r.1 - 1]),
{
    let a = lemma_trim_start(s);
    let b = lemma_trim_end(s.skip(a));
    assert(s.skip(a).take(b) =~= s.subrange(a, a + b));
    if b > 0 {
        assert(s.skip(a)[0] == s[a]);
        assert(s.skip(a)[b - 1] == s[a + b - 1]);
    }
    (a, a + b)
}

/// A line's heading is a non-empty piece of the line that starts and ends
/// with no whitespace.
proof fn lemma_line_heading(line: Seq<char>)
    ensures
        line_heading(line) matches Some(h) ==> h.len() > 0 && !is_space(h[0]) && !is_space(
            h.last(),
        ) && exists|x: int, y: int| 0 <= x <= y <= line.len() && h == line.subrange(x, y),
{
    let (a, b) = lemma_trim(line);
    let t = trim(line);
    if t.len() > 0 && t[0] == '#' {
        let u = t.drop_first();
        let c = lemma_trim_hashes(u);
        let v = trim_hashes(u);
        let (d, e) = lemma_trim(v);
        let h = trim(v);
        if h.len() > 0 {
            assert(h =~= line.subrange(a + 1 + c + d, a + 1 + c + e));
            assert(h[0] == v[d]);
            assert(h.last() == v[e - 1]);
        }
    }
}

/// Law: the first heading of a text is never empty, neither starts nor ends
/// with whitespace, and lies within one line.
pub proof fn lemma_first_heading_clean(s: Seq<char>)
    ensures
        first_heading(s) matches Some(h) ==> h.len() > 0 && !is_space(h[0]) && !is_space(h.last())
            && forall|i: int| 0 <= i < h.len() ==> h[i] != '\n',
    decreases s.len(),
{
    lemma_line_len(s);
    let k = line_len(s);
    let line = s.take(k as int);
    lemma_line_heading(line);
    if let Some(h) = line_heading(line) {
        let (x, y) = choose|x: int, y: int| 0 <= x <= y <= line.len() && h == line.subrange(x, y);
        assert forall|i: int| 0 <= i < h.len() implies h[i] != '\n' by {
            assert(h[i] == s[x + i]);
        }
    } else if k < s.len() {
        lemma_first_heading_clean(s.skip(k + 1 as int));
    }
}

/// All characters of `w` are whitespace.
pub open spec fn all_space(w: Seq<char>) -> bool {
    forall|i: int| 0 <= i < w.len() ==> is_space(#[trigger] w[i])
}

/// All characters of `w` are `#`.
pub open spec fn all_hashes(w: Seq<char>) -> bool {
    forall|i: int| 0 <= i < w.len() ==> #[trigger] w[i] == '#'
}

/// `s` holds no line break.
pub open spec fn single_line(s: Seq<char>) -> bool {
    forall|i: int| 0 <= i < s.len() ==> #[trigger] s[i] != '\n'
}

proof fn lemma_trim_start_spaces(w: Seq<char>, x: Seq<char>)
    requires
        all_space(w),
        x.len() == 0 || !is_space(x[0]),
    ensures
        trim_start(w + x) == x,
    decreases w.len(),
{
    if w.len() == 0 {
        assert(w + x =~= x);
        if x.len() > 0 {
        }
    } else {
        assert((w + x)[0] == w[0]);
        assert((w + x).drop_first() =~= w.drop_first() + x);
        lemma_trim_start_spaces(w.drop_first(), x);
    }
}

proof fn lemma_trim_end_spaces(x: Seq<char>, w: Seq<char>)
    requires
        all_space(w),
        x.len() == 0 || !is_space(x.last()),
    ensures
        trim_end(x + w) == x,
    decreases w.len(),
{
    if w.len() == 0 {
        assert(x + w =~= x);
    } else {
        assert((x + w).last() == w.last());
        assert((x + w).drop_last() =~= x + w.drop_last());
        lemma_trim_end_spaces(x, w.drop_last());
    }
}

proof fn lemma_trim_hashes_of(hs: Seq<char>, x: Seq<char>)
    requires
        all_hashes(hs),
        x.len() == 0 || x[0] != '#',
    ensures
        trim_hashes(hs + x) == x,
    decreases hs.len(),
{
    if hs.len() == 0 {
        assert(hs + x =~= x);
    } else {
        assert((hs + x)[0] == '#');
        assert((hs + x).drop_first() =~= hs.drop_first() + x);
        lemma_trim_hashes_of(hs.drop_first(), x);
    }
}

/// Law: a line made of whitespace `w1`, one or more `#`s, whitespace `w2`,
/// a text `h` that neither starts with `#` nor starts or ends with
/// whitespace, and whitespace `w3` has the heading `h`.
pub proof fn lemma_line_heading_of(
    w1: Seq<char>,
    hs: Seq<char>,
    w2: Seq<char>,
    h: Seq<char>,
    w3: Seq<char>,
)
    requires
        all_space(w1),
        all_hashes(hs),
        all_space(w2),
        all_space(w3),
        h.len() > 0,
        !is_space(h[0]),
        h[0] != '#',
        !is_space(h.last()),
    ensures
        line_heading(w1 + seq!['#'] + hs + w2 + h + w3) == Some(h),
{
    let body = seq!['#'] + hs + w2 + h;
    assert(w1 + seq!['#'] + hs + w2 + h + w3 =~= w1 + (body + w3));
    assert((body + w3)[0] == '#');
    lemma_trim_start_spaces(w1, body + w3);
    assert(body.last() == h.last());
    lemma_trim_end_spaces(body, w3);
    assert(trim(w1 + seq!['#'] + hs + w2 + h + w3) == body);
    assert(body.drop_first() =~= hs + (w2 + h));
    let wh = w2 + h;
    if w2.len() > 0 {
        assert(wh[0] == w2[0]);
    } else {
        assert(wh =~= h);
    }
    lemma_trim_hashes_of(hs, wh);
    assert(h[0] == h[0]);
    lemma_trim_start_spaces(w2, h);
    assert(h + Seq::<char>::empty() =~= h);
    lemma_trim_end_spaces(h, Seq::<char>::empty());
}

/// Law: a line whose first non-whitespace character is neither `#` nor a
/// line break has no heading.
pub proof fn lemma_line_heading_none(w: Seq<char>, c: char, rest: Seq<char>)
    requires
        all_space(w),
        !is_space(c),
        c != '#',
    ensures
        line_heading(w + seq![c] + rest) is None,
{
    let x = seq![c] + rest;
    assert(w + seq![c] + rest =~= w + x);
    assert(x[0] == c);
    lemma_trim_start_spaces(w, x);
    let k = lemma_trim_end(x);
    if k > 0 {
        assert(trim_end(x)[0] == c);
    }
}

/// Law: a text's first heading is the heading of its first line where that
/// line has one.
pub proof fn lemma_first_heading_first_line(l: Seq<char>, rest: Seq<char>)
    requires
        single_line(l),
        line_heading(l) is Some,
    ensures
        first_heading(l + seq!['\n'] + rest) == line_heading(l),
{
    let s = l + seq!['\n'] + rest;
    lemma_line_len_of(l, rest);
    assert(s.take(l.len() as int) =~= l);
}

/// Law: a line without a heading is passed over: the first heading of the
/// text is that of the lines after it.
pub proof fn lemma_first_heading_skips_line(l: Seq<char>, rest: Seq<char>)
    requires
        single_line(l),
        line_heading(l) is None,
    ensures
        first_heading(l + seq!['\n'] + rest) == first_heading(rest),
{
    let s = l + seq!['\n'] + rest;
    lemma_line_len_of(l, rest);
    assert(s.take(l.len() as int) =~= l);
    assert(s.skip(l.len() + 1 as int) =~= rest);
}

/// Law: the first heading of a single line is that line's heading.
pub proof fn lemma_first_heading_single_line(l: Seq<char>)
    requires
        single_line(l),
    ensures
        first_heading(l) == line_heading(l),
{
    lemma_line_len_single(l);
    assert(l.take(l.len() as int) =~= l);
}

proof fn lemma_line_len_single(l: Seq<char>)
    requires
        single_line(l),
    ensures
        line_len(l) == l.len(),
    decreases l.len(),
{
    if l.len() > 0 {
        assert(single_line(l.drop_first())) by {
            assert forall|i: int| 0 <= i < l.drop_first().len() implies #[trigger] l.drop_first()[i]
                != '\n' by {
                assert(l.drop_first()[i] == l[i + 1]);
            }
        }
        lemma_line_len_single(l.drop_first());
    }
}

proof fn lemma_line_len_of(l: Seq<char>, rest: Seq<char>)
    requires
        single_line(l),
    ensures
        line_len(l + seq!['\n'] + rest) == l.len(),
    decreases l.len(),
{
    let s = l + seq!['\n'] + rest;
    if l.len() == 0 {
        assert(s[0] == '\n');
    } else {
        assert(s[0] == l[0]);
        assert(s.drop_first() =~= l.drop_first() + seq!['\n'] + rest);
        assert(single_line(l.drop_first())) by {
            assert forall|i: int| 0 <= i < l.drop_first().len() implies #[trigger] l.drop_first()[i]
                != '\n' by {
                assert(l.drop_first()[i] == l[i + 1]);
            }
        }
        lemma_line_len_of(l.drop_first(), rest);
    }
}

/// Whether `c` is whitespace as `char::is_whitespace` has it.
pub fn is_space_exec(c: char) -> (r: bool)
    ensures
        r == is_space(c),
{
    ('\u{9}' <= c && c <= '\u{d}') || c == ' ' || c == '\u{85}' || c == '\u{a0}' || c == '\u{1680}'
        || ('\u{2000}' <= c && c <= '\u{200a}') || c == '\u{2028}' || c == '\u{2029}'
        || c == '\u{202f}' || c == '\u{205f}' || c == '\u{3000}'
}

/// First position in `lo..hi` that holds no whitespace.
fn skip_space(v: &Vec<char>, lo: usize, hi: usize) -> (r: usize)
    requires
        lo <= hi <= v@.len(),
    ensures
        lo <= r <= hi,
        trim_start(v@.subrange(lo as int, hi as int)) == v@.subrange(r as int, hi as int),
{
    let mut i = lo;
    while i < hi && is_space_exec(v[i])
        invariant
            lo <= i <= hi <= v@.len(),
            trim_start(v@.subrange(lo as int, hi as int)) == trim_start(
                v@.subrange(i as int, hi as int),
            ),
        decreases hi - i,
    {
        assert(v@.subrange(i as int, hi as int).drop_first() =~= v@.subrange(i + 1, hi as int));
        i = i + 1;
    }
    i
}

/// End of `lo..hi` once its trailing whitespace is cut off.
fn cut_space(v: &Vec<char>, lo: usize, hi: usize) -> (r: usize)
    requires
        lo <= hi <= v@.len(),
    ensures
        lo <= r <= hi,
        trim_end(v@.subrange(lo as int, hi as int)) == v@.subrange(lo as int, r as int),
{
    let mut j = hi;
    while j > lo && is_space_exec(v[j - 1])
        invariant
            lo <= j <= hi <= v@.len(),
            trim_end(v@.subrange(lo as int, hi as int)) == trim_end(
                v@.subrange(lo as int, j as int),
            ),
        decreases j - lo,
    {
        assert(v@.subrange(lo as int, j as int).drop_last() =~= v@.subrange(lo as int, j - 1));
        j = j - 1;
    }
    j
}

/// First position in `lo..hi` that holds no `#`.
fn skip_hashes(v: &Vec<char>, lo: usize, hi: usize) -> (r: usize)
    requires
        lo <= hi <= v@.len(),
    ensures
        lo <= r <= hi,
        trim_hashes(v@.subrange(lo as int, hi as int)) == v@.subrange(r as int, hi as int),
{
    let mut i = lo;
    while i < hi && v[i] == '#'
        invariant
            lo <= i <= hi <= v@.len(),
            trim_hashes(v@.subrange(lo as int, hi as int)) == trim_hashes(
                v@.subrange(i as int, hi as int),
            ),
        decreases hi - i,
    {
        assert(v@.subrange(i as int, hi as int).drop_first() =~= v@.subrange(i + 1, hi as int));
        i = i + 1;
    }
    i
}

/// The bounds of the trimmed text of `lo..hi`.
fn trim_bounds(v: &Vec<char>, lo: usize, hi: usize) -> (r: (usize, usize))
    requires
        lo <= hi <= v@.len(),
    ensures
        lo <= r.0 <= r.1 <= hi,
        trim(v@.subrange(lo as int, hi as int)) == v@.subrange(r.0 as int, r.1 as int),
{
    let a = skip_space(v, lo, hi);
    let b = cut_space(v, a, hi);
    (a, b)
}

/// The heading of the line `lo..hi`, as bounds into `v`.
fn heading_bounds(v: &Vec<char>, lo: usize, hi: usize) -> (r: Option<(usize, usize)>)
    requires
        lo <= hi <= v@.len(),
    ensures
        match r {
            Some((a, b)) => a <= b <= v@.len() && line_heading(v@.subrange(lo as int, hi as int))
                == Some(v@.subrange(a as int, b as int)),
            None => line_heading(v@.subrange(lo as int, hi as int)) is None,
        },
{
    let (a, b) = trim_bounds(v, lo, hi);
    if a < b && v[a] == '#' {
        assert(v@.subrange(a as int, b as int).drop_first() =~= v@.subrange(a + 1, b as int));
        let c = skip_hashes(v, a + 1, b);
        let (d, e) = trim_bounds(v, c, b);
        if d < e {
            Some((d, e))
        } else {
            None
        }
    } else {
        None
    }
}

/// The first markdown heading of `content`: the text after the leading `#`s
/// of the first line that, trimmed, starts with `#` and holds more than `#`s
/// and whitespace.
pub fn extract_first_heading(content: &str) -> (r: Option<String>)
    ensures
        match r {
            Some(h) => first_heading(content@) == Some(h@),
            None => first_heading(content@) is None,
        },
        r matches Some(h) ==> h@.len() > 0 && !is_space(h@[0]) && !is_space(h@.last()),
{
    let v = chars_of(content);
    let n = v.len();
    let mut start: usize = 0;
    assert(v@.skip(0) =~= v@);
    while start <= n
        invariant
            v@ == content@,
            n == v@.len(),
            start <= n,
            first_heading(content@) == first_heading(v@.skip(start as int)),
        decreases n - start,
    {
        let ghost rest = v@.skip(start as int);
        let mut end = start;
        while end < n && v[end] != '\n'
            invariant
                start <= end <= n,
                n == v@.len(),
                rest == v@.skip(start as int),
                forall|i: int| start <= i < end ==> v@[i] != '\n',
            decreases n - end,
        {
            end = end + 1;
        }
        proof {
            lemma_line_len(rest);
            let k = line_len(rest);
            if k < end - start {
                assert(rest[k as int] == v@[start + k]);
            }
            if end - start < k {
                assert(rest[end - start] == v@[end as int]);
            }
            assert(k == end - start);
            assert(rest.take(k as int) =~= v@.subrange(start as int, end as int));
        }
        match heading_bounds(&v, start, end) {
            Some((a, b)) => {
                let h = content.substring_char(a, b);
                proof {
                    lemma_first_heading_clean(content@);
                }
                return Some(h.to_owned());
            },
            None => {},
        }
        if end == n {
            return None;
        }
        assert(rest.skip(end - start + 1) =~= v@.skip(end + 1));
        start = end + 1;
    }
    None
}

} // verus!
