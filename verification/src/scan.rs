//! Scanning text held as characters: trimming, prefixes and suffixes,
//! replacing, squeezing white space, and splitting into lines, each stated
//! as what `str`'s method of the same purpose answers.

use vstd::prelude::*;
use crate::text::{is_ws, is_whitespace};

verus! {

/// The characters `s[lo..hi]`.
pub fn copy_range(s: &[char], lo: usize, hi: usize) -> (r: Vec<char>)
    requires
        lo <= hi <= s@.len(),
    ensures
        r@ == s@.subrange(lo as int, hi as int),
{
    let mut r: Vec<char> = Vec::new();
    let mut k = lo;
    while k < hi
        invariant
            lo <= k <= hi <= s@.len(),
            r@ == s@.subrange(lo as int, k as int),
        decreases hi - k,
    {
        r.push(s[k]);
        k = k + 1;
    }
    r
}

/// `s` without its leading white space.
pub open spec fn trim_start_spec(s: Seq<char>) -> Seq<char>
    decreases s.len(),
{
    if s.len() > 0 && is_ws(s[0]) {
        trim_start_spec(s.drop_first())
    } else {
        s
    }
}

/// `s` without its trailing white space.
pub open spec fn trim_end_spec(s: Seq<char>) -> Seq<char>
    decreases s.len(),
{
    if s.len() > 0 && is_ws(s.last()) {
        trim_end_spec(s.drop_last())
    } else {
        s
    }
}

/// `s` without white space at either end.
pub open spec fn trim_spec(s: Seq<char>) -> Seq<char> {
    trim_end_spec(trim_start_spec(s))
}

/// What `str::trim_start` leaves.
pub fn trim_start(s: &[char]) -> (r: Vec<char>)
    ensures
        r@ == trim_start_spec(s@),
{
    let mut lo: usize = 0;
    assert(s@.subrange(0, s@.len() as int) == s@);
    while lo < s.len() && is_whitespace(s[lo])
        invariant
            lo <= s@.len(),
            trim_start_spec(s@) == trim_start_spec(s@.subrange(lo as int, s@.len() as int)),
        decreases s@.len() - lo,
    {
        assert(s@.subrange(lo as int, s@.len() as int).drop_first() == s@.subrange(lo + 1, s@.len() as int));
        lo = lo + 1;
    }
    copy_range(s, lo, s.len())
}

/// What `str::trim_end` leaves.
pub fn trim_end(s: &[char]) -> (r: Vec<char>)
    ensures
        r@ == trim_end_spec(s@),
{
    let mut hi: usize = s.len();
    assert(s@.subrange(0, s@.len() as int) == s@);
    while hi > 0 && is_whitespace(s[hi - 1])
        invariant
            hi <= s@.len(),
            trim_end_spec(s@) == trim_end_spec(s@.subrange(0, hi as int)),
        decreases hi,
    {
        assert(s@.subrange(0, hi as int).drop_last() == s@.subrange(0, hi - 1));
        hi = hi - 1;
    }
    copy_range(s, 0, hi)
}

/// What `str::trim` leaves.
pub fn trim(s: &[char]) -> (r: Vec<char>)
    ensures
        r@ == trim_spec(s@),
{
    let t = trim_start(s);
    trim_end(t.as_slice())
}

/// `s` starts with `p`.
pub open spec fn begins(s: Seq<char>, p: Seq<char>) -> bool {
    p.len() <= s.len() && s.take(p.len() as int) == p
}

/// `s` ends with `p`.
pub open spec fn ends(s: Seq<char>, p: Seq<char>) -> bool {
    p.len() <= s.len() && s.skip(s.len() - p.len()) == p
}

/// Whether `s[at..]` starts with `p`.
pub fn begins_at(s: &[char], at: usize, p: &[char]) -> (b: bool)
    requires
        at <= s@.len(),
    ensures
        b == begins(s@.skip(at as int), p@),
{
    let n = s.len();
    if p.len() > n - at {
        return false;
    }
    let mut k: usize = 0;
    while k < p.len()
        invariant
            k <= p@.len(),
            n == s@.len(),
            at + p@.len() <= n,
            forall|j: int| 0 <= j < k ==> s@[at + j] == p@[j],
        decreases p@.len() - k,
    {
        if s[at + k] != p[k] {
            assert(s@.skip(at as int).take(p@.len() as int)[k as int] != p@[k as int]);
            return false;
        }
        k = k + 1;
    }
    assert(s@.skip(at as int).take(p@.len() as int) =~= p@);
    true
}

/// Whether `s` ends with `p`.
pub fn ends_with(s: &[char], p: &[char]) -> (b: bool)
    ensures
        b == ends(s@, p@),
{
    if p.len() > s.len() {
        return false;
    }
    let at = s.len() - p.len();
    let b = begins_at(s, at, p);
    assert(s@.skip(at as int).take(p@.len() as int) =~= s@.skip(at as int));
    b
}

/// `s` with every leading copy of `p` removed, as `str::trim_start_matches` does.
pub open spec fn trim_start_matches_spec(s: Seq<char>, p: Seq<char>) -> Seq<char>
    decreases s.len(),
{
    if p.len() > 0 && begins(s, p) {
        trim_start_matches_spec(s.skip(p.len() as int), p)
    } else {
        s
    }
}

/// `s` with every trailing copy of `p` removed, as `str::trim_end_matches` does.
pub open spec fn trim_end_matches_spec(s: Seq<char>, p: Seq<char>) -> Seq<char>
    decreases s.len(),
{
    if p.len() > 0 && ends(s, p) {
        trim_end_matches_spec(s.take(s.len() - p.len()), p)
    } else {
        s
    }
}

/// What `str::trim_start_matches` leaves.
pub fn trim_start_matches(s: &[char], p: &[char]) -> (r: Vec<char>)
    ensures
        r@ == trim_start_matches_spec(s@, p@),
{
    if p.len() == 0 {
        return copy_range(s, 0, s.len());
    }
    let mut lo: usize = 0;
    assert(s@.skip(0) == s@);
    while lo < s.len() && begins_at(s, lo, p)
        invariant
            lo <= s@.len(),
            p@.len() > 0,
            trim_start_matches_spec(s@, p@) == trim_start_matches_spec(s@.skip(lo as int), p@),
        decreases s@.len() - lo,
    {
        assert(s@.skip(lo as int).skip(p@.len() as int) == s@.skip(lo + p@.len()));
        lo = lo + p.len();
    }
    if lo == s.len() {
        assert(s@.skip(lo as int).len() == 0);
        assert(!begins(s@.skip(lo as int), p@));
    }
    let r = copy_range(s, lo, s.len());
    assert(r@ == s@.skip(lo as int));
    r
}

/// What `str::trim_end_matches` leaves.
pub fn trim_end_matches(s: &[char], p: &[char]) -> (r: Vec<char>)
    ensures
        r@ == trim_end_matches_spec(s@, p@),
{
    if p.len() == 0 {
        return copy_range(s, 0, s.len());
    }
    let mut hi: usize = s.len();
    assert(s@.take(s@.len() as int) == s@);
    loop
        invariant
            hi <= s@.len(),
            p@.len() > 0,
            trim_end_matches_spec(s@, p@) == trim_end_matches_spec(s@.take(hi as int), p@),
        decreases hi,
    {
        let head = copy_range(s, 0, hi);
        assert(head@ == s@.take(hi as int));
        if !ends_with(head.as_slice(), p) {
            return head;
        }
        assert(s@.take(hi as int).take(hi - p@.len()) == s@.take(hi - p@.len()));
        hi = hi - p.len();
    }
}

/// `s` without its first character when that is `c`, as `str::strip_prefix`
/// with a fallback to `s` gives.
pub open spec fn drop_lead(s: Seq<char>, c: char) -> Seq<char> {
    if s.len() > 0 && s[0] == c {
        s.drop_first()
    } else {
        s
    }
}

/// What `s.strip_prefix(c).unwrap_or(s)` leaves.
pub fn strip_lead(s: &[char], c: char) -> (r: Vec<char>)
    ensures
        r@ == drop_lead(s@, c),
{
    if s.len() > 0 && s[0] == c {
        copy_range(s, 1, s.len())
    } else {
        copy_range(s, 0, s.len())
    }
}

/// `s` with each occurrence of `p`, taken left to right without overlap,
/// written as `r`: what `str::replace` returns.
pub open spec fn replaced(s: Seq<char>, p: Seq<char>, r: Seq<char>) -> Seq<char>
    decreases s.len(),
{
    if s.len() == 0 || p.len() == 0 {
        s
    } else if begins(s, p) {
        r + replaced(s.skip(p.len() as int), p, r)
    } else {
        seq![s[0]] + replaced(s.drop_first(), p, r)
    }
}

/// What `str::replace` returns, for a pattern that is not empty.
pub fn replace(s: &[char], p: &[char], r: &[char]) -> (out: Vec<char>)
    requires
        p@.len() > 0,
    ensures
        out@ == replaced(s@, p@, r@),
{
    let mut out: Vec<char> = Vec::new();
    let mut i: usize = 0;
    assert(s@.skip(0) == s@);
    while i < s.len()
        invariant
            i <= s@.len(),
            p@.len() > 0,
            out@ + replaced(s@.skip(i as int), p@, r@) == replaced(s@, p@, r@),
        decreases s@.len() - i,
    {
        let ghost before = out@;
        if begins_at(s, i, p) {
            let mut k: usize = 0;
            while k < r.len()
                invariant
                    k <= r@.len(),
                    out@ == before + r@.take(k as int),
                decreases r@.len() - k,
            {
                out.push(r[k]);
                k = k + 1;
                assert(r@.take(k as int) == r@.take(k - 1).push(r@[k - 1]));
            }
            assert(r@.take(r@.len() as int) == r@);
            assert(s@.skip(i as int).skip(p@.len() as int) == s@.skip(i + p@.len()));
            assert(before + (r@ + replaced(s@.skip(i + p@.len()), p@, r@)) == out@ + replaced(
                s@.skip(i + p@.len()),
                p@,
                r@,
            ));
            i = i + p.len();
        } else {
            out.push(s[i]);
            assert(s@.skip(i as int).drop_first() == s@.skip(i + 1));
            assert(before + (seq![s@[i as int]] + replaced(s@.skip(i + 1), p@, r@)) == out@ + replaced(
                s@.skip(i + 1),
                p@,
                r@,
            ));
            i = i + 1;
        }
    }
    assert(s@.skip(i as int).len() == 0);
    assert(out@ + seq![] == out@);
    out
}

/// The words of `s`, separated by one space each: what
/// `split_whitespace().collect::<Vec<_>>().join(" ")` builds.
pub open spec fn squeezed(s: Seq<char>) -> Seq<char>
    decreases s.len(),
{
    if s.len() == 0 {
        s
    } else {
        let before = squeezed(s.drop_last());
        let c = s.last();
        if is_ws(c) {
            before
        } else if before.len() > 0 && is_ws(s[s.len() - 2]) {
            before.push(' ').push(c)
        } else {
            before.push(c)
        }
    }
}

/// The words of `s` joined by single spaces.
pub fn squeeze(s: &[char]) -> (out: Vec<char>)
    ensures
        out@ == squeezed(s@),
{
    let mut out: Vec<char> = Vec::new();
    let mut i: usize = 0;
    while i < s.len()
        invariant
            i <= s@.len(),
            out@ == squeezed(s@.take(i as int)),
        decreases s@.len() - i,
    {
        let c = s[i];
        proof {
            assert(s@.take(i + 1).drop_last() == s@.take(i as int));
            if i > 0 {
                assert(s@.take(i + 1)[i - 1] == s@[i - 1]);
            }
        }
        if !is_whitespace(c) {
            if i > 0 && out.len() > 0 && is_whitespace(s[i - 1]) {
                out.push(' ');
            }
            out.push(c);
        }
        i = i + 1;
    }
    assert(s@.take(s@.len() as int) == s@);
    out
}

/// The first place at or after `from` where `s` holds `pat`.
pub open spec fn find_from<T>(s: Seq<T>, pat: Seq<T>, from: int) -> Option<int>
    decreases s.len() - from,
{
    if from < 0 || from + pat.len() > s.len() {
        None
    } else if pat.len() == 0 || s.subrange(from, from + pat.len()) == pat {
        Some(from)
    } else {
        find_from(s, pat, from + 1)
    }
}

/// The first place `s` holds `pat`.
pub open spec fn find<T>(s: Seq<T>, pat: Seq<T>) -> Option<int> {
    find_from(s, pat, 0)
}

pub proof fn lemma_find_bounds<T>(s: Seq<T>, pat: Seq<T>, from: int)
    ensures
        find_from(s, pat, from) matches Some(i) ==> from <= i && i + pat.len() <= s.len() && 0 <= i
            && s.subrange(i, i + pat.len()) == pat,
    decreases s.len() - from,
{
    if !(from < 0 || from + pat.len() > s.len()) && pat.len() != 0 && s.subrange(from, from + pat.len()) != pat {
        lemma_find_bounds(s, pat, from + 1);
    }
    if from >= 0 && from + pat.len() <= s.len() && pat.len() == 0 {
        assert(s.subrange(from, from) =~= pat);
    }
}

/// Where `pat` first occurs in `s`, searching from `from`.
pub fn find_chars(s: &Vec<char>, pat: &Vec<char>, from: usize) -> (r: Option<usize>)
    requires
        pat@.len() > 0,
        from <= s@.len(),
    ensures
        r matches Some(i) ==> find_from(s@, pat@, from as int) == Some(i as int),
        r is None ==> find_from(s@, pat@, from as int) is None,
{
    let n = s.len();
    if pat.len() > n {
        return None;
    }
    let last = n - pat.len();
    let mut i = from;
    while i <= last
        invariant
            from <= i <= s@.len(),
            n == s@.len(),
            last == s@.len() - pat@.len(),
            pat@.len() > 0,
            find_from(s@, pat@, from as int) == find_from(s@, pat@, i as int),
        decreases s@.len() - i,
    {
        let mut k: usize = 0;
        while k < pat.len()
            invariant
                k <= pat@.len(),
                n == s@.len(),
                i + pat@.len() <= s@.len(),
                forall|j: int| 0 <= j < k ==> s@[i + j] == pat@[j],
            ensures
                k <= pat@.len(),
                forall|j: int| 0 <= j < k ==> s@[i + j] == pat@[j],
                k < pat@.len() ==> s@[i + k] != pat@[k as int],
            decreases pat@.len() - k,
        {
            if s[i + k] != pat[k] {
                break;
            }
            k = k + 1;
        }
        if k == pat.len() {
            assert(s@.subrange(i as int, i + pat@.len()) =~= pat@);
            return Some(i);
        }
        assert(s@.subrange(i as int, i + pat@.len()) != pat@) by {
            assert(s@.subrange(i as int, i + pat@.len())[k as int] == s@[i + k]);
        }
        i = i + 1;
    }
    None
}

/// Where the first `c` at or after `i` stands in `s`, or the length of `s`.
pub open spec fn next_of(s: Seq<char>, c: char, i: int) -> int
    decreases s.len() - i,
{
    if i < 0 || i >= s.len() {
        s.len() as int
    } else if s[i] == c {
        i
    } else {
        next_of(s, c, i + 1)
    }
}

pub proof fn lemma_next_of(s: Seq<char>, c: char, i: int)
    requires
        0 <= i <= s.len(),
    ensures
        i <= next_of(s, c, i) <= s.len(),
        next_of(s, c, i) < s.len() ==> s[next_of(s, c, i)] == c,
        forall|j: int| i <= j < next_of(s, c, i) ==> s[j] != c,
    decreases s.len() - i,
{
    if i < s.len() && s[i] != c {
        lemma_next_of(s, c, i + 1);
    }
}

proof fn lemma_next_of_is(s: Seq<char>, c: char, i: int, k: int)
    requires
        0 <= i <= k <= s.len(),
        forall|j: int| i <= j < k ==> s[j] != c,
        k < s.len() ==> s[k] == c,
    ensures
        next_of(s, c, i) == k,
    decreases k - i,
{
    if i < k {
        lemma_next_of_is(s, c, i + 1, k);
    }
}

/// A line as `str::lines` yields it: the text before a `\n`, less the one
/// `\r` that may end it.
pub open spec fn line_body(l: Seq<char>) -> Seq<char> {
    if l.len() > 0 && l.last() == '\r' {
        l.drop_last()
    } else {
        l
    }
}

/// The lines of `s`, as `str::lines` yields them: split at each `\n`, with a
/// `\r` before it dropped, and no empty line after a final `\n`.
pub open spec fn lines_of(s: Seq<char>) -> Seq<Seq<char>>
    decreases s.len(),
{
    if s.len() == 0 {
        seq![]
    } else {
        let k = next_of(s, '\n', 0);
        proof {
            lemma_next_of(s, '\n', 0);
        }
        if k >= s.len() {
            seq![s]
        } else {
            seq![line_body(s.take(k))] + lines_of(s.skip(k + 1))
        }
    }
}

/// The characters of each row.
pub open spec fn rows(v: Seq<Vec<char>>) -> Seq<Seq<char>> {
    v.map_values(|x: Vec<char>| x@)
}

/// What `str::lines` yields, collected.
pub fn split_lines(s: &[char]) -> (out: Vec<Vec<char>>)
    ensures
        rows(out@) == lines_of(s@),
{
    let mut out: Vec<Vec<char>> = Vec::new();
    let mut st: usize = 0;
    let mut i: usize = 0;
    assert(s@.skip(0) == s@);
    while i < s.len()
        invariant
            st <= i <= s@.len(),
            rows(out@) + lines_of(s@.skip(st as int)) == lines_of(s@),
            forall|j: int| st <= j < i ==> s@[j] != '\n',
        decreases s@.len() - i,
    {
        if s[i] == '\n' {
            let mut line = copy_range(s, st, i);
            if line.len() > 0 && line[line.len() - 1] == '\r' {
                line.pop();
            }
            proof {
                let t = s@.skip(st as int);
                lemma_next_of_is(t, '\n', 0, i - st);
                assert(t.take(i - st) == s@.subrange(st as int, i as int));
                assert(t.skip(i - st + 1) == s@.skip(i + 1));
                assert(lines_of(t) == seq![line@] + lines_of(s@.skip(i + 1)));
            }
            let ghost before = rows(out@);
            out.push(line);
            assert(rows(out@) =~= before.push(line@));
            assert(before + lines_of(s@.skip(st as int)) == rows(out@) + lines_of(s@.skip(i + 1)));
            st = i + 1;
        }
        i = i + 1;
    }
    if st < s.len() {
        let line = copy_range(s, st, s.len());
        proof {
            let t = s@.skip(st as int);
            lemma_next_of_is(t, '\n', 0, t.len() as int);
            assert(line@ == t);
            assert(lines_of(t) == seq![t]);
        }
        let ghost before = rows(out@);
        out.push(line);
        assert(rows(out@) =~= before.push(line@));
    } else {
        assert(s@.skip(st as int).len() == 0);
    }
    assert(rows(out@) + seq![] == rows(out@));
    out
}

pub proof fn lemma_lines_bounded(s: Seq<char>)
    ensures
        lines_of(s).len() <= s.len(),
        forall|i: int| 0 <= i < lines_of(s).len() ==> #[trigger] lines_of(s)[i].len() <= s.len(),
    decreases s.len(),
{
    if s.len() > 0 {
        let k = next_of(s, '\n', 0);
        lemma_next_of(s, '\n', 0);
        if k < s.len() {
            lemma_lines_bounded(s.skip(k + 1));
            let rest = lines_of(s.skip(k + 1));
            assert forall|i: int| 0 <= i < lines_of(s).len() implies #[trigger] lines_of(s)[i].len() <= s.len() by {
                if i > 0 {
                    assert(lines_of(s)[i] == rest[i - 1]);
                }
            }
        }
    }
}

/// Where the first `c` at or after `from` stands in `s`, or its length.
pub fn next_char(s: &[char], c: char, from: usize) -> (k: usize)
    requires
        from <= s@.len(),
    ensures
        k == next_of(s@, c, from as int),
        from <= k <= s@.len(),
{
    let mut k = from;
    while k < s.len() && s[k] != c
        invariant
            from <= k <= s@.len(),
            next_of(s@, c, from as int) == next_of(s@, c, k as int),
        decreases s@.len() - k,
    {
        k = k + 1;
    }
    k
}

/// The lines `ls` joined by `sep`, as `join` writes them.
pub open spec fn joined(ls: Seq<Seq<char>>, sep: Seq<char>) -> Seq<char>
    decreases ls.len(),
{
    if ls.len() == 0 {
        Seq::empty()
    } else if ls.len() == 1 {
        ls[0]
    } else {
        joined(ls.drop_last(), sep) + sep + ls.last()
    }
}

/// `ls` joined by `sep`.
pub fn join_rows(ls: &Vec<Vec<char>>, sep: &[char]) -> (out: Vec<char>)
    ensures
        out@ == joined(rows(ls@), sep@),
{
    let mut out: Vec<char> = Vec::new();
    let mut k: usize = 0;
    while k < ls.len()
        invariant
            k <= ls@.len(),
            out@ == joined(rows(ls@).take(k as int), sep@),
        decreases ls@.len() - k,
    {
        let ghost before = out@;
        if k > 0 {
            append(&mut out, sep);
        }
        append(&mut out, ls[k].as_slice());
        proof {
            let t = rows(ls@).take(k + 1);
            assert(t.drop_last() == rows(ls@).take(k as int));
            if k == 0 {
                assert(joined(t, sep@) == t[0]);
            }
            assert(out@ =~= joined(t, sep@));
        }
        k = k + 1;
    }
    assert(rows(ls@).take(ls@.len() as int) == rows(ls@));
    out
}

/// Append the characters of `t` to `out`.
pub fn append(out: &mut Vec<char>, t: &[char])
    ensures
        final(out)@ == old(out)@ + t@,
{
    let mut k: usize = 0;
    while k < t.len()
        invariant
            k <= t@.len(),
            out@ == old(out)@ + t@.take(k as int),
        decreases t@.len() - k,
    {
        out.push(t[k]);
        k = k + 1;
        assert(t@.take(k as int) == t@.take(k - 1).push(t@[k - 1]));
    }
    assert(t@.take(t@.len() as int) == t@);
}

} // verus!
