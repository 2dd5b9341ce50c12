//! Character classes and line-level text helpers over `Seq<char>`.
use vstd::prelude::*;
use vstd::string::*;

verus! {

broadcast use vstd::string::group_string_axioms;

/// `char::is_ascii_punctuation`.
pub open spec fn is_punct(c: char) -> bool {
    let n = c as u32;
    (0x21 <= n <= 0x2f) || (0x3a <= n <= 0x40) || (0x5b <= n <= 0x60) || (0x7b <= n <= 0x7e)
}

/// `char::is_ascii_whitespace`: space, tab, line feed, form feed, carriage return.
pub open spec fn is_ascii_ws(c: char) -> bool {
    let n = c as u32;
    n == 0x20 || n == 0x09 || n == 0x0a || n == 0x0c || n == 0x0d
}

/// `char::is_whitespace`: the Unicode `White_Space` property.
pub open spec fn is_ws(c: char) -> bool {
    let n = c as u32;
    (0x09 <= n <= 0x0d) || n == 0x20 || n == 0x85 || n == 0xa0 || n == 0x1680 || (0x2000 <= n
        <= 0x200a) || n == 0x2028 || n == 0x2029 || n == 0x202f || n == 0x205f || n == 0x3000
}

/// A character that may stand in a comment opener or closer.
pub open spec fn is_comment_char(c: char) -> bool {
    is_punct(c) || is_ascii_ws(c)
}

pub open spec fn all_comment(s: Seq<char>) -> bool {
    forall|i: int| 0 <= i < s.len() ==> is_comment_char(#[trigger] s[i])
}

/// `s` without its trailing comment characters.
pub open spec fn trim_end_comment(s: Seq<char>) -> Seq<char>
    decreases s.len(),
{
    if s.len() > 0 && is_comment_char(s.last()) {
        trim_end_comment(s.drop_last())
    } else {
        s
    }
}

/// `s` without its leading comment characters.
pub open spec fn trim_start_comment(s: Seq<char>) -> Seq<char>
    decreases s.len(),
{
    if s.len() > 0 && is_comment_char(s[0]) {
        trim_start_comment(s.drop_first())
    } else {
        s
    }
}

/// `s` without its leading whitespace.
pub open spec fn trim_start_ws(s: Seq<char>) -> Seq<char>
    decreases s.len(),
{
    if s.len() > 0 && is_ws(s[0]) {
        trim_start_ws(s.drop_first())
    } else {
        s
    }
}

/// `s` without comment characters at either end.
pub open spec fn trim_comment(s: Seq<char>) -> Seq<char> {
    trim_start_comment(trim_end_comment(s))
}

/// `s` holds something other than whitespace.
pub open spec fn names_path(s: Seq<char>) -> bool {
    exists|i: int| 0 <= i < s.len() && !is_ws(#[trigger] s[i])
}

pub open spec fn occurs_at(s: Seq<char>, kw: Seq<char>, i: int) -> bool {
    0 <= i && i + kw.len() <= s.len() && s.subrange(i, i + kw.len()) == kw
}

/// The first position at or after `i` where `kw` occurs in `s`.
pub open spec fn find_from(s: Seq<char>, kw: Seq<char>, i: int) -> Option<int>
    decreases s.len() + 1 - i,
{
    if i < 0 || i + kw.len() > s.len() {
        None
    } else if occurs_at(s, kw, i) {
        Some(i)
    } else {
        find_from(s, kw, i + 1)
    }
}

pub open spec fn find(s: Seq<char>, kw: Seq<char>) -> Option<int> {
    find_from(s, kw, 0)
}

/// `s` with one trailing carriage return removed.
pub open spec fn strip_cr(s: Seq<char>) -> Seq<char> {
    if s.len() > 0 && s.last() == '\r' {
        s.drop_last()
    } else {
        s
    }
}

/// The lines of `s` from position `p` on, the current line having started at
/// `start`, as `str::lines` splits them: at `\n` or `\r\n`, with no empty
/// line after a final line ending.
pub open spec fn split_lines(s: Seq<char>, start: int, p: int) -> Seq<Seq<char>>
    decreases s.len() - p,
{
    if p >= s.len() {
        if start < s.len() {
            seq![s.subrange(start, s.len() as int)]
        } else {
            seq![]
        }
    } else if s[p] == '\n' {
        seq![strip_cr(s.subrange(start, p))] + split_lines(s, p + 1, p + 1)
    } else {
        split_lines(s, start, p + 1)
    }
}

pub open spec fn lines_of(s: Seq<char>) -> Seq<Seq<char>> {
    split_lines(s, 0, 0)
}

pub fn is_punct_char(c: char) -> (r: bool)
    ensures
        r == is_punct(c),
{
    let n = c as u32;
    (0x21 <= n && n <= 0x2f) || (0x3a <= n && n <= 0x40) || (0x5b <= n && n <= 0x60) || (0x7b <= n
        && n <= 0x7e)
}

pub fn is_ascii_ws_char(c: char) -> (r: bool)
    ensures
        r == is_ascii_ws(c),
{
    let n = c as u32;
    n == 0x20 || n == 0x09 || n == 0x0a || n == 0x0c || n == 0x0d
}

pub fn is_ws_char(c: char) -> (r: bool)
    ensures
        r == is_ws(c),
{
    let n = c as u32;
    (0x09 <= n && n <= 0x0d) || n == 0x20 || n == 0x85 || n == 0xa0 || n == 0x1680 || (0x2000 <= n
        && n <= 0x200a) || n == 0x2028 || n == 0x2029 || n == 0x202f || n == 0x205f || n == 0x3000
}

pub fn is_comment_char_exec(c: char) -> (r: bool)
    ensures
        r == is_comment_char(c),
{
    is_punct_char(c) || is_ascii_ws_char(c)
}

/// The characters of `s`, in order.
pub fn chars_of(s: &str) -> (r: Vec<char>)
    ensures
        r@ == s@,
{
    let mut out: Vec<char> = Vec::new();
    for c in it: s.chars()
        invariant
            out@ == it.seq().take(it.index() as int),
    {
        out.push(c);
    }
    assert(out@ =~= s@);
    out
}

/// A copy of `v[from..to]`.
pub fn copy_range(v: &Vec<char>, from: usize, to: usize) -> (r: Vec<char>)
    requires
        from <= to <= v.len(),
    ensures
        r@ == v@.subrange(from as int, to as int),
{
    let mut out: Vec<char> = Vec::new();
    let mut k: usize = from;
    while k < to
        invariant
            from <= k <= to <= v.len(),
            out@ == v@.subrange(from as int, k as int),
        decreases to - k,
    {
        out.push(v[k]);
        k += 1;
        assert(out@ =~= v@.subrange(from as int, k as int));
    }
    out
}

/// The end of `v[from..to]` once trailing comment characters are trimmed.
pub fn trim_end_comment_at(v: &Vec<char>, from: usize, to: usize) -> (e: usize)
    requires
        from <= to <= v.len(),
    ensures
        from <= e <= to,
        v@.subrange(from as int, e as int) == trim_end_comment(v@.subrange(from as int, to as int)),
{
    let mut k: usize = to;
    while k > from && is_comment_char_exec(v[k - 1])
        invariant
            from <= k <= to <= v.len(),
            trim_end_comment(v@.subrange(from as int, k as int)) == trim_end_comment(
                v@.subrange(from as int, to as int),
            ),
        decreases k,
    {
        assert(v@.subrange(from as int, k as int).drop_last() =~= v@.subrange(
            from as int,
            k - 1,
        ));
        k -= 1;
    }
    k
}

/// The start of `v[from..to]` once leading comment characters are trimmed.
pub fn trim_start_comment_at(v: &Vec<char>, from: usize, to: usize) -> (b: usize)
    requires
        from <= to <= v.len(),
    ensures
        from <= b <= to,
        v@.subrange(b as int, to as int) == trim_start_comment(v@.subrange(from as int, to as int)),
{
    let mut k: usize = from;
    while k < to && is_comment_char_exec(v[k])
        invariant
            from <= k <= to <= v.len(),
            trim_start_comment(v@.subrange(k as int, to as int)) == trim_start_comment(
                v@.subrange(from as int, to as int),
            ),
        decreases to - k,
    {
        assert(v@.subrange(k as int, to as int).drop_first() =~= v@.subrange(k + 1, to as int));
        k += 1;
    }
    k
}

/// The start of `v[from..to]` once leading whitespace is trimmed.
pub fn trim_start_ws_at(v: &Vec<char>, from: usize, to: usize) -> (b: usize)
    requires
        from <= to <= v.len(),
    ensures
        from <= b <= to,
        v@.subrange(b as int, to as int) == trim_start_ws(v@.subrange(from as int, to as int)),
{
    let mut k: usize = from;
    while k < to && is_ws_char(v[k])
        invariant
            from <= k <= to <= v.len(),
            trim_start_ws(v@.subrange(k as int, to as int)) == trim_start_ws(
                v@.subrange(from as int, to as int),
            ),
        decreases to - k,
    {
        assert(v@.subrange(k as int, to as int).drop_first() =~= v@.subrange(k + 1, to as int));
        k += 1;
    }
    k
}

/// Whether `v[from..to]` holds something other than whitespace.
pub fn names_path_at(v: &Vec<char>, from: usize, to: usize) -> (r: bool)
    requires
        from <= to <= v.len(),
    ensures
        r == names_path(v@.subrange(from as int, to as int)),
{
    let ghost s = v@.subrange(from as int, to as int);
    let mut k: usize = from;
    while k < to
        invariant
            from <= k <= to <= v.len(),
            s == v@.subrange(from as int, to as int),
            forall|i: int| 0 <= i < k - from ==> is_ws(#[trigger] s[i]),
        decreases to - k,
    {
        if !is_ws_char(v[k]) {
            assert(!is_ws(s[k - from]));
            return true;
        }
        k += 1;
    }
    false
}

/// Whether `kw` occurs in `v` at position `i`.
pub fn occurs_at_exec(v: &Vec<char>, kw: &Vec<char>, i: usize) -> (r: bool)
    ensures
        r == occurs_at(v@, kw@, i as int),
{
    if kw.len() > v.len() || i > v.len() - kw.len() {
        return false;
    }
    let mut j: usize = 0;
    while j < kw.len()
        invariant
            i + kw.len() <= v.len(),
            j <= kw.len(),
            forall|t: int| 0 <= t < j ==> v@[i + t] == kw@[t],
        decreases kw.len() - j,
    {
        if v[i + j] != kw[j] {
            assert(v@.subrange(i as int, i + kw.len())[j as int] != kw@[j as int]);
            return false;
        }
        j += 1;
    }
    assert(v@.subrange(i as int, i + kw.len()) =~= kw@);
    true
}

/// The first position where `kw` occurs in `v`.
pub fn find_exec(v: &Vec<char>, kw: &Vec<char>) -> (r: Option<usize>)
    requires
        kw.len() > 0,
    ensures
        r matches Some(i) ==> find(v@, kw@) == Some(i as int) && i + kw.len() <= v.len(),
        r is None ==> find(v@, kw@) is None,
{
    let mut i: usize = 0;
    while kw.len() <= v.len() && i <= v.len() - kw.len()
        invariant
            find(v@, kw@) == find_from(v@, kw@, i as int),
            kw.len() > 0,
            i <= v.len(),
        decreases v.len() + 1 - i,
    {
        if occurs_at_exec(v, kw, i) {
            return Some(i);
        }
        i += 1;
    }
    None
}

/// Whether `v[from..to]` consists of comment characters only.
pub fn all_comment_at(v: &Vec<char>, from: usize, to: usize) -> (r: bool)
    requires
        from <= to <= v.len(),
    ensures
        r == all_comment(v@.subrange(from as int, to as int)),
{
    let ghost s = v@.subrange(from as int, to as int);
    let mut k: usize = from;
    while k < to
        invariant
            from <= k <= to <= v.len(),
            s == v@.subrange(from as int, to as int),
            forall|i: int| 0 <= i < k - from ==> is_comment_char(#[trigger] s[i]),
        decreases to - k,
    {
        if !is_comment_char_exec(v[k]) {
            assert(!is_comment_char(s[k - from]));
            return false;
        }
        k += 1;
    }
    true
}

/// The first position at or after `start` where `kw` occurs in `v`.
pub fn find_from_exec(v: &Vec<char>, kw: &Vec<char>, start: usize) -> (r: Option<usize>)
    requires
        kw.len() > 0,
    ensures
        match r {
            Some(i) => find_from(v@, kw@, start as int) == Some(i as int) && start <= i && i
                + kw.len() <= v.len(),
            None => find_from(v@, kw@, start as int) is None,
        },
{
    let mut i: usize = start;
    while kw.len() <= v.len() && i <= v.len() - kw.len()
        invariant
            find_from(v@, kw@, start as int) == find_from(v@, kw@, i as int),
            kw.len() > 0,
            start <= i,
        decreases v.len() + 1 - i,
    {
        if occurs_at_exec(v, kw, i) {
            return Some(i);
        }
        i += 1;
    }
    None
}

pub open spec fn line_views(ls: Seq<Vec<char>>) -> Seq<Seq<char>> {
    ls.map_values(|l: Vec<char>| l@)
}

/// The lines of `v`, split as `lines_of` splits them.
pub fn split_into_lines(v: &Vec<char>) -> (r: Vec<Vec<char>>)
    ensures
        line_views(r@) == lines_of(v@),
{
    let n = v.len();
    let mut out: Vec<Vec<char>> = Vec::new();
    let mut start: usize = 0;
    let mut p: usize = 0;
    assert(line_views(out@) =~= seq![]);
    assert(seq![] + split_lines(v@, 0, 0) =~= lines_of(v@));
    while p < n
        invariant
            n == v.len(),
            start <= p <= n,
            line_views(out@) + split_lines(v@, start as int, p as int) == lines_of(v@),
        decreases n - p,
    {
        if v[p] == '\n' {
            let mut e = p;
            if e > start && v[e - 1] == '\r' {
                e = e - 1;
            }
            let line = copy_range(v, start, e);
            assert(line@ =~= strip_cr(v@.subrange(start as int, p as int)));
            let ghost before = line_views(out@);
            out.push(line);
            proof {
                assert(line_views(out@) =~= before.push(line@));
                assert(before.push(line@) + split_lines(v@, (p + 1) as int, (p + 1) as int)
                    =~= before + split_lines(v@, start as int, p as int));
            }
            start = p + 1;
        }
        p += 1;
    }
    if start < n {
        let line = copy_range(v, start, n);
        let ghost before = line_views(out@);
        out.push(line);
        assert(line_views(out@) =~= before.push(line@));
        assert(before.push(line@) =~= before + split_lines(v@, start as int, p as int));
    } else {
        assert(line_views(out@) =~= line_views(out@) + split_lines(v@, start as int, p as int));
    }
    out
}

} // verus!
