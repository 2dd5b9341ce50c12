//! Diagnostics: a position in a file and a message for the user.
use vstd::prelude::*;
use vstd::string::*;
use crate::text::chars_of;

verus! {

/// A diagnostic as the contracts see it.
pub struct DiagnosticView {
    pub path: Seq<char>,
    pub start_line: Option<usize>,
    pub end_line: Option<usize>,
    pub message: Seq<char>,
}

/// A finding tied to the place where the user is expected to act.
///
/// Lines are 0-indexed; `start_line..end_line` is inclusive-exclusive.
#[derive(Clone, Debug, PartialEq, Eq, PartialOrd, Ord)]
pub struct Diagnostic {
    pub path: String,
    pub start_line: Option<usize>,
    pub end_line: Option<usize>,
    pub message: String,
}

impl View for Diagnostic {
    type V = DiagnosticView;

    open spec fn view(&self) -> DiagnosticView {
        DiagnosticView {
            path: self.path@,
            start_line: self.start_line,
            end_line: self.end_line,
            message: self.message@,
        }
    }
}

/// The views of a sequence of diagnostics.
pub open spec fn views(ds: Seq<Diagnostic>) -> Seq<DiagnosticView> {
    ds.map_values(|d: Diagnostic| d@)
}

/// A diagnostic pointing at one line of `path`.
pub open spec fn at_line(path: Seq<char>, line: usize, message: Seq<char>) -> DiagnosticView {
    DiagnosticView { path, start_line: Some(line), end_line: None, message }
}

/// A diagnostic pointing at `path` as a whole.
pub open spec fn at_file(path: Seq<char>, message: Seq<char>) -> DiagnosticView {
    DiagnosticView { path, start_line: None, end_line: None, message }
}

pub open spec fn digit(d: nat) -> char {
    ((d % 10) + 0x30) as char
}

/// The decimal digits of `n`.
pub open spec fn decimal(n: nat) -> Seq<char>
    decreases n,
{
    if n < 10 {
        seq![digit(n)]
    } else {
        decimal(n / 10).push(digit(n % 10))
    }
}

/// A position as the user reads it: `path`, `path:N` or `path:N-M`, with
/// 1-indexed inclusive lines; a range of one line reads as `path:N`.
pub open spec fn position_text(path: Seq<char>, start: Option<usize>, end: Option<usize>) -> Seq<
    char,
> {
    match start {
        None => path,
        Some(s) => match end {
            Some(e) if e != s + 1 => path + seq![':'] + decimal((s + 1) as nat) + seq!['-']
                + decimal(e as nat),
            _ => path + seq![':'] + decimal((s + 1) as nat),
        },
    }
}

/// A diagnostic as one line of output: `<position> - <message>`.
pub open spec fn diagnostic_text(d: DiagnosticView) -> Seq<char> {
    position_text(d.path, d.start_line, d.end_line) + seq![' ', '-', ' '] + d.message
}

fn digit_str(d: usize) -> (r: &'static str)
    requires
        d < 10,
    ensures
        r@ == seq![digit(d as nat)],
{
    proof {
        reveal_strlit("0");
        reveal_strlit("1");
        reveal_strlit("2");
        reveal_strlit("3");
        reveal_strlit("4");
        reveal_strlit("5");
        reveal_strlit("6");
        reveal_strlit("7");
        reveal_strlit("8");
        reveal_strlit("9");
    }
    if d == 0 {
        "0"
    } else if d == 1 {
        "1"
    } else if d == 2 {
        "2"
    } else if d == 3 {
        "3"
    } else if d == 4 {
        "4"
    } else if d == 5 {
        "5"
    } else if d == 6 {
        "6"
    } else if d == 7 {
        "7"
    } else if d == 8 {
        "8"
    } else {
        "9"
    }
}

/// Appends the decimal digits of `n` to `s`.
pub fn push_decimal(s: &mut String, n: u128)
    ensures
        final(s)@ == old(s)@ + decimal(n as nat),
    decreases n,
{
    if n >= 10 {
        push_decimal(s, n / 10);
    }
    s.append(digit_str((n % 10) as usize));
    assert(final(s)@ =~= old(s)@ + decimal(n as nat));
}

/// Appends the text of a position to `s`.
pub fn push_position(s: &mut String, path: &str, start: Option<usize>, end: Option<usize>)
    ensures
        final(s)@ == old(s)@ + position_text(path@, start, end),
{
    proof {
        reveal_strlit(":");
        reveal_strlit("-");
    }
    s.append(path);
    if let Some(st) = start {
        s.append(":");
        push_decimal(s, st as u128 + 1);
        if let Some(e) = end {
            if e as u128 != st as u128 + 1 {
                s.append("-");
                push_decimal(s, e as u128);
            }
        }
    }
    assert(final(s)@ =~= old(s)@ + position_text(path@, start, end));
}

/// Where a diagnostic points: a file, and optionally a range of its lines
/// (0-indexed, inclusive-exclusive).
#[derive(Clone, Debug, PartialEq, Eq)]
pub struct DiagnosticPosition {
    pub path: String,
    pub start_line: Option<usize>,
    pub end_line: Option<usize>,
}

impl DiagnosticPosition {
    /// The position as the user reads it: `path`, `path:N` or `path:N-M`.
    pub fn to_string(&self) -> (r: String)
        ensures
            r@ == position_text(self.path@, self.start_line, self.end_line),
    {
        let mut s = String::new();
        push_position(&mut s, self.path.as_str(), self.start_line, self.end_line);
        assert(s@ =~= position_text(self.path@, self.start_line, self.end_line));
        s
    }
}

impl Diagnostic {
    /// The diagnostic as one line of output, `<position> - <message>`.
    pub fn to_string(&self) -> (r: String)
        ensures
            r@ == diagnostic_text(self@),
    {
        proof {
            reveal_strlit(" - ");
        }
        let mut s = String::new();
        push_position(&mut s, self.path.as_str(), self.start_line, self.end_line);
        s.append(" - ");
        s.append(self.message.as_str());
        assert(s@ =~= diagnostic_text(self@));
        s
    }
}

/// Lexicographic comparison of texts by code point: negative, zero or positive.
pub open spec fn text_cmp(a: Seq<char>, b: Seq<char>) -> int
    decreases a.len(),
{
    if a.len() == 0 {
        if b.len() == 0 {
            0
        } else {
            -1
        }
    } else if b.len() == 0 {
        1
    } else if (a[0] as u32) < (b[0] as u32) {
        -1
    } else if (a[0] as u32) > (b[0] as u32) {
        1
    } else {
        text_cmp(a.drop_first(), b.drop_first())
    }
}

/// Comparison of optional line numbers, an absent one first.
pub open spec fn line_cmp(a: Option<usize>, b: Option<usize>) -> int {
    match (a, b) {
        (None, None) => 0,
        (None, Some(_)) => -1,
        (Some(_), None) => 1,
        (Some(x), Some(y)) => if x < y {
            -1
        } else if x > y {
            1
        } else {
            0
        },
    }
}

/// The output order: by path, then start line, then end line, then message.
pub open spec fn diag_cmp(a: DiagnosticView, b: DiagnosticView) -> int {
    if text_cmp(a.path, b.path) != 0 {
        text_cmp(a.path, b.path)
    } else if line_cmp(a.start_line, b.start_line) != 0 {
        line_cmp(a.start_line, b.start_line)
    } else if line_cmp(a.end_line, b.end_line) != 0 {
        line_cmp(a.end_line, b.end_line)
    } else {
        text_cmp(a.message, b.message)
    }
}

pub open spec fn diag_le(a: DiagnosticView, b: DiagnosticView) -> bool {
    diag_cmp(a, b) <= 0
}

/// `d` inserted into `s` after every element that orders before or with it
/// at the end of `s`.
pub open spec fn insert_sorted(s: Seq<DiagnosticView>, d: DiagnosticView) -> Seq<DiagnosticView>
    decreases s.len(),
{
    if s.len() == 0 || diag_le(s.last(), d) {
        s.push(d)
    } else {
        insert_sorted(s.drop_last(), d).push(s.last())
    }
}

/// `s` in output order.
pub open spec fn sort_diags(s: Seq<DiagnosticView>) -> Seq<DiagnosticView>
    decreases s.len(),
{
    if s.len() == 0 {
        s
    } else {
        insert_sorted(sort_diags(s.drop_last()), s.last())
    }
}

fn text_cmp_exec(a: &Vec<char>, b: &Vec<char>) -> (r: i8)
    ensures
        r as int == text_cmp(a@, b@),
{
    let mut k: usize = 0;
    assert(a@.skip(0) =~= a@);
    assert(b@.skip(0) =~= b@);
    while k < a.len() && k < b.len() && (a[k] as u32) == (b[k] as u32)
        invariant
            k <= a.len(),
            k <= b.len(),
            text_cmp(a@, b@) == text_cmp(a@.skip(k as int), b@.skip(k as int)),
        decreases a.len() - k,
    {
        assert(a@.skip(k as int).drop_first() =~= a@.skip(k + 1));
        assert(b@.skip(k as int).drop_first() =~= b@.skip(k + 1));
        k += 1;
    }
    proof {
        if k < a.len() {
            assert(a@.skip(k as int)[0] == a@[k as int]);
        }
        if k < b.len() {
            assert(b@.skip(k as int)[0] == b@[k as int]);
        }
    }
    if k == a.len() {
        if k == b.len() {
            0
        } else {
            -1
        }
    } else if k == b.len() {
        1
    } else {
        let x = a[k] as u32;
        let y = b[k] as u32;
        assert(a@.skip(k as int).len() > 0 && b@.skip(k as int).len() > 0);
        if x < y {
            -1
        } else {
            1
        }
    }
}

fn line_cmp_exec(a: Option<usize>, b: Option<usize>) -> (r: i8)
    ensures
        r as int == line_cmp(a, b),
{
    match (a, b) {
        (None, None) => 0,
        (None, Some(_)) => -1,
        (Some(_), None) => 1,
        (Some(x), Some(y)) => if x < y {
            -1
        } else if x > y {
            1
        } else {
            0
        },
    }
}

/// Whether `a` orders before `b` or with it.
pub fn diag_le_exec(a: &Diagnostic, b: &Diagnostic) -> (r: bool)
    ensures
        r == diag_le(a@, b@),
{
    let c = text_cmp_exec(&chars_of(a.path.as_str()), &chars_of(b.path.as_str()));
    if c != 0 {
        return c < 0;
    }
    let c = line_cmp_exec(a.start_line, b.start_line);
    if c != 0 {
        return c < 0;
    }
    let c = line_cmp_exec(a.end_line, b.end_line);
    if c != 0 {
        return c < 0;
    }
    text_cmp_exec(&chars_of(a.message.as_str()), &chars_of(b.message.as_str())) <= 0
}

pub fn clone_diagnostic(d: &Diagnostic) -> (r: Diagnostic)
    ensures
        r@ == d@,
{
    Diagnostic {
        path: d.path.clone(),
        start_line: d.start_line,
        end_line: d.end_line,
        message: d.message.clone(),
    }
}

/// Inserts `d` into `v` as `insert_sorted` does.
fn insert_diag(v: &mut Vec<Diagnostic>, d: Diagnostic)
    ensures
        views(final(v)@) == insert_sorted(views(old(v)@), d@),
{
    let mut j: usize = v.len();
    assert(v@.take(j as int) =~= v@);
    assert(views(v@.skip(j as int)) =~= seq![]);
    assert(insert_sorted(views(v@), d@) =~= insert_sorted(views(v@), d@) + seq![]);
    while j > 0 && !diag_le_exec(&v[j - 1], &d)
        invariant
            j <= v.len(),
            v@ == old(v)@,
            insert_sorted(views(v@), d@) == insert_sorted(views(v@.take(j as int)), d@) + views(
                v@.skip(j as int),
            ),
        decreases j,
    {
        proof {
            let pre = views(v@.take(j as int));
            assert(pre.drop_last() =~= views(v@.take(j - 1)));
            assert(pre.last() == v@[j - 1]@);
            assert(views(v@.skip(j - 1)) =~= seq![v@[j - 1]@] + views(v@.skip(j as int)));
            assert(insert_sorted(pre, d@) == insert_sorted(pre.drop_last(), d@).push(pre.last()));
            assert(insert_sorted(views(v@.take(j - 1)), d@).push(v@[j - 1]@) + views(
                v@.skip(j as int),
            ) =~= insert_sorted(views(v@.take(j - 1)), d@) + views(v@.skip(j - 1)));
        }
        j -= 1;
    }
    proof {
        let pre = views(v@.take(j as int));
        assert(insert_sorted(pre, d@) == pre.push(d@));
    }
    v.insert(j, d);
    assert(views(v@) =~= views(old(v)@.take(j as int)).push(d@) + views(old(v)@.skip(j as int)));
}

/// `ds` in output order.
pub fn sort_diagnostics(ds: Vec<Diagnostic>) -> (r: Vec<Diagnostic>)
    ensures
        views(r@) == sort_diags(views(ds@)),
{
    let mut out: Vec<Diagnostic> = Vec::new();
    let mut k: usize = 0;
    while k < ds.len()
        invariant
            k <= ds.len(),
            views(out@) == sort_diags(views(ds@.take(k as int))),
        decreases ds.len() - k,
    {
        proof {
            let pre = views(ds@.take(k + 1));
            assert(pre.drop_last() =~= views(ds@.take(k as int)));
            assert(pre.last() == ds@[k as int]@);
        }
        insert_diag(&mut out, clone_diagnostic(&ds[k]));
        k += 1;
    }
    assert(ds@.take(k as int) =~= ds@);
    out
}

} // verus!
