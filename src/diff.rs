//! The change at hand: the patched files of a unified diff, and the
//! post-diff paths that the rest of the check works on.
use vstd::prelude::*;
use vstd::string::*;
use crate::diagnostic::{at_file, views, Diagnostic, DiagnosticView};
use crate::text::{
    chars_of, find_from, find_from_exec, line_views, lines_of, occurs_at, occurs_at_exec,
    split_into_lines,
};

verus! {

broadcast use vstd::string::group_string_axioms;

/// One line of a hunk: its 1-indexed line number in the post-diff file
/// (absent for removed lines), and whether it was added or removed.
#[derive(Clone, Copy, Debug, PartialEq, Eq)]
pub struct DiffLine {
    pub target_line: Option<usize>,
    pub added: bool,
    pub removed: bool,
}

/// One patched file: its pre- and post-diff paths as the diff spells them,
/// and its hunks, each a sequence of lines.
#[derive(Debug)]
pub struct FileDiff {
    pub source_path: String,
    pub target_path: String,
    pub hunks: Vec<Vec<DiffLine>>,
}

pub struct FileDiffView {
    pub source_path: Seq<char>,
    pub target_path: Seq<char>,
    pub hunks: Seq<Seq<DiffLine>>,
}

pub open spec fn hunk_views(hs: Seq<Vec<DiffLine>>) -> Seq<Seq<DiffLine>> {
    hs.map_values(|h: Vec<DiffLine>| h@)
}

impl View for FileDiff {
    type V = FileDiffView;

    open spec fn view(&self) -> FileDiffView {
        FileDiffView {
            source_path: self.source_path@,
            target_path: self.target_path@,
            hunks: hunk_views(self.hunks@),
        }
    }
}

pub open spec fn file_diff_views(fs: Seq<FileDiff>) -> Seq<FileDiffView> {
    fs.map_values(|f: FileDiff| f@)
}

/// The patched files that `unidiff` reads from a diff text, or `None` when
/// it refuses the text.
pub uninterp spec fn unified_diff_of(input: Seq<char>) -> Option<Seq<FileDiffView>>;

pub open spec fn source_marker() -> Seq<char> {
    seq!['-', '-', '-', ' ']
}

pub open spec fn target_marker() -> Seq<char> {
    seq!['+', '+', '+', ' ']
}

pub open spec fn hunk_marker() -> Seq<char> {
    seq!['@', '@', ' ', '-']
}

pub open spec fn hunk_close() -> Seq<char> {
    seq![' ', '@', '@']
}

/// A line that `unidiff` takes for a source file header: `--- ` and a name.
pub open spec fn source_header(l: Seq<char>) -> bool {
    occurs_at(l, source_marker(), 0) && l.len() > 4 && l[4] != '\t'
}

/// A line that may be a target file header: it starts with `+++ `.
pub open spec fn target_header_like(l: Seq<char>) -> bool {
    occurs_at(l, target_marker(), 0)
}

/// Every line that may be a target file header has a source file header
/// somewhere before it.
pub open spec fn headers_ordered(ls: Seq<Seq<char>>) -> bool {
    forall|i: int|
        0 <= i < ls.len() && target_header_like(#[trigger] ls[i]) ==> exists|j: int|
            0 <= j < i && source_header(#[trigger] ls[j])
}

pub open spec fn is_ascii_digit(c: char) -> bool {
    0x30 <= (c as u32) <= 0x39
}

pub open spec fn header_char(c: char) -> bool {
    is_ascii_digit(c) || c == ',' || c == ' ' || c == '+'
}

/// How many ASCII digits stand in a row just before position `i` of `s`.
pub open spec fn digits_before(s: Seq<char>, i: int) -> nat
    decreases i,
{
    if i <= 0 || i > s.len() || !is_ascii_digit(s[i - 1]) {
        0
    } else {
        1 + digits_before(s, i - 1)
    }
}

/// The numbers of a hunk header: ASCII digits, commas, spaces and plus
/// signs, no number longer than nine digits.
pub open spec fn numbers_ok(s: Seq<char>) -> bool {
    forall|i: int| 0 <= i < s.len() ==> header_char(#[trigger] s[i]) && digits_before(s, i + 1) <= 9
}

/// A line that starts like a hunk header has small ASCII numbers up to the
/// closing ` @@`.
pub open spec fn hunk_header_ok(l: Seq<char>) -> bool {
    occurs_at(l, hunk_marker(), 0) ==> match find_from(l, hunk_close(), 4) {
        Some(k) => numbers_ok(l.subrange(4, k)),
        None => true,
    }
}

/// A diff text that `unidiff` reads without panicking: no target file header
/// before the first source file header, and hunk header numbers that parse
/// as `usize` and add up without overflow.
pub open spec fn readable_diff(text: Seq<char>) -> bool {
    headers_ordered(lines_of(text)) && forall|i: int|
        0 <= i < lines_of(text).len() ==> hunk_header_ok(#[trigger] lines_of(text)[i])
}

/// Relies on `unidiff::PatchSet::parse` (with `PatchSet::files`,
/// `PatchedFile::hunks`, `Hunk::lines`, `Line::is_added` and
/// `Line::is_removed`): it reads the patched files of a unified diff, and
/// what it reads depends on the text alone. It panics on a target header
/// with no source header before it, and on hunk numbers that do not parse as
/// `usize` or whose sums overflow: `readable_diff` leaves those out.
#[verifier::external_body]
fn read_unified_diff(input: &str) -> (r: Option<Vec<FileDiff>>)
    requires
        readable_diff(input@),
    ensures
        match r {
            Some(fs) => unified_diff_of(input@) == Some(file_diff_views(fs@)),
            None => unified_diff_of(input@) is None,
        },
{
    let mut set = unidiff::PatchSet::new();
    set.parse(input).ok()?;
    Some(set.files().iter().map(|f| FileDiff {
        source_path: f.source_file.clone(),
        target_path: f.target_file.clone(),
        hunks: f.hunks().iter().map(|h| h.lines().iter().map(|l| DiffLine {
            target_line: l.target_line_no,
            added: l.is_added(),
            removed: l.is_removed(),
        }).collect()).collect(),
    }).collect())
}

pub open spec fn starts_with(s: Seq<char>, p: Seq<char>) -> bool {
    p.len() <= s.len() && s.take(p.len() as int) == p
}

pub open spec fn git_header() -> Seq<char> {
    "diff --git"@
}

pub open spec fn dev_null() -> Seq<char> {
    "/dev/null"@
}

pub open spec fn before_prefix() -> Seq<char> {
    "a/"@
}

pub open spec fn after_prefix() -> Seq<char> {
    "b/"@
}

/// A diff as read: its patched files, and whether it is a git diff.
#[derive(Debug)]
pub struct Diff {
    pub files: Vec<FileDiff>,
    pub is_git_diff: bool,
}

/// Whether `s` starts with `p`.
pub fn starts_with_exec(s: &str, p: &str) -> (r: bool)
    ensures
        r == starts_with(s@, p@),
{
    let a = chars_of(s);
    let b = chars_of(p);
    if b.len() > a.len() {
        return false;
    }
    let mut k: usize = 0;
    while k < b.len()
        invariant
            a@ == s@,
            b@ == p@,
            b.len() <= a.len(),
            k <= b.len(),
            forall|i: int| 0 <= i < k ==> a@[i] == b@[i],
        decreases b.len() - k,
    {
        if a[k] != b[k] {
            assert(a@.take(b.len() as int)[k as int] != b@[k as int]);
            assert(a@.take(b.len() as int) != b@);
            return false;
        }
        k += 1;
    }
    assert(a@.take(b.len() as int) =~= b@);
    true
}

/// Whether the hunk header numbers of line `l` are acceptable.
fn hunk_header_ok_exec(l: &Vec<char>) -> (r: bool)
    ensures
        r == hunk_header_ok(l@),
{
    let marker: Vec<char> = vec!['@', '@', ' ', '-'];
    let close: Vec<char> = vec![' ', '@', '@'];
    assert(marker@ =~= hunk_marker());
    assert(close@ =~= hunk_close());
    if !occurs_at_exec(l, &marker, 0) {
        return true;
    }
    let k = match find_from_exec(l, &close, 4) {
        Some(k) => k,
        None => {
            return true;
        },
    };
    let ghost s = l@.subrange(4, k as int);
    let mut run: usize = 0;
    let mut j: usize = 4;
    while j < k
        invariant
            4 <= j <= k <= l.len(),
            s == l@.subrange(4, k as int),
            occurs_at(l@, hunk_marker(), 0),
            find_from(l@, hunk_close(), 4) == Some(k as int),
            run == digits_before(s, j - 4),
            run <= 9,
            forall|i: int| 0 <= i < j - 4 ==> header_char(#[trigger] s[i]) && digits_before(s, i + 1)
                <= 9,
        decreases k - j,
    {
        let c = l[j];
        assert(s[j - 4] == c);
        let n = c as u32;
        let digit = 0x30 <= n && n <= 0x39;
        if !(digit || c == ',' || c == ' ' || c == '+') {
            assert(!header_char(s[j - 4]));
            assert(!numbers_ok(s));
            return false;
        }
        if digit {
            run = run + 1;
        } else {
            run = 0;
        }
        assert(run == digits_before(s, j - 4 + 1));
        if run > 9 {
            assert(digits_before(s, (j - 4) + 1) > 9);
            assert(header_char(s[j - 4]));
            assert(!numbers_ok(s));
            return false;
        }
        j += 1;
    }
    assert(numbers_ok(s));
    true
}

/// Whether `unidiff` can read `input` without panicking.
pub fn diff_is_readable(input: &str) -> (r: bool)
    ensures
        r == readable_diff(input@),
{
    let chars = chars_of(input);
    let lines = split_into_lines(&chars);
    let ghost ls = line_views(lines@);
    let source: Vec<char> = vec!['-', '-', '-', ' '];
    let target: Vec<char> = vec!['+', '+', '+', ' '];
    assert(source@ =~= source_marker());
    assert(target@ =~= target_marker());
    let mut seen_source = false;
    let ghost mut witness: int = 0;
    let mut i: usize = 0;
    while i < lines.len()
        invariant
            i <= lines.len(),
            ls == line_views(lines@),
            ls == lines_of(input@),
            source@ == source_marker(),
            target@ == target_marker(),
            seen_source ==> 0 <= witness < i && source_header(ls[witness]),
            !seen_source ==> forall|j: int| 0 <= j < i ==> !source_header(#[trigger] ls[j]),
            forall|t: int|
                0 <= t < i && target_header_like(#[trigger] ls[t]) ==> exists|j: int|
                    0 <= j < t && source_header(#[trigger] ls[j]),
            forall|t: int| 0 <= t < i ==> hunk_header_ok(#[trigger] ls[t]),
        decreases lines.len() - i,
    {
        let l = &lines[i];
        assert(ls[i as int] == l@);
        if occurs_at_exec(l, &target, 0) && !seen_source {
            assert(target_header_like(ls[i as int]));
            assert(!headers_ordered(ls));
            return false;
        }
        if !hunk_header_ok_exec(l) {
            return false;
        }
        if !seen_source && occurs_at_exec(l, &source, 0) && l.len() > 4 && l[4] != '\t' {
            seen_source = true;
            proof {
                witness = i as int;
            }
        }
        proof {
            if target_header_like(ls[i as int]) {
                assert(source_header(ls[witness]));
            }
        }
        i += 1;
    }
    true
}

/// Reads a unified diff: `None` when it cannot be read at all, either because
/// `unidiff` would not get through it (see `readable_diff`) or because it
/// refuses it. A text that starts with `diff --git` is a git diff.
pub fn read_diff(input: &str) -> (r: Option<Diff>)
    ensures
        match r {
            Some(d) => readable_diff(input@) && unified_diff_of(input@) == Some(
                file_diff_views(d.files@),
            ) && d.is_git_diff == starts_with(input@, git_header()),
            None => !readable_diff(input@) || unified_diff_of(input@) is None,
        },
{
    if !diff_is_readable(input) {
        return None;
    }
    let files = read_unified_diff(input);
    match files {
        Some(files) => Some(Diff { files, is_git_diff: starts_with_exec(input, "diff --git") }),
        None => None,
    }
}

/// A git diff names `a/<path>` (or `/dev/null`) before and `b/<path>` (or
/// `/dev/null`) after.
pub open spec fn git_pair_valid(f: FileDiffView) -> bool {
    (starts_with(f.source_path, before_prefix()) || f.source_path == dev_null()) && (starts_with(
        f.target_path,
        after_prefix(),
    ) || f.target_path == dev_null())
}

/// The path of the patched file after the diff, if it still exists and its
/// paths are well formed.
pub open spec fn post_diff_path(f: FileDiffView, git: bool) -> Option<Seq<char>> {
    if git {
        if git_pair_valid(f) && starts_with(f.target_path, after_prefix()) {
            Some(f.target_path.skip(2))
        } else {
            None
        }
    } else if f.target_path == dev_null() {
        None
    } else {
        Some(f.target_path)
    }
}

pub open spec fn msg_invalid_pair(f: FileDiffView) -> Seq<char> {
    "invalid git diff: expected a/before.path -> b/after.path, but got '"@ + f.source_path
        + "' -> '"@ + f.target_path + "'"@
}

/// Where diagnostics about the diff itself point.
pub open spec fn diff_input() -> Seq<char> {
    "stdin"@
}

/// The diagnostics on the paths of the patched files.
pub open spec fn envelope_diags(fs: Seq<FileDiffView>, git: bool) -> Seq<DiagnosticView>
    decreases fs.len(),
{
    if fs.len() == 0 {
        seq![]
    } else if git && !git_pair_valid(fs.last()) {
        envelope_diags(fs.drop_last(), git).push(at_file(diff_input(), msg_invalid_pair(fs.last())))
    } else {
        envelope_diags(fs.drop_last(), git)
    }
}

/// A file that the diff changes, under its post-diff path.
#[derive(Debug)]
pub struct ChangedFile {
    pub path: String,
    pub hunks: Vec<Vec<DiffLine>>,
}

pub struct ChangedView {
    pub path: Seq<char>,
    pub hunks: Seq<Seq<DiffLine>>,
}

impl View for ChangedFile {
    type V = ChangedView;

    open spec fn view(&self) -> ChangedView {
        ChangedView { path: self.path@, hunks: hunk_views(self.hunks@) }
    }
}

pub open spec fn changed_views(cs: Seq<ChangedFile>) -> Seq<ChangedView> {
    cs.map_values(|c: ChangedFile| c@)
}

/// The first position of `p` among the paths of `cs` at or after `k`.
pub open spec fn path_index_from(cs: Seq<ChangedView>, p: Seq<char>, k: int) -> Option<int>
    decreases cs.len() - k,
{
    if k < 0 || k >= cs.len() {
        None
    } else if cs[k].path == p {
        Some(k)
    } else {
        path_index_from(cs, p, k + 1)
    }
}

pub open spec fn path_index(cs: Seq<ChangedView>, p: Seq<char>) -> Option<int> {
    path_index_from(cs, p, 0)
}

/// What `path_index_from` finds holds `p`, and nothing before it does.
pub proof fn lemma_path_index(cs: Seq<ChangedView>, p: Seq<char>, k0: int)
    requires
        0 <= k0,
    ensures
        match path_index_from(cs, p, k0) {
            Some(k) => k0 <= k < cs.len() && cs[k].path == p && forall|j: int|
                k0 <= j < k ==> (#[trigger] cs[j]).path != p,
            None => forall|j: int| k0 <= j < cs.len() ==> (#[trigger] cs[j]).path != p,
        },
    decreases cs.len() - k0,
{
    if k0 < cs.len() && cs[k0].path != p {
        lemma_path_index(cs, p, k0 + 1);
    }
}

/// `cs` with the hunks of `p`: a later patch of a path replaces an earlier one.
pub open spec fn record_change(cs: Seq<ChangedView>, p: Seq<char>, hunks: Seq<Seq<DiffLine>>) -> Seq<
    ChangedView,
> {
    match path_index(cs, p) {
        Some(k) => cs.update(k, ChangedView { path: p, hunks }),
        None => cs.push(ChangedView { path: p, hunks }),
    }
}

/// No two files of `cs` share a path.
pub open spec fn distinct_paths(cs: Seq<ChangedView>) -> bool {
    forall|i: int, j: int| 0 <= i < j < cs.len() ==> (#[trigger] cs[i]).path != (#[trigger] cs[j]).path
}

/// Recording a change keeps the paths distinct.
proof fn lemma_record_change_distinct(cs: Seq<ChangedView>, p: Seq<char>, hunks: Seq<Seq<DiffLine>>)
    requires
        distinct_paths(cs),
    ensures
        distinct_paths(record_change(cs, p, hunks)),
{
    lemma_path_index(cs, p, 0);
    let r = record_change(cs, p, hunks);
    assert forall|i: int, j: int| 0 <= i < j < r.len() implies (#[trigger] r[i]).path != (
    #[trigger] r[j]).path by {
        if path_index(cs, p) is None {
            if j == cs.len() {
                assert(r[i] == cs[i]);
            } else {
                assert(r[i] == cs[i] && r[j] == cs[j]);
            }
        }
    }
}

/// The files of a change have distinct paths.
pub proof fn lemma_changed_files_distinct(fs: Seq<FileDiffView>, git: bool)
    ensures
        distinct_paths(changed_files(fs, git)),
    decreases fs.len(),
{
    if fs.len() > 0 {
        lemma_changed_files_distinct(fs.drop_last(), git);
        if let Some(p) = post_diff_path(fs.last(), git) {
            lemma_record_change_distinct(changed_files(fs.drop_last(), git), p, fs.last().hunks);
        }
    }
}

/// The files that the diff leaves in place, by post-diff path.
pub open spec fn changed_files(fs: Seq<FileDiffView>, git: bool) -> Seq<ChangedView>
    decreases fs.len(),
{
    if fs.len() == 0 {
        seq![]
    } else {
        match post_diff_path(fs.last(), git) {
            Some(p) => record_change(changed_files(fs.drop_last(), git), p, fs.last().hunks),
            None => changed_files(fs.drop_last(), git),
        }
    }
}

/// The change at hand: the files it leaves in place, and the
/// diagnostics on patched files whose paths are malformed.
#[derive(Debug)]
pub struct Change {
    pub files: Vec<ChangedFile>,
    pub diagnostics: Vec<Diagnostic>,
}

/// Where `p` stands among the paths of `cs`.
pub fn path_position(cs: &Vec<ChangedFile>, p: &String) -> (r: Option<usize>)
    ensures
        match r {
            Some(j) => path_index(changed_views(cs@), p@) == Some(j as int) && j < cs.len(),
            None => path_index(changed_views(cs@), p@) is None,
        },
{
    let ghost cv = changed_views(cs@);
    let mut k: usize = 0;
    while k < cs.len()
        invariant
            k <= cs.len(),
            cv == changed_views(cs@),
            path_index(cv, p@) == path_index_from(cv, p@, k as int),
        decreases cs.len() - k,
    {
        if cs[k].path.eq(p) {
            return Some(k);
        }
        k += 1;
    }
    None
}

impl Change {
    /// Sorts the patched files of a diff by post-diff path. In a git diff, a
    /// file whose paths break the `a/…` → `b/…` convention is reported and
    /// left out; a deleted file (after the diff, `/dev/null`) is left out.
    pub fn from_diff(files: Vec<FileDiff>, is_git_diff: bool) -> (r: Change)
        ensures
            changed_views(r.files@) == changed_files(file_diff_views(files@), is_git_diff),
            views(r.diagnostics@) == envelope_diags(file_diff_views(files@), is_git_diff),
    {
        let ghost all = file_diff_views(files@);
        let ghost n = files.len();
        let mut rest = files;
        let mut changed: Vec<ChangedFile> = Vec::new();
        let mut diags: Vec<Diagnostic> = Vec::new();
        let dev_null_path = "/dev/null".to_owned();
        let mut k: usize = 0;
        assert(all.take(0) =~= seq![]);
        assert(changed_views(changed@) =~= seq![]);
        assert(views(diags@) =~= seq![]);
        while rest.len() > 0
            invariant
                n == all.len(),
                k + rest.len() == n,
                file_diff_views(rest@) == all.skip(k as int),
                dev_null_path@ == dev_null(),
                changed_views(changed@) == changed_files(all.take(k as int), is_git_diff),
                views(diags@) == envelope_diags(all.take(k as int), is_git_diff),
            decreases rest.len(),
        {
            let ghost old_rest = rest@;
            let f = rest.remove(0);
            let ghost fv = f@;
            proof {
                assert(file_diff_views(old_rest)[0] == old_rest[0]@);
                assert(all.skip(k as int)[0] == all[k as int]);
                assert(fv == all[k as int]);
                assert(rest@ =~= old_rest.drop_first());
                assert(all.take(k + 1).drop_last() =~= all.take(k as int));
                assert(all.take(k + 1).last() == fv);
                assert(file_diff_views(rest@) =~= file_diff_views(old_rest).drop_first());
                assert(file_diff_views(old_rest).drop_first() =~= all.skip(k + 1));
            }
            let source_ok = starts_with_exec(f.source_path.as_str(), "a/") || f.source_path.eq(
                &dev_null_path,
            );
            let target_prefixed = starts_with_exec(f.target_path.as_str(), "b/");
            let target_ok = target_prefixed || f.target_path.eq(&dev_null_path);
            let mut post: Option<String> = None;
            if is_git_diff {
                if !source_ok || !target_ok {
                    proof {
                        reveal_strlit("stdin");
                    }
                    let mut message = "invalid git diff: expected a/before.path -> b/after.path, but got '".to_owned();
                    message.append(f.source_path.as_str());
                    message.append("' -> '");
                    message.append(f.target_path.as_str());
                    message.append("'");
                    let d = Diagnostic {
                        path: "stdin".to_owned(),
                        start_line: None,
                        end_line: None,
                        message,
                    };
                    let ghost before = views(diags@);
                    diags.push(d);
                    assert(views(diags@) =~= before.push(d@));
                    assert(d@ == at_file(diff_input(), msg_invalid_pair(fv)));
                } else if target_prefixed {
                    proof {
                        reveal_strlit("b/");
                    }
                    let len = f.target_path.as_str().unicode_len();
                    post = Some(f.target_path.as_str().substring_char(2, len).to_owned());
                    assert(post->0@ =~= fv.target_path.skip(2));
                }
            } else if !f.target_path.eq(&dev_null_path) {
                post = Some(f.target_path.as_str().to_owned());
            }
            assert(post is Some <==> post_diff_path(fv, is_git_diff) is Some);
            assert(post matches Some(p) ==> post_diff_path(fv, is_git_diff) == Some(p@));
            let ghost before_changed = changed_views(changed@);
            if let Some(p) = post {
                let FileDiff { source_path: _, target_path: _, hunks } = f;
                let ghost pv = p@;
                let c = ChangedFile { path: p, hunks };
                assert(c@.hunks == fv.hunks);
                assert(c@ == ChangedView { path: pv, hunks: fv.hunks });
                let ghost before = changed_views(changed@);
                match path_position(&changed, &c.path) {
                    Some(j) => {
                        changed.set(j, c);
                        assert(changed_views(changed@) =~= before.update(j as int, c@));
                    },
                    None => {
                        changed.push(c);
                        assert(changed_views(changed@) =~= before.push(c@));
                    },
                }
                assert(changed_views(changed@) == record_change(before_changed, pv, fv.hunks));
            }
            proof {
                let t = all.take(k + 1);
                assert(t.drop_last() =~= all.take(k as int));
                assert(changed_files(t, is_git_diff) == match post_diff_path(fv, is_git_diff) {
                    Some(q) => record_change(before_changed, q, fv.hunks),
                    None => before_changed,
                });
            }
            k += 1;
        }
        assert(all.take(k as int) =~= all);
        Change { files: changed, diagnostics: diags }
    }
}

} // verus!
