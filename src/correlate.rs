//! From a change and the files it reaches to the diagnostics for every
//! co-change obligation that the change leaves unmet.
//!
//! Discovery parses the changed files, drops obligations that target the
//! declaring file itself or a file that cannot be read, and reaches one step
//! further: the files that the changed files' blocks name are parsed too, but
//! their own targets are not followed. A block is touched when an added or
//! removed line of the diff falls in its content range. Each obligation of a
//! touched block is met when the target file has a touched block that names
//! the declaring file back.
use vstd::prelude::*;
use vstd::string::*;
use crate::diagnostic::{
    at_file, at_line, position_text, push_position, sort_diagnostics, sort_diags, views,
    Diagnostic, DiagnosticView,
};
use crate::diff::{
    changed_views, diff_input, hunk_views, lemma_path_index, path_index, path_position, Change,
    ChangedView, DiffLine,
};
use crate::parser::{
    block_views, first_listing, lemma_blocks_well_ordered, lemma_first_listing, parse_blocks,
    parse_diags, target_views, BlockKey, BlockNode, BlockView, FileNode,
};

verus! {

broadcast use vstd::string::group_string_axioms;

/// A file as it could be read: its contents, or `None` when reading failed.
#[derive(Debug)]
pub struct SourceFile {
    pub path: String,
    pub contents: Option<String>,
}

pub struct SourceView {
    pub path: Seq<char>,
    pub contents: Option<Seq<char>>,
}

impl View for SourceFile {
    type V = SourceView;

    open spec fn view(&self) -> SourceView {
        SourceView {
            path: self.path@,
            contents: match self.contents {
                Some(t) => Some(t@),
                None => None,
            },
        }
    }
}

pub open spec fn source_views(fs: Seq<SourceFile>) -> Seq<SourceView> {
    fs.map_values(|f: SourceFile| f@)
}

pub open spec fn read_from(fs: Seq<SourceView>, p: Seq<char>, k: int) -> Option<Seq<char>>
    decreases fs.len() - k,
{
    if k < 0 || k >= fs.len() {
        None
    } else if fs[k].path == p {
        fs[k].contents
    } else {
        read_from(fs, p, k + 1)
    }
}

/// What reading `p` gives: the first entry for `p` decides, and a path
/// with no entry cannot be read.
pub open spec fn read(fs: Seq<SourceView>, p: Seq<char>) -> Option<Seq<char>> {
    read_from(fs, p, 0)
}

/// The blocks of `p`, when it can be read and parses without diagnostics.
pub open spec fn parsed(fs: Seq<SourceView>, p: Seq<char>) -> Option<Seq<BlockView>> {
    match read(fs, p) {
        Some(t) => if parse_diags(p, t).len() == 0 {
            Some(parse_blocks(p, t))
        } else {
            None
        },
        None => None,
    }
}

pub open spec fn is_changed(cs: Seq<ChangedView>, t: Seq<char>) -> bool {
    path_index(cs, t) is Some
}

/// An obligation of file `p` toward `t` stays: `t` is in the change, or it
/// is another file that can be read.
pub open spec fn keeps(cs: Seq<ChangedView>, fs: Seq<SourceView>, p: Seq<char>, t: Seq<char>) -> bool {
    is_changed(cs, t) || (t != p && read(fs, t) is Some)
}

/// An obligation of file `p` toward `t` names a file that cannot be read.
pub open spec fn dangles(cs: Seq<ChangedView>, fs: Seq<SourceView>, p: Seq<char>, t: Seq<char>) -> bool {
    !is_changed(cs, t) && t != p && read(fs, t) is None
}

pub open spec fn kept(
    cs: Seq<ChangedView>,
    fs: Seq<SourceView>,
    p: Seq<char>,
    ts: Seq<(usize, Seq<char>)>,
) -> Seq<(usize, Seq<char>)>
    decreases ts.len(),
{
    if ts.len() == 0 {
        seq![]
    } else if keeps(cs, fs, p, ts.last().1) {
        kept(cs, fs, p, ts.drop_last()).push(ts.last())
    } else {
        kept(cs, fs, p, ts.drop_last())
    }
}

pub open spec fn msg_missing_target(t: Seq<char>) -> Seq<char> {
    "then-change references file that does not exist: '"@ + t + "'"@
}

pub open spec fn msg_missing_changed(p: Seq<char>) -> Seq<char> {
    "diff references file that does not exist: '"@ + p + "'"@
}

/// A diagnostic at the declaring line of each obligation of `p` that names
/// a file that cannot be read.
pub open spec fn dangling(
    cs: Seq<ChangedView>,
    fs: Seq<SourceView>,
    p: Seq<char>,
    ts: Seq<(usize, Seq<char>)>,
) -> Seq<DiagnosticView>
    decreases ts.len(),
{
    if ts.len() == 0 {
        seq![]
    } else if dangles(cs, fs, p, ts.last().1) {
        dangling(cs, fs, p, ts.drop_last()).push(
            at_line(p, ts.last().0, msg_missing_target(ts.last().1)),
        )
    } else {
        dangling(cs, fs, p, ts.drop_last())
    }
}

pub open spec fn trim_block(
    cs: Seq<ChangedView>,
    fs: Seq<SourceView>,
    p: Seq<char>,
    b: BlockView,
) -> BlockView {
    BlockView {
        key: b.key,
        then_change: kept(cs, fs, p, b.then_change),
        if_change_line: b.if_change_line,
        then_change_line: b.then_change_line,
        end_change_line: b.end_change_line,
    }
}

pub open spec fn trim_blocks(
    cs: Seq<ChangedView>,
    fs: Seq<SourceView>,
    p: Seq<char>,
    bs: Seq<BlockView>,
) -> Seq<BlockView> {
    bs.map_values(|b: BlockView| trim_block(cs, fs, p, b))
}

pub open spec fn blocks_dangling(
    cs: Seq<ChangedView>,
    fs: Seq<SourceView>,
    p: Seq<char>,
    bs: Seq<BlockView>,
) -> Seq<DiagnosticView>
    decreases bs.len(),
{
    if bs.len() == 0 {
        seq![]
    } else {
        blocks_dangling(cs, fs, p, bs.drop_last()) + dangling(cs, fs, p, bs.last().then_change)
    }
}

/// The index entry of the changed file `p`: its blocks, obligations trimmed.
pub open spec fn changed_entry(cs: Seq<ChangedView>, fs: Seq<SourceView>, p: Seq<char>) -> Option<
    Seq<BlockView>,
> {
    match parsed(fs, p) {
        Some(bs) => Some(trim_blocks(cs, fs, p, bs)),
        None => None,
    }
}

/// What discovery reports on the changed file `p`.
pub open spec fn discovery_of(cs: Seq<ChangedView>, fs: Seq<SourceView>, p: Seq<char>) -> Seq<
    DiagnosticView,
> {
    match read(fs, p) {
        None => seq![at_file(diff_input(), msg_missing_changed(p))],
        Some(t) => if parse_diags(p, t).len() > 0 {
            parse_diags(p, t)
        } else {
            blocks_dangling(cs, fs, p, parse_blocks(p, t))
        },
    }
}

pub open spec fn discovery(cs: Seq<ChangedView>, fs: Seq<SourceView>, part: Seq<ChangedView>) -> Seq<
    DiagnosticView,
>
    decreases part.len(),
{
    if part.len() == 0 {
        seq![]
    } else {
        discovery(cs, fs, part.drop_last()) + discovery_of(cs, fs, part.last().path)
    }
}

/// `acc` followed by the targets of `ts` outside the change that `acc`
/// does not hold yet.
pub open spec fn gather_targets(
    cs: Seq<ChangedView>,
    acc: Seq<Seq<char>>,
    ts: Seq<(usize, Seq<char>)>,
) -> Seq<Seq<char>>
    decreases ts.len(),
{
    if ts.len() == 0 {
        acc
    } else {
        let a = gather_targets(cs, acc, ts.drop_last());
        let t = ts.last().1;
        if is_changed(cs, t) || a.contains(t) {
            a
        } else {
            a.push(t)
        }
    }
}

pub open spec fn gather_blocks(cs: Seq<ChangedView>, acc: Seq<Seq<char>>, bs: Seq<BlockView>) -> Seq<
    Seq<char>,
>
    decreases bs.len(),
{
    if bs.len() == 0 {
        acc
    } else {
        gather_targets(cs, gather_blocks(cs, acc, bs.drop_last()), bs.last().then_change)
    }
}

/// The blocks of the changed file `p` that discovery follows: as parsed,
/// or with obligations trimmed.
pub open spec fn entry_blocks(
    cs: Seq<ChangedView>,
    fs: Seq<SourceView>,
    p: Seq<char>,
    trimmed: bool,
) -> Option<Seq<BlockView>> {
    if trimmed {
        changed_entry(cs, fs, p)
    } else {
        parsed(fs, p)
    }
}

pub open spec fn gather_files(
    cs: Seq<ChangedView>,
    fs: Seq<SourceView>,
    acc: Seq<Seq<char>>,
    part: Seq<ChangedView>,
    trimmed: bool,
) -> Seq<Seq<char>>
    decreases part.len(),
{
    if part.len() == 0 {
        acc
    } else {
        let a = gather_files(cs, fs, acc, part.drop_last(), trimmed);
        match entry_blocks(cs, fs, part.last().path, trimmed) {
            Some(bs) => gather_blocks(cs, a, bs),
            None => a,
        }
    }
}

/// The files outside the change that the changed files' blocks name, each
/// once, in order of first mention: the files discovery has to read.
pub open spec fn requested_paths(cs: Seq<ChangedView>, fs: Seq<SourceView>) -> Seq<Seq<char>> {
    gather_files(cs, fs, seq![], cs, false)
}

/// How many steps discovery follows obligations out from the changed files.
/// Discovery parses the files that the changed files name (`linked_paths`)
/// and stops there: targets named by those files are not followed. Going
/// further would make `linked_paths` a closure over this many steps.
pub const MAX_HOPS: usize = 1;

/// The files outside the change that the kept obligations name, each once,
/// in order of first mention: the files discovery parses `MAX_HOPS` step out.
pub open spec fn linked_paths(cs: Seq<ChangedView>, fs: Seq<SourceView>) -> Seq<Seq<char>> {
    gather_files(cs, fs, seq![], cs, true)
}

/// The structural diagnostics of the linked files.
pub open spec fn linked_diags(fs: Seq<SourceView>, hs: Seq<Seq<char>>) -> Seq<DiagnosticView>
    decreases hs.len(),
{
    if hs.len() == 0 {
        seq![]
    } else {
        linked_diags(fs, hs.drop_last()) + match read(fs, hs.last()) {
            Some(t) => parse_diags(hs.last(), t),
            None => seq![],
        }
    }
}

/// Whether line `j` of a hunk lies in block `b`: the nearest line at or
/// before it that has a post-diff number decides.
pub open spec fn in_block_at(lines: Seq<DiffLine>, j: int, b: BlockView) -> bool
    decreases j + 1,
{
    if j < 0 || j >= lines.len() {
        false
    } else {
        match lines[j].target_line {
            Some(n) => b.covers(n - 1),
            None => in_block_at(lines, j - 1, b),
        }
    }
}

pub open spec fn hunk_touches(lines: Seq<DiffLine>, b: BlockView) -> bool {
    exists|j: int|
        0 <= j < lines.len() && (lines[j].added || lines[j].removed) && #[trigger] in_block_at(
            lines,
            j,
            b,
        )
}

/// Some added or removed line of the hunks falls in the content range of `b`.
pub open spec fn touched(hunks: Seq<Seq<DiffLine>>, b: BlockView) -> bool {
    exists|h: int| 0 <= h < hunks.len() && #[trigger] hunk_touches(hunks[h], b)
}

/// The blocks that the index holds for `t`.
pub open spec fn index_blocks(cs: Seq<ChangedView>, fs: Seq<SourceView>, t: Seq<char>) -> Option<
    Seq<BlockView>,
> {
    if is_changed(cs, t) {
        changed_entry(cs, fs, t)
    } else {
        parsed(fs, t)
    }
}

/// The changed file `t` has a touched block that names `p` back.
pub open spec fn answered(cs: Seq<ChangedView>, fs: Seq<SourceView>, p: Seq<char>, t: Seq<char>) -> bool {
    match path_index(cs, t) {
        Some(k) => match changed_entry(cs, fs, t) {
            Some(bs) => exists|i: int|
                0 <= i < bs.len() && touched(cs[k].hunks, #[trigger] bs[i]) && bs[i].lists(p),
            None => false,
        },
        None => false,
    }
}

pub open spec fn block_position(p: Seq<char>, b: BlockView) -> Seq<char> {
    position_text(p, Some(b.if_change_line), Some((b.end_change_line + 1) as usize))
}

pub open spec fn msg_expected_block(src: Seq<char>) -> Seq<char> {
    "expected an if-change-then-change in this file that matches "@ + src
}

pub open spec fn msg_expected_change(src: Seq<char>) -> Seq<char> {
    "expected change here due to change in "@ + src
}

/// The diagnostics for the obligation of block `b` of `p` toward `t`:
/// none when it is met; else, when `t` has no block naming `p`, one that
/// asks for such a block; and, when `t` has one or is outside the change,
/// one that asks for a change there.
pub open spec fn obligation_diags(
    cs: Seq<ChangedView>,
    fs: Seq<SourceView>,
    p: Seq<char>,
    b: BlockView,
    t: Seq<char>,
) -> Seq<DiagnosticView> {
    if answered(cs, fs, p, t) {
        seq![]
    } else {
        let src = block_position(p, b);
        let found = match index_blocks(cs, fs, t) {
            Some(bs) => match first_listing(bs, p) {
                Some(i) => Some(bs[i]),
                None => None,
            },
            None => None,
        };
        match found {
            Some(m) => seq![
                DiagnosticView {
                    path: t,
                    start_line: Some(m.if_change_line),
                    end_line: Some((m.end_change_line + 1) as usize),
                    message: msg_expected_change(src),
                },
            ],
            None => if is_changed(cs, t) {
                seq![at_file(t, msg_expected_block(src))]
            } else {
                seq![at_file(t, msg_expected_block(src)), at_file(t, msg_expected_change(src))]
            },
        }
    }
}

pub open spec fn block_obligations(
    cs: Seq<ChangedView>,
    fs: Seq<SourceView>,
    p: Seq<char>,
    b: BlockView,
    ts: Seq<(usize, Seq<char>)>,
) -> Seq<DiagnosticView>
    decreases ts.len(),
{
    if ts.len() == 0 {
        seq![]
    } else {
        block_obligations(cs, fs, p, b, ts.drop_last()) + obligation_diags(
            cs,
            fs,
            p,
            b,
            ts.last().1,
        )
    }
}

pub open spec fn file_obligations(
    cs: Seq<ChangedView>,
    fs: Seq<SourceView>,
    c: ChangedView,
    bs: Seq<BlockView>,
) -> Seq<DiagnosticView>
    decreases bs.len(),
{
    if bs.len() == 0 {
        seq![]
    } else {
        file_obligations(cs, fs, c, bs.drop_last()) + if touched(c.hunks, bs.last()) {
            block_obligations(cs, fs, c.path, bs.last(), bs.last().then_change)
        } else {
            seq![]
        }
    }
}

pub open spec fn obligations(cs: Seq<ChangedView>, fs: Seq<SourceView>, part: Seq<ChangedView>) -> Seq<
    DiagnosticView,
>
    decreases part.len(),
{
    if part.len() == 0 {
        seq![]
    } else {
        obligations(cs, fs, part.drop_last()) + match changed_entry(cs, fs, part.last().path) {
            Some(bs) => file_obligations(cs, fs, part.last(), bs),
            None => seq![],
        }
    }
}

/// Everything the check reports on `cs` given the files `fs`, before ordering.
pub open spec fn findings(cs: Seq<ChangedView>, fs: Seq<SourceView>) -> Seq<DiagnosticView> {
    discovery(cs, fs, cs) + linked_diags(fs, linked_paths(cs, fs)) + obligations(cs, fs, cs)
}

/// The report on a change: its own diagnostics and the findings, in output order.
pub open spec fn report(
    envelope: Seq<DiagnosticView>,
    cs: Seq<ChangedView>,
    fs: Seq<SourceView>,
) -> Seq<DiagnosticView> {
    sort_diags(envelope + findings(cs, fs))
}

pub open spec fn entry_views(es: Seq<Option<FileNode>>) -> Seq<Option<Seq<BlockView>>> {
    es.map_values(
        |e: Option<FileNode>|
            match e {
                Some(f) => Some(block_views(f.blocks@)),
                None => None,
            },
    )
}

/// Every block has its lines in order and belongs to `p`.
pub open spec fn blocks_ok(bs: Seq<BlockView>, p: Seq<char>) -> bool {
    forall|i: int| 0 <= i < bs.len() ==> (#[trigger] bs[i]).wf() && bs[i].key == p
}

/// What reading `p` gives.
fn read_source<'a>(fs: &'a Vec<SourceFile>, p: &String) -> (r: Option<&'a String>)
    ensures
        match r {
            Some(t) => read(source_views(fs@), p@) == Some(t@),
            None => read(source_views(fs@), p@) is None,
        },
{
    let ghost sv = source_views(fs@);
    let mut k: usize = 0;
    while k < fs.len()
        invariant
            k <= fs.len(),
            sv == source_views(fs@),
            read(sv, p@) == read_from(sv, p@, k as int),
        decreases fs.len() - k,
    {
        assert(sv[k as int] == fs@[k as int]@);
        if fs[k].path.eq(p) {
            return match &fs[k].contents {
                Some(t) => Some(t),
                None => None,
            };
        }
        k += 1;
    }
    None
}

/// The blocks of `p`, when it can be read and parses cleanly.
fn parse_source(fs: &Vec<SourceFile>, p: &String) -> (r: Option<FileNode>)
    ensures
        match r {
            Some(f) => parsed(source_views(fs@), p@) == Some(block_views(f.blocks@)),
            None => parsed(source_views(fs@), p@) is None,
        },
        r matches Some(f) ==> blocks_ok(block_views(f.blocks@), p@),
{
    match read_source(fs, p) {
        Some(t) => match FileNode::from_str(p.as_str(), t.as_str()) {
            Ok(f) => {
                proof {
                    lemma_blocks_well_ordered(p@, t@);
                }
                Some(f)
            },
            Err(_) => None,
        },
        None => None,
    }
}

/// Appends `more` to `diags`.
fn append_all(diags: &mut Vec<Diagnostic>, more: Vec<Diagnostic>)
    ensures
        views(final(diags)@) == views(old(diags)@) + views(more@),
{
    let ghost added = more@;
    let mut more = more;
    diags.append(&mut more);
    assert(views(diags@) =~= views(old(diags)@) + views(added));
}

/// A diagnostic at `path`, line `line`, saying that `target` cannot be read.
fn missing_target(path: &String, line: usize, target: &String) -> (d: Diagnostic)
    ensures
        d@ == at_line(path@, line, msg_missing_target(target@)),
{
    let mut message = "then-change references file that does not exist: '".to_owned();
    message.append(target.as_str());
    message.append("'");
    Diagnostic { path: path.clone(), start_line: Some(line), end_line: None, message }
}

/// The obligations of a block of the changed file `p` that stay, with a
/// diagnostic for each one that names a file that cannot be read.
fn trim_targets(
    change: &Change,
    fs: &Vec<SourceFile>,
    p: &String,
    ts: &Vec<(usize, BlockKey)>,
    diags: &mut Vec<Diagnostic>,
) -> (r: Vec<(usize, BlockKey)>)
    ensures
        target_views(r@) == kept(
            changed_views(change.files@),
            source_views(fs@),
            p@,
            target_views(ts@),
        ),
        views(final(diags)@) == views(old(diags)@) + dangling(
            changed_views(change.files@),
            source_views(fs@),
            p@,
            target_views(ts@),
        ),
{
    let ghost cv = changed_views(change.files@);
    let ghost sv = source_views(fs@);
    let ghost tv = target_views(ts@);
    let mut out: Vec<(usize, BlockKey)> = Vec::new();
    let mut k: usize = 0;
    assert(tv.take(0) =~= seq![]);
    assert(target_views(out@) =~= seq![]);
    assert(views(diags@) =~= views(old(diags)@) + seq![]);
    while k < ts.len()
        invariant
            k <= ts.len(),
            tv == target_views(ts@),
            cv == changed_views(change.files@),
            sv == source_views(fs@),
            target_views(out@) == kept(cv, sv, p@, tv.take(k as int)),
            views(diags@) == views(old(diags)@) + dangling(cv, sv, p@, tv.take(k as int)),
        decreases ts.len() - k,
    {
        let line = ts[k].0;
        let key = &ts[k].1;
        proof {
            assert(tv.take(k + 1).drop_last() =~= tv.take(k as int));
            assert(tv.take(k + 1).last() == tv[k as int]);
            assert(tv[k as int] == (line, key.path@));
        }
        let in_change = path_position(&change.files, &key.path).is_some();
        let is_self = key.path.eq(p);
        let readable = read_source(fs, &key.path).is_some();
        if in_change || (!is_self && readable) {
            let ghost before = out@;
            out.push((line, BlockKey::new(key.path.as_str())));
            assert(target_views(out@) =~= target_views(before).push((line, key.path@)));
        } else if !is_self {
            let d = missing_target(p, line, &key.path);
            let ghost before = views(diags@);
            diags.push(d);
            assert(views(diags@) =~= before.push(d@));
        }
        k += 1;
    }
    assert(tv.take(k as int) =~= tv);
    out
}

/// Reads and parses the changed file `p`, trims the obligations of its
/// blocks, and reports what discovery finds wrong with it.
fn discover(change: &Change, fs: &Vec<SourceFile>, p: &String, diags: &mut Vec<Diagnostic>) -> (r:
    Option<FileNode>)
    ensures
        match r {
            Some(f) => changed_entry(changed_views(change.files@), source_views(fs@), p@) == Some(
                block_views(f.blocks@),
            ),
            None => changed_entry(changed_views(change.files@), source_views(fs@), p@) is None,
        },
        r matches Some(f) ==> blocks_ok(block_views(f.blocks@), p@),
        views(final(diags)@) == views(old(diags)@) + discovery_of(
            changed_views(change.files@),
            source_views(fs@),
            p@,
        ),
{
    let ghost cv = changed_views(change.files@);
    let ghost sv = source_views(fs@);
    match read_source(fs, p) {
        None => {
            proof {
                reveal_strlit("stdin");
            }
            let mut message = "diff references file that does not exist: '".to_owned();
            message.append(p.as_str());
            message.append("'");
            let d = Diagnostic { path: "stdin".to_owned(), start_line: None, end_line: None, message };
            let ghost before = views(diags@);
            diags.push(d);
            assert(views(diags@) =~= before + seq![d@]);
            None
        },
        Some(t) => match FileNode::from_str(p.as_str(), t.as_str()) {
            Err(e) => {
                append_all(diags, e.diagnostics);
                None
            },
            Ok(f) => {
                proof {
                    lemma_blocks_well_ordered(p@, t@);
                }
                let ghost bv = block_views(f.blocks@);
                let mut blocks: Vec<BlockNode> = Vec::new();
                let mut i: usize = 0;
                assert(bv.take(0) =~= seq![]);
                assert(block_views(blocks@) =~= seq![]);
                assert(views(diags@) =~= views(old(diags)@) + seq![]);
                while i < f.blocks.len()
                    invariant
                        i <= f.blocks.len(),
                        bv == block_views(f.blocks@),
                        cv == changed_views(change.files@),
                        sv == source_views(fs@),
                        blocks_ok(bv, p@),
                        block_views(blocks@) == trim_blocks(cv, sv, p@, bv.take(i as int)),
                        views(diags@) == views(old(diags)@) + blocks_dangling(
                            cv,
                            sv,
                            p@,
                            bv.take(i as int),
                        ),
                    decreases f.blocks.len() - i,
                {
                    let b = &f.blocks[i];
                    proof {
                        assert(bv.take(i + 1).drop_last() =~= bv.take(i as int));
                        assert(bv.take(i + 1).last() == bv[i as int]);
                        assert(bv[i as int] == b@);
                    }
                    let ghost before = views(diags@);
                    let targets = trim_targets(change, fs, p, &b.then_change, diags);
                    let node = BlockNode {
                        key: BlockKey::new(b.key.path.as_str()),
                        then_change: targets,
                        if_change_lineno: b.if_change_lineno,
                        then_change_lineno: b.then_change_lineno,
                        end_change_lineno: b.end_change_lineno,
                    };
                    let ghost prev = block_views(blocks@);
                    blocks.push(node);
                    proof {
                        assert(block_views(blocks@) =~= prev.push(node@));
                        assert(trim_blocks(cv, sv, p@, bv.take(i + 1)) =~= trim_blocks(
                            cv,
                            sv,
                            p@,
                            bv.take(i as int),
                        ).push(trim_block(cv, sv, p@, bv[i as int])));
                        assert(views(diags@) =~= views(old(diags)@) + blocks_dangling(
                            cv,
                            sv,
                            p@,
                            bv.take(i + 1),
                        ));
                    }
                    i += 1;
                }
                assert(bv.take(i as int) =~= bv);
                proof {
                    assert forall|j: int| 0 <= j < block_views(blocks@).len() implies (
                    #[trigger] block_views(blocks@)[j]).wf() && block_views(blocks@)[j].key
                        == p@ by {
                        assert(block_views(blocks@)[j] == trim_block(cv, sv, p@, bv[j]));
                    }
                }
                Some(FileNode::new(blocks))
            },
        },
    }
}

pub open spec fn string_views(v: Seq<String>) -> Seq<Seq<char>> {
    v.map_values(|s: String| s@)
}

fn contains_path(v: &Vec<String>, p: &String) -> (r: bool)
    ensures
        r == string_views(v@).contains(p@),
{
    let mut k: usize = 0;
    while k < v.len()
        invariant
            k <= v.len(),
            forall|i: int| 0 <= i < k ==> (#[trigger] v@[i])@ != p@,
        decreases v.len() - k,
    {
        if v[k].eq(p) {
            assert(string_views(v@)[k as int] == p@);
            return true;
        }
        k += 1;
    }
    assert forall|i: int| 0 <= i < string_views(v@).len() implies #[trigger] string_views(v@)[i]
        != p@ by {
        assert(string_views(v@)[i] == v@[i]@);
    }
    false
}

/// `acc` followed by the files that `nodes` name outside the change, each once.
fn gather_paths(
    change: &Change,
    fs: &Vec<SourceFile>,
    nodes: &Vec<Option<FileNode>>,
    trimmed: Ghost<bool>,
) -> (r: Vec<String>)
    requires
        nodes.len() == change.files.len(),
        forall|k: int|
            0 <= k < nodes.len() ==> #[trigger] entry_views(nodes@)[k] == entry_blocks(
                changed_views(change.files@),
                source_views(fs@),
                changed_views(change.files@)[k].path,
                trimmed@,
            ),
    ensures
        string_views(r@) == gather_files(
            changed_views(change.files@),
            source_views(fs@),
            seq![],
            changed_views(change.files@),
            trimmed@,
        ),
{
    let ghost cv = changed_views(change.files@);
    let ghost sv = source_views(fs@);
    let mut acc: Vec<String> = Vec::new();
    let mut k: usize = 0;
    assert(cv.take(0) =~= seq![]);
    assert(string_views(acc@) =~= seq![]);
    while k < nodes.len()
        invariant
            k <= nodes.len(),
            nodes.len() == change.files.len(),
            cv == changed_views(change.files@),
            sv == source_views(fs@),
            forall|k: int|
                0 <= k < nodes.len() ==> #[trigger] entry_views(nodes@)[k] == entry_blocks(
                    cv,
                    sv,
                    cv[k].path,
                    trimmed@,
                ),
            string_views(acc@) == gather_files(cv, sv, seq![], cv.take(k as int), trimmed@),
        decreases nodes.len() - k,
    {
        proof {
            assert(cv.take(k + 1).drop_last() =~= cv.take(k as int));
            assert(cv.take(k + 1).last() == cv[k as int]);
            assert(entry_views(nodes@)[k as int] == entry_blocks(cv, sv, cv[k as int].path, trimmed@));
        }
        match &nodes[k] {
            None => {},
            Some(node) => {
                let ghost bv = block_views(node.blocks@);
                let ghost start = string_views(acc@);
                let mut i: usize = 0;
                assert(bv.take(0) =~= seq![]);
                while i < node.blocks.len()
                    invariant
                        i <= node.blocks.len(),
                        bv == block_views(node.blocks@),
                        cv == changed_views(change.files@),
                        string_views(acc@) == gather_blocks(cv, start, bv.take(i as int)),
                    decreases node.blocks.len() - i,
                {
                    let b = &node.blocks[i];
                    proof {
                        assert(bv.take(i + 1).drop_last() =~= bv.take(i as int));
                        assert(bv.take(i + 1).last() == b@);
                    }
                    let ghost tv = target_views(b.then_change@);
                    let ghost mid = string_views(acc@);
                    let mut j: usize = 0;
                    assert(tv.take(0) =~= seq![]);
                    while j < b.then_change.len()
                        invariant
                            j <= b.then_change.len(),
                            tv == target_views(b.then_change@),
                            cv == changed_views(change.files@),
                            string_views(acc@) == gather_targets(cv, mid, tv.take(j as int)),
                        decreases b.then_change.len() - j,
                    {
                        let t = &b.then_change[j].1.path;
                        proof {
                            assert(tv.take(j + 1).drop_last() =~= tv.take(j as int));
                            assert(tv.take(j + 1).last() == tv[j as int]);
                            assert(tv[j as int].1 == t@);
                        }
                        let in_change = path_position(&change.files, t).is_some();
                        if !in_change && !contains_path(&acc, t) {
                            let ghost before = string_views(acc@);
                            acc.push(t.clone());
                            assert(string_views(acc@) =~= before.push(t@));
                        }
                        j += 1;
                    }
                    assert(tv.take(j as int) =~= tv);
                    i += 1;
                }
                assert(bv.take(i as int) =~= bv);
            },
        }
        k += 1;
    }
    assert(cv.take(k as int) =~= cv);
    acc
}

/// The files outside the change that the changed files' blocks name, each
/// once, in order of first mention. `fs` needs to hold the changed files;
/// these are the files to read next, before the change is checked.
pub fn requested_files(change: &Change, fs: &Vec<SourceFile>) -> (r: Vec<String>)
    ensures
        string_views(r@) == requested_paths(changed_views(change.files@), source_views(fs@)),
{
    let ghost cv = changed_views(change.files@);
    let ghost sv = source_views(fs@);
    let mut nodes: Vec<Option<FileNode>> = Vec::new();
    let mut k: usize = 0;
    while k < change.files.len()
        invariant
            k <= change.files.len(),
            nodes.len() == k,
            cv == changed_views(change.files@),
            sv == source_views(fs@),
            forall|i: int|
                0 <= i < k ==> #[trigger] entry_views(nodes@)[i] == entry_blocks(
                    cv,
                    sv,
                    cv[i].path,
                    false,
                ),
        decreases change.files.len() - k,
    {
        let node = parse_source(fs, &change.files[k].path);
        let ghost before = nodes@;
        nodes.push(node);
        proof {
            assert forall|i: int| 0 <= i < k + 1 implies #[trigger] entry_views(nodes@)[i]
                == entry_blocks(cv, sv, cv[i].path, false) by {
                assert(entry_views(nodes@)[i] == match nodes@[i] {
                    Some(f) => Some(block_views(f.blocks@)),
                    None => None,
                });
                if i < k {
                    assert(nodes@[i] == before[i]);
                    assert(entry_views(before)[i] == match before[i] {
                        Some(f) => Some(block_views(f.blocks@)),
                        None => None,
                    });
                } else {
                    assert(cv[i].path == change.files@[i].path@);
                }
            }
        }
        k += 1;
    }
    gather_paths(change, fs, &nodes, Ghost(false))
}

/// Whether an added or removed line of the hunk `lines` falls in `b`.
fn hunk_touches_exec(lines: &Vec<DiffLine>, b: &BlockNode) -> (r: bool)
    ensures
        r == hunk_touches(lines@, b@),
{
    let mut inside = false;
    let mut j: usize = 0;
    while j < lines.len()
        invariant
            j <= lines.len(),
            inside == in_block_at(lines@, j - 1, b@),
            forall|i: int|
                0 <= i < j ==> !((lines@[i].added || lines@[i].removed) && #[trigger] in_block_at(
                    lines@,
                    i,
                    b@,
                )),
        decreases lines.len() - j,
    {
        let line = lines[j];
        if let Some(n) = line.target_line {
            inside = n >= 1 && b.if_change_lineno <= n - 1 && n - 1 <= b.end_change_lineno;
        }
        assert(inside == in_block_at(lines@, j as int, b@));
        if inside && (line.added || line.removed) {
            return true;
        }
        j += 1;
    }
    false
}

/// Whether the diff's `hunks` touch block `b`.
pub fn touches(hunks: &Vec<Vec<DiffLine>>, b: &BlockNode) -> (r: bool)
    ensures
        r == touched(hunk_views(hunks@), b@),
{
    let ghost hv = hunk_views(hunks@);
    let mut h: usize = 0;
    while h < hunks.len()
        invariant
            h <= hunks.len(),
            hv == hunk_views(hunks@),
            forall|i: int| 0 <= i < h ==> !#[trigger] hunk_touches(hv[i], b@),
        decreases hunks.len() - h,
    {
        assert(hv[h as int] == hunks@[h as int]@);
        if hunk_touches_exec(&hunks[h], b) {
            return true;
        }
        h += 1;
    }
    false
}

/// Whether one of `b`'s obligations targets `p`.
fn lists_path(b: &BlockNode, p: &String) -> (r: bool)
    ensures
        r == b@.lists(p@),
{
    let ghost tv = b@.then_change;
    let mut j: usize = 0;
    while j < b.then_change.len()
        invariant
            j <= b.then_change.len(),
            tv == b@.then_change,
            forall|i: int| 0 <= i < j ==> (#[trigger] tv[i]).1 != p@,
        decreases b.then_change.len() - j,
    {
        assert(tv[j as int].1 == b.then_change@[j as int].1.path@);
        if b.then_change[j].1.path.eq(p) {
            return true;
        }
        j += 1;
    }
    false
}

/// The index entries of the changed files, in the order of the change.
pub open spec fn entries_ok(
    cs: Seq<ChangedView>,
    fs: Seq<SourceView>,
    entries: Seq<Option<FileNode>>,
) -> bool {
    &&& entries.len() == cs.len()
    &&& forall|k: int|
        0 <= k < entries.len() ==> #[trigger] entry_views(entries)[k] == changed_entry(
            cs,
            fs,
            cs[k].path,
        )
    &&& forall|k: int|
        0 <= k < entries.len() ==> (#[trigger] entries[k] matches Some(f) ==> blocks_ok(
            block_views(f.blocks@),
            cs[k].path,
        ))
}

fn expected_message(lead: &str, src: &String) -> (r: String)
    ensures
        r@ == lead@ + src@,
{
    let mut m = lead.to_owned();
    m.append(src.as_str());
    m
}

/// Reports the obligation of block `b` of the changed file `p` toward `t`.
fn check_obligation(
    change: &Change,
    fs: &Vec<SourceFile>,
    entries: &Vec<Option<FileNode>>,
    p: &String,
    b: &BlockNode,
    t: &String,
    diags: &mut Vec<Diagnostic>,
)
    requires
        entries_ok(changed_views(change.files@), source_views(fs@), entries@),
        b@.wf(),
        b@.key == p@,
    ensures
        views(final(diags)@) == views(old(diags)@) + obligation_diags(
            changed_views(change.files@),
            source_views(fs@),
            p@,
            b@,
            t@,
        ),
{
    let ghost cv = changed_views(change.files@);
    let ghost sv = source_views(fs@);
    let pos = path_position(&change.files, t);
    proof {
        lemma_path_index(cv, t@, 0);
    }
    let mut answered_here = false;
    if let Some(k) = pos {
        assert(entry_views(entries@)[k as int] == changed_entry(cv, sv, cv[k as int].path));
        assert(cv[k as int].path == t@);
        if let Some(node) = &entries[k] {
            let ghost bv = block_views(node.blocks@);
            let hunks = &change.files[k].hunks;
            assert(cv[k as int].hunks == hunk_views(hunks@));
            let mut i: usize = 0;
            while i < node.blocks.len() && !answered_here
                invariant
                    i <= node.blocks.len(),
                    bv == block_views(node.blocks@),
                    cv[k as int].hunks == hunk_views(hunks@),
                    answered_here ==> exists|j: int|
                        0 <= j < bv.len() && touched(cv[k as int].hunks, #[trigger] bv[j])
                            && bv[j].lists(p@),
                    !answered_here ==> forall|j: int|
                        0 <= j < i ==> !(touched(cv[k as int].hunks, #[trigger] bv[j]) && bv[j].lists(
                            p@,
                        )),
                decreases node.blocks.len() - i,
            {
                assert(bv[i as int] == node.blocks@[i as int]@);
                if lists_path(&node.blocks[i], p) && touches(hunks, &node.blocks[i]) {
                    answered_here = true;
                    assert(touched(cv[k as int].hunks, bv[i as int]) && bv[i as int].lists(p@));
                }
                i += 1;
            }
        }
    }
    assert(answered_here == answered(cv, sv, p@, t@));
    if answered_here {
        assert(views(diags@) =~= views(old(diags)@) + seq![]);
        return;
    }
    let mut src = String::new();
    push_position(&mut src, p.as_str(), Some(b.if_change_lineno), Some(b.end_change_lineno + 1));
    let ghost src_v = src@;
    assert(src_v == block_position(p@, b@));
    let parsed_here = match pos {
        Some(_) => None,
        None => parse_source(fs, t),
    };
    let node: Option<&FileNode> = match pos {
        Some(k) => entries[k].as_ref(),
        None => parsed_here.as_ref(),
    };
    let found: Option<&BlockNode> = match node {
        Some(n) => n.get_corresponding_block(b),
        None => None,
    };
    let ghost before = views(diags@);
    proof {
        if let Some(n) = node {
            lemma_first_listing(block_views(n.blocks@), p@, 0);
        }
    }
    match found {
        Some(m) => {
            let range = m.content_range();
            let d = Diagnostic {
                path: t.clone(),
                start_line: Some(range.start),
                end_line: Some(range.end),
                message: expected_message("expected change here due to change in ", &src),
            };
            diags.push(d);
            assert(views(diags@) =~= before + seq![d@]);
        },
        None => {
            let d = Diagnostic {
                path: t.clone(),
                start_line: None,
                end_line: None,
                message: expected_message(
                    "expected an if-change-then-change in this file that matches ",
                    &src,
                ),
            };
            diags.push(d);
            if pos.is_some() {
                assert(views(diags@) =~= before + seq![d@]);
            } else {
                let e = Diagnostic {
                    path: t.clone(),
                    start_line: None,
                    end_line: None,
                    message: expected_message("expected change here due to change in ", &src),
                };
                diags.push(e);
                assert(views(diags@) =~= before + seq![d@, e@]);
            }
        },
    }
}

/// Reports the obligations of the touched blocks of the changed file `k`.
fn check_file(
    change: &Change,
    fs: &Vec<SourceFile>,
    entries: &Vec<Option<FileNode>>,
    k: usize,
    diags: &mut Vec<Diagnostic>,
)
    requires
        entries_ok(changed_views(change.files@), source_views(fs@), entries@),
        k < change.files.len(),
    ensures
        views(final(diags)@) == views(old(diags)@) + match changed_entry(
            changed_views(change.files@),
            source_views(fs@),
            changed_views(change.files@)[k as int].path,
        ) {
            Some(bs) => file_obligations(
                changed_views(change.files@),
                source_views(fs@),
                changed_views(change.files@)[k as int],
                bs,
            ),
            None => seq![],
        },
{
    let ghost cv = changed_views(change.files@);
    let ghost sv = source_views(fs@);
    let c = &change.files[k];
    assert(cv[k as int] == c@);
    assert(entry_views(entries@)[k as int] == changed_entry(cv, sv, cv[k as int].path));
    match &entries[k] {
        None => {
            assert(views(diags@) =~= views(old(diags)@) + seq![]);
        },
        Some(node) => {
            let ghost bv = block_views(node.blocks@);
            assert(blocks_ok(bv, c.path@));
            let mut i: usize = 0;
            assert(bv.take(0) =~= seq![]);
            assert(views(diags@) =~= views(old(diags)@) + seq![]);
            while i < node.blocks.len()
                invariant
                    i <= node.blocks.len(),
                    bv == block_views(node.blocks@),
                    blocks_ok(bv, c.path@),
                    cv == changed_views(change.files@),
                    sv == source_views(fs@),
                    cv[k as int] == c@,
                    entries_ok(cv, sv, entries@),
                    views(diags@) == views(old(diags)@) + file_obligations(
                        cv,
                        sv,
                        c@,
                        bv.take(i as int),
                    ),
                decreases node.blocks.len() - i,
            {
                let b = &node.blocks[i];
                proof {
                    assert(bv.take(i + 1).drop_last() =~= bv.take(i as int));
                    assert(bv.take(i + 1).last() == b@);
                    assert(bv[i as int] == b@);
                }
                let ghost mid = views(diags@);
                if touches(&c.hunks, b) {
                    let ghost tv = b@.then_change;
                    let mut j: usize = 0;
                    assert(tv.take(0) =~= seq![]);
                    assert(views(diags@) =~= mid + seq![]);
                    while j < b.then_change.len()
                        invariant
                            j <= b.then_change.len(),
                            tv == b@.then_change,
                            b@.wf(),
                            b@.key == c.path@,
                            cv == changed_views(change.files@),
                            sv == source_views(fs@),
                            entries_ok(cv, sv, entries@),
                            views(diags@) == mid + block_obligations(
                                cv,
                                sv,
                                c.path@,
                                b@,
                                tv.take(j as int),
                            ),
                        decreases b.then_change.len() - j,
                    {
                        proof {
                            assert(tv.take(j + 1).drop_last() =~= tv.take(j as int));
                            assert(tv.take(j + 1).last() == tv[j as int]);
                            assert(tv[j as int].1 == b.then_change@[j as int].1.path@);
                        }
                        let ghost inner = views(diags@);
                        check_obligation(change, fs, entries, &c.path, b, &b.then_change[j].1.path, diags);
                        assert(views(diags@) =~= mid + block_obligations(
                            cv,
                            sv,
                            c.path@,
                            b@,
                            tv.take(j + 1),
                        ));
                        j += 1;
                    }
                    assert(tv.take(j as int) =~= tv);
                    assert(views(diags@) =~= views(old(diags)@) + file_obligations(
                        cv,
                        sv,
                        c@,
                        bv.take(i + 1),
                    ));
                } else {
                    assert(views(diags@) =~= views(old(diags)@) + file_obligations(
                        cv,
                        sv,
                        c@,
                        bv.take(i + 1),
                    ));
                }
                i += 1;
            }
            assert(bv.take(i as int) =~= bv);
        },
    }
}

/// Checks a change against the files it reaches, `fs`: the change's own
/// diagnostics, what discovery reports, the structural diagnostics of the
/// linked files, and every unmet obligation of a touched block, in output
/// order. `fs` holds what reading each changed file and each file that
/// `requested_files` names gave; a path it does not hold counts as unreadable.
pub fn check_change(change: &Change, fs: &Vec<SourceFile>) -> (r: Vec<Diagnostic>)
    ensures
        views(r@) == report(
            views(change.diagnostics@),
            changed_views(change.files@),
            source_views(fs@),
        ),
{
    let ghost cv = changed_views(change.files@);
    let ghost sv = source_views(fs@);
    let mut diags: Vec<Diagnostic> = Vec::new();
    let mut k: usize = 0;
    assert(views(change.diagnostics@).take(0) =~= seq![]);
    assert(views(diags@) =~= seq![]);
    while k < change.diagnostics.len()
        invariant
            k <= change.diagnostics.len(),
            views(diags@) == views(change.diagnostics@).take(k as int),
        decreases change.diagnostics.len() - k,
    {
        let ghost before = views(diags@);
        let d = crate::diagnostic::clone_diagnostic(&change.diagnostics[k]);
        diags.push(d);
        assert(views(diags@) =~= before.push(d@));
        assert(views(change.diagnostics@)[k as int] == d@);
        assert(views(diags@) =~= views(change.diagnostics@).take(k + 1));
        k += 1;
    }
    assert(views(change.diagnostics@).take(k as int) =~= views(change.diagnostics@));
    let ghost envelope = views(diags@);

    let mut entries: Vec<Option<FileNode>> = Vec::new();
    let mut k: usize = 0;
    assert(cv.take(0) =~= seq![]);
    assert(views(diags@) =~= envelope + seq![]);
    while k < change.files.len()
        invariant
            k <= change.files.len(),
            entries.len() == k,
            cv == changed_views(change.files@),
            sv == source_views(fs@),
            forall|i: int|
                0 <= i < k ==> #[trigger] entry_views(entries@)[i] == changed_entry(cv, sv, cv[i].path),
            forall|i: int|
                0 <= i < k ==> (#[trigger] entries@[i] matches Some(f) ==> blocks_ok(
                    block_views(f.blocks@),
                    cv[i].path,
                )),
            views(diags@) == envelope + discovery(cv, sv, cv.take(k as int)),
        decreases change.files.len() - k,
    {
        proof {
            assert(cv.take(k + 1).drop_last() =~= cv.take(k as int));
            assert(cv.take(k + 1).last() == cv[k as int]);
            assert(cv[k as int].path == change.files@[k as int].path@);
        }
        let ghost mid = views(diags@);
        let entry = discover(change, fs, &change.files[k].path, &mut diags);
        let ghost before = entries@;
        entries.push(entry);
        proof {
            assert(views(diags@) =~= envelope + discovery(cv, sv, cv.take(k + 1)));
            assert forall|i: int| 0 <= i < k + 1 implies #[trigger] entry_views(entries@)[i]
                == changed_entry(cv, sv, cv[i].path) by {
                assert(entry_views(entries@)[i] == match entries@[i] {
                    Some(f) => Some(block_views(f.blocks@)),
                    None => None,
                });
                if i < k {
                    assert(entries@[i] == before[i]);
                    assert(entry_views(before)[i] == match before[i] {
                        Some(f) => Some(block_views(f.blocks@)),
                        None => None,
                    });
                }
            }
            assert forall|i: int| 0 <= i < k + 1 implies (#[trigger] entries@[i] matches Some(
                f,
            ) ==> blocks_ok(block_views(f.blocks@), cv[i].path)) by {
                if i < k {
                    assert(entries@[i] == before[i]);
                }
            }
        }
        k += 1;
    }
    assert(cv.take(k as int) =~= cv);
    assert(entries_ok(cv, sv, entries@));
    let ghost after_discovery = views(diags@);

    let linked = gather_paths(change, fs, &entries, Ghost(true));
    let ghost lv = string_views(linked@);
    let mut h: usize = 0;
    assert(lv.take(0) =~= seq![]);
    assert(views(diags@) =~= after_discovery + seq![]);
    while h < linked.len()
        invariant
            h <= linked.len(),
            lv == string_views(linked@),
            sv == source_views(fs@),
            views(diags@) == after_discovery + linked_diags(sv, lv.take(h as int)),
        decreases linked.len() - h,
    {
        proof {
            assert(lv.take(h + 1).drop_last() =~= lv.take(h as int));
            assert(lv.take(h + 1).last() == linked@[h as int]@);
        }
        let ghost mid = views(diags@);
        match read_source(fs, &linked[h]) {
            Some(t) => match FileNode::from_str(linked[h].as_str(), t.as_str()) {
                Ok(_) => {
                    assert(views(diags@) =~= mid + parse_diags(linked@[h as int]@, t@));
                },
                Err(e) => {
                    append_all(&mut diags, e.diagnostics);
                },
            },
            None => {
                assert(views(diags@) =~= mid + seq![]);
            },
        }
        assert(views(diags@) =~= after_discovery + linked_diags(sv, lv.take(h + 1)));
        h += 1;
    }
    assert(lv.take(h as int) =~= lv);
    let ghost after_linked = views(diags@);

    let mut k: usize = 0;
    assert(views(diags@) =~= after_linked + seq![]);
    while k < change.files.len()
        invariant
            k <= change.files.len(),
            cv == changed_views(change.files@),
            sv == source_views(fs@),
            entries_ok(cv, sv, entries@),
            views(diags@) == after_linked + obligations(cv, sv, cv.take(k as int)),
        decreases change.files.len() - k,
    {
        proof {
            assert(cv.take(k + 1).drop_last() =~= cv.take(k as int));
            assert(cv.take(k + 1).last() == cv[k as int]);
        }
        check_file(change, fs, &entries, k, &mut diags);
        assert(views(diags@) =~= after_linked + obligations(cv, sv, cv.take(k + 1)));
        k += 1;
    }
    assert(cv.take(k as int) =~= cv);
    assert(views(diags@) =~= envelope + findings(cv, sv));
    sort_diagnostics(diags)
}

} // verus!
