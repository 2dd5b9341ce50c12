//! Annotation blocks and the line-by-line state machine that finds them.
//!
//! Lines are classified independently of the parser's state, and every
//! (state, marker) pair is handled explicitly, so a malformed construct is
//! reported where it stands and parsing goes on past it: one pass reports
//! every problem in a file.
use vstd::prelude::*;
use vstd::string::*;
use core::ops::Range;
use crate::classify::{classify, marker_of, Marker};
use crate::diagnostic::{at_line, diagnostic_text, views, Diagnostic, DiagnosticView};
use crate::text::{
    chars_of, copy_range, lines_of, names_path, names_path_at, split_lines, strip_cr,
    trim_comment, trim_end_comment_at, trim_start_comment_at,
};

verus! {

broadcast use vstd::string::group_string_axioms;

/// Names the file that a block belongs to, or that an obligation targets.
#[derive(Clone, Debug, Hash, PartialEq, Eq)]
pub struct BlockKey {
    pub path: String,
}

impl BlockKey {
    pub fn same_path(&self, other: &BlockKey) -> (r: bool)
        ensures
            r == (self.path@ == other.path@),
    {
        self.path.eq(&other.path)
    }

    pub fn new(path: &str) -> (r: BlockKey)
        ensures
            r.path@ == path@,
    {
        BlockKey { path: path.to_owned() }
    }
}

/// A block as the contracts see it.
pub struct BlockView {
    pub key: Seq<char>,
    pub then_change: Seq<(usize, Seq<char>)>,
    pub if_change_line: usize,
    pub then_change_line: usize,
    pub end_change_line: usize,
}

impl BlockView {
    /// The marker lines stand in order, and the line after the last one has a number.
    pub open spec fn wf(self) -> bool {
        self.if_change_line <= self.then_change_line <= self.end_change_line < usize::MAX
    }

    /// One of the block's obligations targets `path`.
    pub open spec fn lists(self, path: Seq<char>) -> bool {
        exists|k: int| 0 <= k < self.then_change.len() && (#[trigger] self.then_change[k]).1 == path
    }

    /// Lines `if_change_line ..= end_change_line`, markers included.
    pub open spec fn covers(self, line: int) -> bool {
        self.if_change_line <= line <= self.end_change_line
    }
}

/// One co-change region: `if-change`, the guarded lines, `then-change` and
/// its targets, and (in the block form) `end-change`.
///
/// Line numbers are 0-indexed. Each target is paired with the line that
/// declares it.
#[derive(Clone, Debug, PartialEq, Eq)]
pub struct BlockNode {
    pub key: BlockKey,
    pub then_change: Vec<(usize, BlockKey)>,
    pub if_change_lineno: usize,
    pub then_change_lineno: usize,
    pub end_change_lineno: usize,
}

pub open spec fn target_views(ts: Seq<(usize, BlockKey)>) -> Seq<(usize, Seq<char>)> {
    ts.map_values(|t: (usize, BlockKey)| (t.0, t.1.path@))
}

impl View for BlockNode {
    type V = BlockView;

    open spec fn view(&self) -> BlockView {
        BlockView {
            key: self.key.path@,
            then_change: target_views(self.then_change@),
            if_change_line: self.if_change_lineno,
            then_change_line: self.then_change_lineno,
            end_change_line: self.end_change_lineno,
        }
    }
}

pub open spec fn block_views(bs: Seq<BlockNode>) -> Seq<BlockView> {
    bs.map_values(|b: BlockNode| b@)
}

impl BlockNode {
    /// The lines in which a change counts as a change to this block: from the
    /// `if-change` line through the last marker line, markers included, so
    /// that wrapping existing code in markers is seen as a change.
    pub fn content_range(&self) -> (r: Range<usize>)
        requires
            self@.wf(),
        ensures
            r.start == self.if_change_lineno,
            r.end == self.end_change_lineno + 1,
            r.start < r.end,
    {
        self.if_change_lineno..self.end_change_lineno + 1
    }
}

/// The index of the first block at or after `k` that lists `path`.
pub open spec fn first_listing_from(blocks: Seq<BlockView>, path: Seq<char>, k: int) -> Option<int>
    decreases blocks.len() - k,
{
    if k < 0 || k >= blocks.len() {
        None
    } else if blocks[k].lists(path) {
        Some(k)
    } else {
        first_listing_from(blocks, path, k + 1)
    }
}

/// The index of the first block that lists `path`.
pub open spec fn first_listing(blocks: Seq<BlockView>, path: Seq<char>) -> Option<int> {
    first_listing_from(blocks, path, 0)
}

/// What `first_listing_from` finds lists `path`, and no block before it does.
pub proof fn lemma_first_listing(blocks: Seq<BlockView>, path: Seq<char>, k0: int)
    requires
        0 <= k0,
    ensures
        match first_listing_from(blocks, path, k0) {
            Some(k) => k0 <= k < blocks.len() && blocks[k].lists(path) && forall|j: int|
                k0 <= j < k ==> !(#[trigger] blocks[j]).lists(path),
            None => forall|j: int| k0 <= j < blocks.len() ==> !(#[trigger] blocks[j]).lists(path),
        },
    decreases blocks.len() - k0,
{
    if k0 < blocks.len() && !blocks[k0].lists(path) {
        lemma_first_listing(blocks, path, k0 + 1);
    }
}

pub open spec fn msg_then_without_if() -> Seq<char> {
    "then-change must follow an if-change"@
}

pub open spec fn msg_end_without_then() -> Seq<char> {
    "end-change must follow an if-change and then-change"@
}

pub open spec fn msg_nested_if() -> Seq<char> {
    "if-change may not be nested"@
}

pub open spec fn msg_unclosed_if() -> Seq<char> {
    "if-change must be closed by a then-change"@
}

pub open spec fn msg_unclosed_then() -> Seq<char> {
    "then-change must be closed by an end-change"@
}

pub open spec fn msg_invalid_path() -> Seq<char> {
    "then-change does not reference a valid path"@
}

/// An unfinished block.
pub struct BuilderView {
    pub if_line: usize,
    pub then_line: usize,
    pub targets: Seq<(usize, Seq<char>)>,
}

/// The parser's state: outside any block, inside one before its
/// `then-change`, or collecting the targets of a block-form `then-change`.
pub enum Phase {
    Idle,
    Opened(BuilderView),
    Collecting(BuilderView),
}

pub struct ParseModel {
    pub phase: Phase,
    pub blocks: Seq<BlockView>,
    pub diags: Seq<DiagnosticView>,
}

pub open spec fn initial_model() -> ParseModel {
    ParseModel { phase: Phase::Idle, blocks: seq![], diags: seq![] }
}

/// Report `msg` at line `i` and drop any unfinished block.
pub open spec fn fail(path: Seq<char>, m: ParseModel, i: usize, msg: Seq<char>) -> ParseModel {
    ParseModel { phase: Phase::Idle, blocks: m.blocks, diags: m.diags.push(at_line(path, i, msg)) }
}

/// Report `msg` at line `i`, keeping the state.
pub open spec fn note(path: Seq<char>, m: ParseModel, i: usize, msg: Seq<char>) -> ParseModel {
    ParseModel { phase: m.phase, blocks: m.blocks, diags: m.diags.push(at_line(path, i, msg)) }
}

/// Finish the block `b` at line `i` with `targets`, back to `Idle`.
pub open spec fn close(
    path: Seq<char>,
    m: ParseModel,
    b: BuilderView,
    then_line: usize,
    i: usize,
    targets: Seq<(usize, Seq<char>)>,
) -> ParseModel {
    ParseModel {
        phase: Phase::Idle,
        blocks: m.blocks.push(
            BlockView {
                key: path,
                then_change: targets,
                if_change_line: b.if_line,
                then_change_line: then_line,
                end_change_line: i,
            },
        ),
        diags: m.diags,
    }
}

/// One transition of the parser on line `i` of the file at `path`.
pub open spec fn step(path: Seq<char>, m: ParseModel, i: usize, line: Seq<char>) -> ParseModel {
    match m.phase {
        Phase::Idle => match marker_of(line) {
            Marker::SourceLine => m,
            Marker::IfChangeStart => ParseModel {
                phase: Phase::Opened(BuilderView { if_line: i, then_line: i, targets: seq![] }),
                blocks: m.blocks,
                diags: m.diags,
            },
            Marker::ThenChangeInline(_, _) => fail(path, m, i, msg_then_without_if()),
            Marker::ThenChangeBlockStart => fail(path, m, i, msg_then_without_if()),
            Marker::EndChange => fail(path, m, i, msg_end_without_then()),
        },
        Phase::Opened(b) => match marker_of(line) {
            Marker::SourceLine => m,
            Marker::IfChangeStart => fail(path, m, i, msg_nested_if()),
            Marker::ThenChangeInline(s, e) => {
                let t = line.subrange(s as int, e as int);
                if names_path(t) {
                    close(path, m, b, i, i, seq![(i, t)])
                } else {
                    note(path, close(path, m, b, i, i, seq![]), i, msg_invalid_path())
                }
            },
            Marker::ThenChangeBlockStart => ParseModel {
                phase: Phase::Collecting(
                    BuilderView { if_line: b.if_line, then_line: i, targets: b.targets },
                ),
                blocks: m.blocks,
                diags: m.diags,
            },
            Marker::EndChange => fail(path, m, i, msg_end_without_then()),
        },
        Phase::Collecting(b) => match marker_of(line) {
            Marker::SourceLine => {
                let t = trim_comment(line);
                if names_path(t) {
                    ParseModel {
                        phase: Phase::Collecting(
                            BuilderView {
                                if_line: b.if_line,
                                then_line: b.then_line,
                                targets: b.targets.push((i, t)),
                            },
                        ),
                        blocks: m.blocks,
                        diags: m.diags,
                    }
                } else {
                    note(path, m, i, msg_invalid_path())
                }
            },
            Marker::EndChange => close(path, m, b, b.then_line, i, b.targets),
            _ => fail(path, m, i, msg_end_without_then()),
        },
    }
}

/// The parser's state after the given lines.
pub open spec fn parse_lines(path: Seq<char>, lines: Seq<Seq<char>>) -> ParseModel
    decreases lines.len(),
{
    if lines.len() == 0 {
        initial_model()
    } else {
        step(
            path,
            parse_lines(path, lines.drop_last()),
            (lines.len() - 1) as usize,
            lines.last(),
        )
    }
}

/// The diagnostics once the last of `n` lines is read: a block still open
/// is reported at the last line and dropped.
pub open spec fn end_of_file(path: Seq<char>, m: ParseModel, n: int) -> Seq<DiagnosticView> {
    match m.phase {
        Phase::Idle => m.diags,
        Phase::Opened(_) => m.diags.push(at_line(path, (n - 1) as usize, msg_unclosed_if())),
        Phase::Collecting(_) => m.diags.push(at_line(path, (n - 1) as usize, msg_unclosed_then())),
    }
}

/// The blocks found in `text`, the file at `path`.
pub open spec fn parse_blocks(path: Seq<char>, text: Seq<char>) -> Seq<BlockView> {
    parse_lines(path, lines_of(text)).blocks
}

/// The structural diagnostics of `text`, the file at `path`.
pub open spec fn parse_diags(path: Seq<char>, text: Seq<char>) -> Seq<DiagnosticView> {
    end_of_file(path, parse_lines(path, lines_of(text)), lines_of(text).len() as int)
}

struct Builder {
    if_line: usize,
    then_line: usize,
    targets: Vec<(usize, BlockKey)>,
}

impl View for Builder {
    type V = BuilderView;

    closed spec fn view(&self) -> BuilderView {
        BuilderView {
            if_line: self.if_line,
            then_line: self.then_line,
            targets: target_views(self.targets@),
        }
    }
}

enum ParseState {
    Idle,
    Opened(Builder),
    Collecting(Builder),
}

impl View for ParseState {
    type V = Phase;

    closed spec fn view(&self) -> Phase {
        match self {
            ParseState::Idle => Phase::Idle,
            ParseState::Opened(b) => Phase::Opened(b@),
            ParseState::Collecting(b) => Phase::Collecting(b@),
        }
    }
}

struct Parser {
    path: String,
    blocks: Vec<BlockNode>,
    errors: Vec<Diagnostic>,
    state: ParseState,
}

impl Parser {
    spec fn model(&self) -> ParseModel {
        ParseModel {
            phase: self.state@,
            blocks: block_views(self.blocks@),
            diags: views(self.errors@),
        }
    }

    fn new(path: &str) -> (p: Parser)
        ensures
            p.path@ == path@,
            p.model() == initial_model(),
    {
        let p = Parser {
            path: path.to_owned(),
            blocks: Vec::new(),
            errors: Vec::new(),
            state: ParseState::Idle,
        };
        assert(block_views(p.blocks@) =~= seq![]);
        assert(views(p.errors@) =~= seq![]);
        p
    }

    fn record_error(&mut self, lineno: usize, message: &str)
        ensures
            final(self).path == old(self).path,
            final(self).state == old(self).state,
            final(self).blocks == old(self).blocks,
            views(final(self).errors@) == views(old(self).errors@).push(
                at_line(old(self).path@, lineno, message@),
            ),
    {
        let d = Diagnostic {
            path: self.path.clone(),
            start_line: Some(lineno),
            end_line: None,
            message: message.to_owned(),
        };
        self.errors.push(d);
        assert(views(self.errors@) =~= views(old(self).errors@).push(d@));
    }

    fn emit(&mut self, b: Builder, then_line: usize, i: usize, targets: Vec<(usize, BlockKey)>)
        ensures
            final(self).path == old(self).path,
            final(self).errors == old(self).errors,
            final(self).state == old(self).state,
            block_views(final(self).blocks@) == block_views(old(self).blocks@).push(
                BlockView {
                    key: old(self).path@,
                    then_change: target_views(targets@),
                    if_change_line: b.if_line,
                    then_change_line: then_line,
                    end_change_line: i,
                },
            ),
    {
        let node = BlockNode {
            key: BlockKey { path: self.path.clone() },
            then_change: targets,
            if_change_lineno: b.if_line,
            then_change_lineno: then_line,
            end_change_lineno: i,
        };
        self.blocks.push(node);
        assert(block_views(self.blocks@) =~= block_views(old(self).blocks@).push(node@));
    }

    /// Feeds line `i`, which is `text[offset..offset + line.len()]`.
    fn feed(&mut self, i: usize, line: &Vec<char>, text: &str, offset: usize)
        requires
            offset + line.len() <= text@.len() <= usize::MAX,
            line@ == text@.subrange(offset as int, offset + line.len()),
        ensures
            final(self).path == old(self).path,
            final(self).model() == step(old(self).path@, old(self).model(), i, line@),
    {
        let marker = classify(line);
        let mut state = ParseState::Idle;
        core::mem::swap(&mut state, &mut self.state);
        match state {
            ParseState::Idle => match marker {
                Marker::SourceLine => {},
                Marker::IfChangeStart => {
                    let b = Builder { if_line: i, then_line: i, targets: Vec::new() };
                    assert(target_views(b.targets@) =~= seq![]);
                    self.state = ParseState::Opened(b);
                },
                Marker::ThenChangeInline(_, _) => {
                    self.record_error(i, "then-change must follow an if-change");
                },
                Marker::ThenChangeBlockStart => {
                    self.record_error(i, "then-change must follow an if-change");
                },
                Marker::EndChange => {
                    self.record_error(i, "end-change must follow an if-change and then-change");
                },
            },
            ParseState::Opened(b) => match marker {
                Marker::SourceLine => {
                    self.state = ParseState::Opened(b);
                },
                Marker::IfChangeStart => {
                    self.record_error(i, "if-change may not be nested");
                },
                Marker::ThenChangeInline(s, e) => {
                    let ghost t = line@.subrange(s as int, e as int);
                    let mut targets: Vec<(usize, BlockKey)> = Vec::new();
                    let valid = names_path_at(line, s, e);
                    if valid {
                        let target = text.substring_char(offset + s, offset + e);
                        assert(target@ =~= t);
                        targets.push((i, BlockKey::new(target)));
                    }
                    assert(target_views(targets@) =~= (if valid {
                        seq![(i, t)]
                    } else {
                        seq![]
                    }));
                    self.emit(b, i, i, targets);
                    if !valid {
                        self.record_error(i, "then-change does not reference a valid path");
                    }
                },
                Marker::ThenChangeBlockStart => {
                    self.state = ParseState::Collecting(
                        Builder { if_line: b.if_line, then_line: i, targets: b.targets },
                    );
                },
                Marker::EndChange => {
                    self.record_error(i, "end-change must follow an if-change and then-change");
                },
            },
            ParseState::Collecting(b) => match marker {
                Marker::SourceLine => {
                    let len = line.len();
                    let e = trim_end_comment_at(line, 0, len);
                    let s = trim_start_comment_at(line, 0, e);
                    proof {
                        assert(line@.subrange(0, len as int) =~= line@);
                        assert(line@.subrange(s as int, e as int) == trim_comment(line@));
                    }
                    if names_path_at(line, s, e) {
                        let target = text.substring_char(offset + s, offset + e);
                        assert(target@ =~= line@.subrange(s as int, e as int));
                        let mut b = b;
                        let ghost old_targets = b.targets@;
                        b.targets.push((i, BlockKey::new(target)));
                        assert(target_views(b.targets@) =~= target_views(old_targets).push(
                            (i, trim_comment(line@)),
                        ));
                        self.state = ParseState::Collecting(b);
                    } else {
                        self.state = ParseState::Collecting(b);
                        self.record_error(i, "then-change does not reference a valid path");
                    }
                },
                Marker::EndChange => {
                    let then_line = b.then_line;
                    let targets = b.targets;
                    let b = Builder { if_line: b.if_line, then_line, targets: Vec::new() };
                    self.emit(b, then_line, i, targets);
                },
                _ => {
                    self.record_error(i, "end-change must follow an if-change and then-change");
                },
            },
        }
    }

    /// Ends the parse after `n` lines.
    fn finish(self, n: usize) -> (r: (Vec<BlockNode>, Vec<Diagnostic>))
        requires
            !(self.model().phase is Idle) ==> n > 0,
        ensures
            block_views(r.0@) == self.model().blocks,
            views(r.1@) == end_of_file(self.path@, self.model(), n as int),
    {
        let mut p = self;
        match p.state {
            ParseState::Idle => {},
            ParseState::Opened(_) => {
                p.record_error(n - 1, "if-change must be closed by a then-change");
            },
            ParseState::Collecting(_) => {
                p.record_error(n - 1, "then-change must be closed by an end-change");
            },
        }
        (p.blocks, p.errors)
    }

    /// Runs the parser over every line of `text`.
    fn parse(self, text: &str) -> (r: (Vec<BlockNode>, Vec<Diagnostic>))
        requires
            self.model() == initial_model(),
        ensures
            block_views(r.0@) == parse_blocks(self.path@, text@),
            views(r.1@) == parse_diags(self.path@, text@),
            text@.len() <= usize::MAX,
    {
        let ghost path = self.path@;
        let mut parser = self;
        let chars = chars_of(text);
        let n = chars.len();
        let mut start: usize = 0;
        let mut p: usize = 0;
        let mut li: usize = 0;
        let ghost mut done: Seq<Seq<char>> = seq![];
        while p < n
            invariant
                chars@ == text@,
                n == chars.len(),
                start <= p <= n,
                li == done.len(),
                li <= start,
                li == 0 ==> parser.model().phase is Idle,
                done + split_lines(text@, start as int, p as int) == lines_of(text@),
                parser.model() == parse_lines(path, done),
                parser.path@ == path,
            decreases n - p,
        {
            if chars[p] == '\n' {
                let mut e = p;
                if e > start && chars[e - 1] == '\r' {
                    e = e - 1;
                }
                let line = copy_range(&chars, start, e);
                assert(line@ =~= strip_cr(text@.subrange(start as int, p as int)));
                parser.feed(li, &line, text, start);
                proof {
                    assert(done.push(line@).drop_last() =~= done);
                    assert(done.push(line@) + split_lines(text@, (p + 1) as int, (p + 1) as int)
                        =~= done + split_lines(text@, start as int, p as int));
                    done = done.push(line@);
                }
                li += 1;
                start = p + 1;
            }
            p += 1;
        }
        if start < n {
            let line = copy_range(&chars, start, n);
            parser.feed(li, &line, text, start);
            proof {
                assert(done.push(line@).drop_last() =~= done);
                assert(done.push(line@) =~= done + split_lines(text@, start as int, p as int));
                done = done.push(line@);
            }
            li += 1;
        } else {
            assert(done =~= done + split_lines(text@, start as int, p as int));
        }
        parser.finish(li)
    }
}

/// Runs the parser over `text`, the file at `path`: the blocks it found and
/// the structural diagnostics, in file order. Blocks found before or between
/// malformed constructs are kept.
pub fn parse_annotations(path: &str, text: &str) -> (r: (Vec<BlockNode>, Vec<Diagnostic>))
    ensures
        block_views(r.0@) == parse_blocks(path@, text@),
        views(r.1@) == parse_diags(path@, text@),
        text@.len() <= usize::MAX,
{
    Parser::new(path).parse(text)
}

/// `s` split from `start` on has at most one line per character.
proof fn lemma_split_lines_len(s: Seq<char>, start: int, p: int)
    requires
        0 <= start <= p <= s.len(),
    ensures
        split_lines(s, start, p).len() <= s.len() - start,
    decreases s.len() - p,
{
    if p < s.len() {
        if s[p] == '\n' {
            lemma_split_lines_len(s, p + 1, p + 1);
        } else {
            lemma_split_lines_len(s, start, p + 1);
        }
    }
}

/// After `lines`, every block found has its marker lines in order within
/// the lines read, and so has the block under construction.
proof fn lemma_parse_lines_ordered(path: Seq<char>, lines: Seq<Seq<char>>)
    requires
        lines.len() <= usize::MAX,
    ensures
        forall|k: int|
            0 <= k < parse_lines(path, lines).blocks.len() ==> {
                let b = #[trigger] parse_lines(path, lines).blocks[k];
                b.if_change_line <= b.then_change_line <= b.end_change_line < lines.len() && b.key
                    == path
            },
        match parse_lines(path, lines).phase {
            Phase::Idle => true,
            Phase::Opened(b) => b.if_line <= b.then_line < lines.len(),
            Phase::Collecting(b) => b.if_line <= b.then_line < lines.len(),
        },
    decreases lines.len(),
{
    if lines.len() > 0 {
        lemma_parse_lines_ordered(path, lines.drop_last());
    }
}

/// Every block that the parser emits has `if_change_line <= then_change_line
/// <= end_change_line`, and so a content range that is not empty.
pub proof fn lemma_blocks_well_ordered(path: Seq<char>, text: Seq<char>)
    requires
        text.len() <= usize::MAX,
    ensures
        forall|k: int|
            0 <= k < parse_blocks(path, text).len() ==> (#[trigger] parse_blocks(path, text)[k]).wf()
                && parse_blocks(path, text)[k].key == path,
{
    lemma_split_lines_len(text, 0, 0);
    lemma_parse_lines_ordered(path, lines_of(text));
}

/// The parse of a file that the parser could not accept.
#[derive(Debug)]
pub struct FileNodeParseError {
    pub diagnostics: Vec<Diagnostic>,
}

/// The diagnostics as lines of output, each ended by a line feed.
pub open spec fn diagnostics_text(ds: Seq<DiagnosticView>) -> Seq<char>
    decreases ds.len(),
{
    if ds.len() == 0 {
        seq![]
    } else {
        diagnostics_text(ds.drop_last()) + diagnostic_text(ds.last()) + seq!['\n']
    }
}

impl FileNodeParseError {
    /// Every diagnostic as one line of output.
    pub fn to_string(&self) -> (r: String)
        ensures
            r@ == diagnostics_text(views(self.diagnostics@)),
    {
        proof {
            reveal_strlit("\n");
        }
        let ghost dv = views(self.diagnostics@);
        let mut out = String::new();
        let mut k: usize = 0;
        assert(dv.take(0) =~= seq![]);
        while k < self.diagnostics.len()
            invariant
                k <= self.diagnostics.len(),
                dv == views(self.diagnostics@),
                out@ == diagnostics_text(dv.take(k as int)),
            decreases self.diagnostics.len() - k,
        {
            proof {
                assert(dv.take(k + 1).drop_last() =~= dv.take(k as int));
                assert(dv.take(k + 1).last() == self.diagnostics@[k as int]@);
            }
            let line = self.diagnostics[k].to_string();
            assert(dv[k as int] == self.diagnostics@[k as int]@);
            proof {
                reveal_strlit("\n");
            }
            let ghost before = out@;
            out.append(line.as_str());
            out.append("\n");
            assert(out@ =~= before + diagnostic_text(dv[k as int]) + seq!['\n']);
            k += 1;
        }
        assert(dv.take(k as int) =~= dv);
        out
    }
}

/// The co-change blocks of one file, in file order.
#[derive(Debug)]
pub struct FileNode {
    pub blocks: Vec<BlockNode>,
}

impl FileNode {
    pub fn new(blocks: Vec<BlockNode>) -> (r: FileNode)
        ensures
            r.blocks@ == blocks@,
    {
        FileNode { blocks }
    }

    /// The first block of this file that lists the file of `src_block` among
    /// its targets: the counterpart of `src_block` here.
    pub fn get_corresponding_block(&self, src_block: &BlockNode) -> (r: Option<&BlockNode>)
        ensures
            match first_listing(block_views(self.blocks@), src_block.key.path@) {
                Some(k) => r matches Some(b) && *b == self.blocks@[k],
                None => r is None,
            },
    {
        let ghost bv = block_views(self.blocks@);
        let ghost key = src_block.key.path@;
        let mut k: usize = 0;
        while k < self.blocks.len()
            invariant
                k <= self.blocks.len(),
                bv == block_views(self.blocks@),
                key == src_block.key.path@,
                first_listing(bv, key) == first_listing_from(bv, key, k as int),
            decreases self.blocks.len() - k,
        {
            let dst_block = &self.blocks[k];
            let mut j: usize = 0;
            while j < dst_block.then_change.len()
                invariant
                    j <= dst_block.then_change.len(),
                    *dst_block == self.blocks@[k as int],
                    bv == block_views(self.blocks@),
                    key == src_block.key.path@,
                    first_listing(bv, key) == first_listing_from(bv, key, k as int),
                    k < self.blocks.len(),
                    forall|t: int| 0 <= t < j ==> (#[trigger] bv[k as int].then_change[t]).1 != key,
                decreases dst_block.then_change.len() - j,
            {
                assert(bv[k as int] == self.blocks@[k as int]@);
                assert(bv[k as int].then_change[j as int] == (
                    dst_block.then_change@[j as int].0,
                    dst_block.then_change@[j as int].1.path@,
                ));
                if dst_block.then_change[j].1.same_path(&src_block.key) {
                    assert(bv[k as int].then_change[j as int].1 == key);
                    assert(bv[k as int].lists(key));
                    return Some(dst_block);
                }
                j += 1;
            }
            assert(!bv[k as int].lists(key));
            k += 1;
        }
        None
    }

    /// Parses `s`, the file at `path`: its blocks when it is well formed,
    /// else every structural diagnostic found in it.
    pub fn from_str(path: &str, s: &str) -> (r: Result<FileNode, FileNodeParseError>)
        ensures
            match r {
                Ok(f) => parse_diags(path@, s@).len() == 0 && block_views(f.blocks@)
                    == parse_blocks(path@, s@),
                Err(e) => parse_diags(path@, s@).len() > 0 && views(e.diagnostics@)
                    == parse_diags(path@, s@),
            },
            s@.len() <= usize::MAX,
    {
        let (blocks, errors) = parse_annotations(path, s);
        if errors.len() == 0 {
            Ok(FileNode::new(blocks))
        } else {
            Err(FileNodeParseError { diagnostics: errors })
        }
    }
}

} // verus!
