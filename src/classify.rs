//! Line classification: which annotation marker, if any, a line holds.
//!
//! A keyword counts as a marker only when everything before it on the line is
//! punctuation or whitespace, which accepts any comment opener (`#`, `//`,
//! `--`, `/*`, `<!--`) at any indentation without naming a language.
use vstd::prelude::*;
use crate::text::{
    all_comment, all_comment_at, find, find_exec, is_ascii_ws, is_ascii_ws_char, trim_end_comment,
    trim_end_comment_at, trim_start_ws, trim_start_ws_at,
};

verus! {

pub open spec fn if_change_kw() -> Seq<char> {
    seq!['i', 'f', '-', 'c', 'h', 'a', 'n', 'g', 'e']
}

pub open spec fn then_change_kw() -> Seq<char> {
    seq!['t', 'h', 'e', 'n', '-', 'c', 'h', 'a', 'n', 'g', 'e']
}

pub open spec fn end_change_kw() -> Seq<char> {
    seq!['e', 'n', 'd', '-', 'c', 'h', 'a', 'n', 'g', 'e']
}

/// What a single line of a file holds, as far as annotations go.
#[derive(Clone, Copy, Debug, PartialEq, Eq, Structural)]
pub enum Marker {
    SourceLine,
    IfChangeStart,
    /// A `then-change` naming its one target in place: the target is the
    /// line's characters from the first position up to the second.
    ThenChangeInline(usize, usize),
    ThenChangeBlockStart,
    EndChange,
}

/// The keyword `kw` first occurs in `line` behind comment characters only.
pub open spec fn keyword_opens(line: Seq<char>, kw: Seq<char>) -> bool {
    match find(line, kw) {
        Some(i) => all_comment(line.take(i)),
        None => false,
    }
}

/// The rest of the line after the first `kw`, trailing comment characters trimmed.
pub open spec fn after_keyword(line: Seq<char>, kw: Seq<char>) -> Seq<char> {
    trim_end_comment(line.skip(find(line, kw)->0 + kw.len()))
}

pub open spec fn is_if_change(line: Seq<char>) -> bool {
    keyword_opens(line, if_change_kw()) && {
        let post = after_keyword(line, if_change_kw());
        post.len() == 0 || is_ascii_ws(post[0])
    }
}

/// The `then-change` marker of `line`, if it holds one.
pub open spec fn then_change_marker(line: Seq<char>) -> Option<Marker> {
    if keyword_opens(line, then_change_kw()) {
        let p = find(line, then_change_kw())->0 + then_change_kw().len();
        let post = after_keyword(line, then_change_kw());
        if post.len() == 0 {
            Some(Marker::ThenChangeBlockStart)
        } else if is_ascii_ws(post[0]) {
            let e = p + post.len();
            Some(Marker::ThenChangeInline((e - trim_start_ws(post).len()) as usize, e as usize))
        } else {
            None
        }
    } else {
        None
    }
}

pub open spec fn is_end_change(line: Seq<char>) -> bool {
    keyword_opens(line, end_change_kw())
}

/// The marker of a line, the keywords tried in the order if-change,
/// then-change, end-change.
pub open spec fn marker_of(line: Seq<char>) -> Marker {
    if is_if_change(line) {
        Marker::IfChangeStart
    } else if then_change_marker(line) is Some {
        then_change_marker(line)->0
    } else if is_end_change(line) {
        Marker::EndChange
    } else {
        Marker::SourceLine
    }
}

/// Where `kw` first occurs in `line`, if all that stands before it is
/// comment characters.
fn keyword_position(line: &Vec<char>, kw: &Vec<char>) -> (r: Option<usize>)
    requires
        kw.len() > 0,
    ensures
        r is Some <==> keyword_opens(line@, kw@),
        r matches Some(i) ==> find(line@, kw@) == Some(i as int) && i + kw.len() <= line.len(),
{
    match find_exec(line, kw) {
        Some(i) => {
            assert(line@.subrange(0, i as int) =~= line@.take(i as int));
            if all_comment_at(line, 0, i) {
                Some(i)
            } else {
                None
            }
        },
        None => None,
    }
}

/// Classifies one line.
pub fn classify(line: &Vec<char>) -> (m: Marker)
    ensures
        m == marker_of(line@),
        m matches Marker::ThenChangeInline(s, e) ==> s <= e <= line.len(),
{
    let len = line.len();
    let if_kw: Vec<char> = vec!['i', 'f', '-', 'c', 'h', 'a', 'n', 'g', 'e'];
    let then_kw: Vec<char> = vec!['t', 'h', 'e', 'n', '-', 'c', 'h', 'a', 'n', 'g', 'e'];
    let end_kw: Vec<char> = vec!['e', 'n', 'd', '-', 'c', 'h', 'a', 'n', 'g', 'e'];
    assert(if_kw@ =~= if_change_kw());
    assert(then_kw@ =~= then_change_kw());
    assert(end_kw@ =~= end_change_kw());
    if let Some(i) = keyword_position(line, &if_kw) {
        let p = i + 9;
        assert(line@.subrange(p as int, len as int) =~= line@.skip(p as int));
        let e = trim_end_comment_at(line, p, len);
        if e == p || is_ascii_ws_char(line[p]) {
            return Marker::IfChangeStart;
        }
    }
    if let Some(i) = keyword_position(line, &then_kw) {
        let p = i + 11;
        assert(line@.subrange(p as int, len as int) =~= line@.skip(p as int));
        let e = trim_end_comment_at(line, p, len);
        if e == p {
            return Marker::ThenChangeBlockStart;
        }
        if is_ascii_ws_char(line[p]) {
            let b = trim_start_ws_at(line, p, e);
            return Marker::ThenChangeInline(b, e);
        }
    }
    if keyword_position(line, &end_kw).is_some() {
        return Marker::EndChange;
    }
    Marker::SourceLine
}

} // verus!
