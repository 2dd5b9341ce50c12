//! What a line means to the parser, and two laws stated over it: the
//! comment punctuation and indentation around a line's text change nothing,
//! and a file made of well-formed blocks draws no structural diagnostic.
use vstd::prelude::*;
use crate::classify::{
    after_keyword, end_change_kw, if_change_kw, is_end_change, is_if_change, keyword_opens,
    marker_of, then_change_kw, then_change_marker, Marker,
};
use crate::parser::{parse_blocks, parse_diags, parse_lines, step, ParseModel};
use crate::text::{
    is_ws,
    all_comment, find, find_from, is_comment_char, lines_of, names_path, occurs_at, trim_comment,
    trim_end_comment, trim_start_comment, trim_start_ws,
};

verus! {

/// What a line means to the parser: its marker, with the target text of an
/// inline `then-change`, or the trimmed text of any other line.
pub enum LineMeaning {
    Source(Seq<char>),
    IfChange,
    Inline(Seq<char>),
    Block,
    End,
}

pub open spec fn meaning(line: Seq<char>) -> LineMeaning {
    match marker_of(line) {
        Marker::SourceLine => LineMeaning::Source(trim_comment(line)),
        Marker::IfChangeStart => LineMeaning::IfChange,
        Marker::ThenChangeInline(s, e) => LineMeaning::Inline(line.subrange(s as int, e as int)),
        Marker::ThenChangeBlockStart => LineMeaning::Block,
        Marker::EndChange => LineMeaning::End,
    }
}

/// `t` is text whose first and last characters are not comment characters.
pub open spec fn bare(t: Seq<char>) -> bool {
    t.len() > 0 && !is_comment_char(t[0]) && !is_comment_char(t.last())
}

/// The line `x + t + y`: text `t` inside a comment opener `x` and closer `y`.
pub open spec fn decorated(x: Seq<char>, t: Seq<char>, y: Seq<char>) -> Seq<char> {
    x + t + y
}

/// A sensible decoration of `t`: opener and closer of comment characters
/// only, around text that is empty or bare.
pub open spec fn decoration_ok(x: Seq<char>, t: Seq<char>, y: Seq<char>) -> bool {
    all_comment(x) && all_comment(y) && (t.len() == 0 || bare(t))
}

proof fn lemma_find_from_none(s: Seq<char>, kw: Seq<char>, i: int)
    requires
        0 <= i,
        find_from(s, kw, i) is None,
    ensures
        forall|j: int| i <= j ==> !occurs_at(s, kw, j),
    decreases s.len() + 1 - i,
{
    if i + kw.len() <= s.len() {
        lemma_find_from_none(s, kw, i + 1);
    }
}

proof fn lemma_find_from_some(s: Seq<char>, kw: Seq<char>, i: int)
    requires
        0 <= i,
        find_from(s, kw, i) is Some,
    ensures
        i <= find_from(s, kw, i)->0,
        occurs_at(s, kw, find_from(s, kw, i)->0),
        forall|j: int| i <= j < find_from(s, kw, i)->0 ==> !occurs_at(s, kw, j),
    decreases s.len() + 1 - i,
{
    if !occurs_at(s, kw, i) {
        lemma_find_from_some(s, kw, i + 1);
    }
}

proof fn lemma_find_from_skip(s: Seq<char>, kw: Seq<char>, i: int, m: int)
    requires
        0 <= i <= m,
        m + kw.len() <= s.len(),
        forall|j: int| i <= j < m ==> !occurs_at(s, kw, j),
    ensures
        find_from(s, kw, i) == find_from(s, kw, m),
    decreases m - i,
{
    if i < m {
        lemma_find_from_skip(s, kw, i + 1, m);
    }
}

proof fn lemma_trim_end_closer(a: Seq<char>, y: Seq<char>)
    requires
        all_comment(y),
    ensures
        trim_end_comment(a + y) == trim_end_comment(a),
    decreases y.len(),
{
    if y.len() > 0 {
        assert((a + y).drop_last() =~= a + y.drop_last());
        lemma_trim_end_closer(a, y.drop_last());
    } else {
        assert(a + y =~= a);
    }
}

proof fn lemma_trim_start_opener(x: Seq<char>, a: Seq<char>)
    requires
        all_comment(x),
    ensures
        trim_start_comment(x + a) == trim_start_comment(a),
    decreases x.len(),
{
    if x.len() > 0 {
        assert((x + a).drop_first() =~= x.drop_first() + a);
        lemma_trim_start_opener(x.drop_first(), a);
    } else {
        assert(x + a =~= a);
    }
}

proof fn lemma_trim_end_shorter(s: Seq<char>)
    ensures
        trim_end_comment(s).len() <= s.len(),
    decreases s.len(),
{
    if s.len() > 0 {
        lemma_trim_end_shorter(s.drop_last());
    }
}

proof fn lemma_trim_start_ws_shorter(s: Seq<char>)
    ensures
        trim_start_ws(s).len() <= s.len(),
    decreases s.len(),
{
    if s.len() > 0 {
        lemma_trim_start_ws_shorter(s.drop_first());
    }
}

proof fn lemma_all_comment_trims(s: Seq<char>)
    requires
        all_comment(s),
    ensures
        trim_end_comment(s) == Seq::<char>::empty(),
    decreases s.len(),
{
    if s.len() > 0 {
        lemma_all_comment_trims(s.drop_last());
    }
}

/// A keyword starts and ends with a letter.
pub open spec fn keyword_ok(kw: Seq<char>) -> bool {
    kw.len() > 0 && !is_comment_char(kw[0]) && !is_comment_char(kw.last())
}

/// Where the keyword opens a decorated line, and what follows it.
proof fn lemma_keyword_decorated(x: Seq<char>, t: Seq<char>, y: Seq<char>, kw: Seq<char>)
    requires
        decoration_ok(x, t, y),
        keyword_ok(kw),
    ensures
        keyword_opens(decorated(x, t, y), kw) == keyword_opens(t, kw),
        keyword_opens(t, kw) ==> find(t, kw) == Some(0int) && find(decorated(x, t, y), kw) == Some(
            x.len() as int,
        ) && after_keyword(decorated(x, t, y), kw) == after_keyword(t, kw),
{
    let l = decorated(x, t, y);
    let n = x.len() as int;
    // no occurrence begins inside the opener
    assert forall|j: int| 0 <= j < n implies !occurs_at(l, kw, j) by {
        if occurs_at(l, kw, j) {
            assert(l.subrange(j, j + kw.len())[0] == kw[0]);
            assert(l[j] == x[j]);
        }
    }
    if t.len() == 0 {
        assert(l =~= x + y);
        assert(all_comment(l)) by {
            assert forall|i: int| 0 <= i < l.len() implies is_comment_char(#[trigger] l[i]) by {
                if i < n {
                    assert(l[i] == x[i]);
                } else {
                    assert(l[i] == y[i - n]);
                }
            }
        }
        assert forall|j: int| 0 <= j implies !occurs_at(l, kw, j) by {
            if occurs_at(l, kw, j) {
                assert(l.subrange(j, j + kw.len())[0] == kw[0]);
            }
        }
        if find(l, kw) is Some {
            lemma_find_from_some(l, kw, 0);
        }
        if find(t, kw) is Some {
            lemma_find_from_some(t, kw, 0);
        }
        return;
    }
    // an occurrence at the start of `t` is one at `n` in the line
    let at_start = occurs_at(t, kw, 0);
    assert(occurs_at(l, kw, n) == at_start) by {
        if kw.len() <= t.len() {
            assert(l.subrange(n, n + kw.len()) =~= t.subrange(0, kw.len() as int));
        } else {
            if occurs_at(l, kw, n) {
                assert(l.subrange(n, n + kw.len())[kw.len() - 1] == kw.last());
                assert(l[n + kw.len() - 1] == y[n + kw.len() - 1 - n - t.len()]);
            }
        }
    }
    if keyword_opens(t, kw) {
        lemma_find_from_some(t, kw, 0);
        let j = find(t, kw)->0;
        if j > 0 {
            assert(t.take(j)[0] == t[0]);
        }
        assert(j == 0);
        lemma_find_from_skip(l, kw, 0, n);
        assert(find(l, kw) == Some(n));
        assert(l.take(n) =~= x);
        assert(l.skip(n + kw.len()) =~= t.skip(kw.len() as int) + y);
        lemma_trim_end_closer(t.skip(kw.len() as int), y);
    } else {
        assert(!at_start) by {
            if at_start {
                if find(t, kw) is Some {
                    lemma_find_from_some(t, kw, 0);
                } else {
                    lemma_find_from_none(t, kw, 0);
                }
                assert(t.take(0) =~= seq![]);
            }
        }
        if find(l, kw) is Some {
            lemma_find_from_some(l, kw, 0);
            let j = find(l, kw)->0;
            assert(j > n);
            assert(l.take(j)[n] == t[0]);
        }
    }
}

/// The text of a decorated line means to the parser what the bare text
/// means: comment openers, closers and indentation change nothing.
pub proof fn lemma_decorated_meaning(x: Seq<char>, t: Seq<char>, y: Seq<char>)
    requires
        decoration_ok(x, t, y),
        decorated(x, t, y).len() <= usize::MAX,
    ensures
        meaning(decorated(x, t, y)) == meaning(t),
{
    let l = decorated(x, t, y);
    let n = x.len() as int;
    assert(keyword_ok(if_change_kw()));
    assert(keyword_ok(then_change_kw()));
    assert(keyword_ok(end_change_kw()));
    lemma_keyword_decorated(x, t, y, if_change_kw());
    lemma_keyword_decorated(x, t, y, then_change_kw());
    lemma_keyword_decorated(x, t, y, end_change_kw());
    assert(is_if_change(l) == is_if_change(t));
    assert(is_end_change(l) == is_end_change(t));
    match then_change_marker(t) {
        Some(Marker::ThenChangeInline(s, e)) => {
            let p = find(t, then_change_kw())->0 + then_change_kw().len();
            let post = after_keyword(t, then_change_kw());
            assert(post.len() <= t.len() - p) by {
                assert(t.skip(p).len() == t.len() - p);
                lemma_trim_end_shorter(t.skip(p));
            }
            assert(find(l, then_change_kw()) == Some(n));
            assert(after_keyword(l, then_change_kw()) == post);
            lemma_trim_start_ws_shorter(post);
            let ew = p + post.len();
            let sw = ew - trim_start_ws(post).len();
            assert(0 <= sw <= ew <= t.len());
            assert(e as int == ew);
            assert(s as int == sw);
            assert(then_change_marker(l) == Some(
                Marker::ThenChangeInline((sw + n) as usize, (ew + n) as usize),
            ));
            assert(l.subrange(s + n, e + n) =~= t.subrange(s as int, e as int));
        },
        _ => {},
    }
    if t.len() > 0 {
        lemma_trim_end_closer(x + t, y);
        assert(l =~= (x + t) + y);
        assert(trim_end_comment(x + t) == x + t);
        lemma_trim_start_opener(x, t);
        assert(trim_comment(l) == trim_comment(t));
    } else {
        assert(l =~= x + y);
        assert(all_comment(l)) by {
            assert forall|i: int| 0 <= i < l.len() implies is_comment_char(#[trigger] l[i]) by {
                if i < n {
                    assert(l[i] == x[i]);
                } else {
                    assert(l[i] == y[i - n]);
                }
            }
        }
        lemma_all_comment_trims(l);
        assert(trim_comment(t) =~= Seq::<char>::empty());
    }
}

/// Lines that mean the same drive the parser alike.
proof fn lemma_step_by_meaning(
    path: Seq<char>,
    m: ParseModel,
    i: usize,
    l1: Seq<char>,
    l2: Seq<char>,
)
    requires
        meaning(l1) == meaning(l2),
    ensures
        step(path, m, i, l1) == step(path, m, i, l2),
{
}

/// Files whose lines mean the same, line by line, parse alike.
pub proof fn lemma_parse_by_meaning(path: Seq<char>, l1: Seq<Seq<char>>, l2: Seq<Seq<char>>)
    requires
        l1.len() == l2.len(),
        forall|i: int| 0 <= i < l1.len() ==> meaning(#[trigger] l1[i]) == meaning(l2[i]),
    ensures
        parse_lines(path, l1) == parse_lines(path, l2),
    decreases l1.len(),
{
    if l1.len() > 0 {
        let a = l1.drop_last();
        let b = l2.drop_last();
        assert forall|i: int| 0 <= i < a.len() implies meaning(#[trigger] a[i]) == meaning(b[i]) by {
            assert(a[i] == l1[i] && b[i] == l2[i]);
        }
        lemma_parse_by_meaning(path, a, b);
        lemma_step_by_meaning(
            path,
            parse_lines(path, a),
            (l1.len() - 1) as usize,
            l1.last(),
            l2.last(),
        );
    }
}

/// Each line `ts[i]` inside the opener `xs[i]` and the closer `ys[i]`.
pub open spec fn decorate_all(xs: Seq<Seq<char>>, ts: Seq<Seq<char>>, ys: Seq<Seq<char>>) -> Seq<
    Seq<char>,
> {
    Seq::new(ts.len(), |i: int| decorated(xs[i], ts[i], ys[i]))
}

/// Comment-style invariance: a file whose every line is text inside some
/// comment opener and closer (any mix of `#`, `//`, `--`, `/* */`, `<!-- -->`,
/// any indentation) parses exactly as the bare text does: the same blocks,
/// with the same targets and line ranges, and the same diagnostics.
pub proof fn lemma_comment_style_invariance(
    path: Seq<char>,
    xs: Seq<Seq<char>>,
    ts: Seq<Seq<char>>,
    ys: Seq<Seq<char>>,
)
    requires
        xs.len() == ts.len(),
        ys.len() == ts.len(),
        forall|i: int|
            0 <= i < ts.len() ==> decoration_ok(xs[i], #[trigger] ts[i], ys[i]) && decorated(
                xs[i],
                ts[i],
                ys[i],
            ).len() <= usize::MAX,
    ensures
        parse_lines(path, decorate_all(xs, ts, ys)) == parse_lines(path, ts),
{
    let ls = decorate_all(xs, ts, ys);
    assert forall|i: int| 0 <= i < ls.len() implies meaning(#[trigger] ls[i]) == meaning(ts[i]) by {
        lemma_decorated_meaning(xs[i], ts[i], ys[i]);
    }
    lemma_parse_by_meaning(path, ls, ts);
}

/// Where a well-formed file stands after some lines: outside any block,
/// in a block's guarded lines, or in the target list of a block-form
/// `then-change`.
pub enum Expect {
    Outside,
    InBody,
    InTargets,
}

/// Where the lines `ls` leave a well-formed file, or `None` when they do
/// not begin one: blocks open with `if-change`, close with an inline
/// `then-change` naming a path or with a block-form `then-change` whose
/// lines each name a path and an `end-change`, and never nest.
pub open spec fn expect_after(ls: Seq<Seq<char>>) -> Option<Expect>
    decreases ls.len(),
{
    if ls.len() == 0 {
        Some(Expect::Outside)
    } else {
        match (expect_after(ls.drop_last()), meaning(ls.last())) {
            (Some(Expect::Outside), LineMeaning::Source(_)) => Some(Expect::Outside),
            (Some(Expect::Outside), LineMeaning::IfChange) => Some(Expect::InBody),
            (Some(Expect::InBody), LineMeaning::Source(_)) => Some(Expect::InBody),
            (Some(Expect::InBody), LineMeaning::Inline(t)) => if names_path(t) {
                Some(Expect::Outside)
            } else {
                None
            },
            (Some(Expect::InBody), LineMeaning::Block) => Some(Expect::InTargets),
            (Some(Expect::InTargets), LineMeaning::Source(t)) => if names_path(t) {
                Some(Expect::InTargets)
            } else {
                None
            },
            (Some(Expect::InTargets), LineMeaning::End) => Some(Expect::Outside),
            _ => None,
        }
    }
}

/// A file made only of source lines and complete, well-formed blocks.
pub open spec fn well_formed(ls: Seq<Seq<char>>) -> bool {
    expect_after(ls) == Some(Expect::Outside)
}

/// How many blocks the lines `ls` complete: each inline `then-change` and
/// each `end-change` that closes a block counts one.
pub open spec fn block_count(ls: Seq<Seq<char>>) -> nat
    decreases ls.len(),
{
    if ls.len() == 0 {
        0
    } else {
        block_count(ls.drop_last()) + match (expect_after(ls.drop_last()), meaning(ls.last())) {
            (Some(Expect::InBody), LineMeaning::Inline(_)) => 1nat,
            (Some(Expect::InTargets), LineMeaning::End) => 1nat,
            _ => 0nat,
        }
    }
}

proof fn lemma_well_formed_prefix(path: Seq<char>, ls: Seq<Seq<char>>)
    requires
        expect_after(ls) is Some,
    ensures
        parse_lines(path, ls).diags.len() == 0,
        parse_lines(path, ls).blocks.len() == block_count(ls),
        match expect_after(ls)->0 {
            Expect::Outside => parse_lines(path, ls).phase is Idle,
            Expect::InBody => parse_lines(path, ls).phase is Opened,
            Expect::InTargets => parse_lines(path, ls).phase is Collecting,
        },
    decreases ls.len(),
{
    if ls.len() > 0 {
        lemma_well_formed_prefix(path, ls.drop_last());
    }
}

/// A file made of well-formed blocks parses without a structural diagnostic,
/// into one block for each block it holds.
pub proof fn lemma_well_formed_parses_cleanly(path: Seq<char>, text: Seq<char>)
    requires
        well_formed(lines_of(text)),
    ensures
        parse_diags(path, text).len() == 0,
        parse_blocks(path, text).len() == block_count(lines_of(text)),
{
    lemma_well_formed_prefix(path, lines_of(text));
}

proof fn lemma_no_if_keyword(t: Seq<char>)
    requires
        t.len() > 0,
        t[0] != 'i',
        !is_comment_char(t[0]),
    ensures
        !keyword_opens(t, if_change_kw()),
{
    if find(t, if_change_kw()) is Some {
        lemma_find_from_some(t, if_change_kw(), 0);
        let j = find(t, if_change_kw())->0;
        if j == 0 {
            assert(t.subrange(0, 9)[0] == t[0]);
        } else {
            assert(t.take(j)[0] == t[0]);
        }
    }
}

/// The bare marker texts classify as their names say: `if-change`,
/// `then-change`, `end-change`, and `then-change <path>` naming `path`.
pub proof fn lemma_marker_texts(p: Seq<char>)
    requires
        p.len() > 0,
        !is_ws(p[0]),
        !is_comment_char(p.last()),
        then_change_kw().len() + 1 + p.len() <= usize::MAX,
    ensures
        meaning(if_change_kw()) == LineMeaning::IfChange,
        meaning(then_change_kw()) == LineMeaning::Block,
        meaning(end_change_kw()) == LineMeaning::End,
        meaning(then_change_kw() + seq![' '] + p) == LineMeaning::Inline(p),
{
    let ik = if_change_kw();
    let tk = then_change_kw();
    let ek = end_change_kw();
    // if-change
    assert(ik.subrange(0, 9) =~= ik);
    assert(find(ik, ik) == Some(0int));
    assert(ik.take(0) =~= Seq::<char>::empty());
    assert(ik.skip(9) =~= Seq::<char>::empty());
    assert(marker_of(ik) == Marker::IfChangeStart);
    // then-change
    lemma_no_if_keyword(tk);
    assert(tk.subrange(0, 11) =~= tk);
    assert(find(tk, tk) == Some(0int));
    assert(tk.take(0) =~= Seq::<char>::empty());
    assert(tk.skip(11) =~= Seq::<char>::empty());
    assert(marker_of(tk) == Marker::ThenChangeBlockStart);
    // end-change
    lemma_no_if_keyword(ek);
    assert(find(ek, tk) is None);
    assert(ek.subrange(0, 10) =~= ek);
    assert(find(ek, ek) == Some(0int));
    assert(ek.take(0) =~= Seq::<char>::empty());
    assert(marker_of(ek) == Marker::EndChange);
    // then-change <path>
    let t = tk + seq![' '] + p;
    lemma_no_if_keyword(t);
    assert(t.subrange(0, 11) =~= tk);
    assert(find(t, tk) == Some(0int));
    assert(t.take(0) =~= Seq::<char>::empty());
    let rest = seq![' '] + p;
    assert(t.skip(11) =~= rest);
    assert(trim_end_comment(rest) == rest);
    assert(rest.drop_first() =~= p);
    assert(trim_start_ws(rest) == trim_start_ws(p));
    assert(trim_start_ws(p) == p);
    let e: int = 11 + rest.len() as int;
    assert(then_change_marker(t) == Some(
        Marker::ThenChangeInline((e - p.len()) as usize, e as usize),
    ));
    assert(t.subrange(e - p.len(), e) =~= p);
}

/// A marker line in any comment style at any indentation classifies as the
/// bare marker text does: the opener `x` and closer `y` are punctuation and
/// whitespace only.
pub proof fn lemma_marker_lines(x: Seq<char>, y: Seq<char>, p: Seq<char>)
    requires
        all_comment(x),
        all_comment(y),
        p.len() > 0,
        !is_ws(p[0]),
        !is_comment_char(p[0]),
        !is_comment_char(p.last()),
        x.len() + then_change_kw().len() + 1 + p.len() + y.len() <= usize::MAX,
    ensures
        meaning(decorated(x, if_change_kw(), y)) == LineMeaning::IfChange,
        meaning(decorated(x, then_change_kw(), y)) == LineMeaning::Block,
        meaning(decorated(x, end_change_kw(), y)) == LineMeaning::End,
        meaning(decorated(x, then_change_kw() + seq![' '] + p, y)) == LineMeaning::Inline(p),
{
    lemma_marker_texts(p);
    lemma_decorated_meaning(x, if_change_kw(), y);
    lemma_decorated_meaning(x, then_change_kw(), y);
    lemma_decorated_meaning(x, end_change_kw(), y);
    let t = then_change_kw() + seq![' '] + p;
    assert(t.last() == p.last());
    lemma_decorated_meaning(x, t, y);
}

} // verus!
