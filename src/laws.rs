//! Properties of the library as a whole, stated over the models of the
//! parser, the diff and the correlation, and proved.
use vstd::prelude::*;
use crate::correlate::{
    changed_entry, dangles, findings, obligation_diags, report, touched, SourceView,
};
use crate::diagnostic::{diag_cmp, diag_le, insert_sorted, line_cmp, sort_diags, text_cmp, DiagnosticView};
use crate::diff::{distinct_paths, lemma_path_index, path_index, ChangedView};

verus! {

/// `s` is in output order.
pub open spec fn sorted(s: Seq<DiagnosticView>) -> bool {
    forall|i: int| 0 <= i < s.len() - 1 ==> diag_le(#[trigger] s[i], s[i + 1])
}

proof fn lemma_text_cmp_antisymmetric(a: Seq<char>, b: Seq<char>)
    ensures
        text_cmp(a, b) == -text_cmp(b, a),
    decreases a.len(),
{
    if a.len() > 0 && b.len() > 0 && (a[0] as u32) == (b[0] as u32) {
        lemma_text_cmp_antisymmetric(a.drop_first(), b.drop_first());
    }
}

proof fn lemma_diag_cmp_antisymmetric(a: DiagnosticView, b: DiagnosticView)
    ensures
        diag_cmp(a, b) == -diag_cmp(b, a),
{
    lemma_text_cmp_antisymmetric(a.path, b.path);
    lemma_text_cmp_antisymmetric(a.message, b.message);
    assert(line_cmp(a.start_line, b.start_line) == -line_cmp(b.start_line, a.start_line));
    assert(line_cmp(a.end_line, b.end_line) == -line_cmp(b.end_line, a.end_line));
}

proof fn lemma_insert_sorted(s: Seq<DiagnosticView>, d: DiagnosticView)
    requires
        sorted(s),
    ensures
        sorted(insert_sorted(s, d)),
        insert_sorted(s, d).len() == s.len() + 1,
        insert_sorted(s, d).last() == d || (s.len() > 0 && insert_sorted(s, d).last() == s.last()),
    decreases s.len(),
{
    if s.len() == 0 || diag_le(s.last(), d) {
        let r = s.push(d);
        assert forall|i: int| 0 <= i < r.len() - 1 implies diag_le(#[trigger] r[i], r[i + 1]) by {
            if i < s.len() - 1 {
                assert(r[i] == s[i] && r[i + 1] == s[i + 1]);
            }
        }
    } else {
        let t = s.drop_last();
        assert(sorted(t)) by {
            assert forall|i: int| 0 <= i < t.len() - 1 implies diag_le(#[trigger] t[i], t[i + 1]) by {
                assert(t[i] == s[i] && t[i + 1] == s[i + 1]);
            }
        }
        lemma_insert_sorted(t, d);
        lemma_diag_cmp_antisymmetric(s.last(), d);
        let u = insert_sorted(t, d);
        let r = u.push(s.last());
        if u.last() != d {
            assert(s[s.len() - 2] == t.last());
            assert(diag_le(s[s.len() - 2], s[s.len() - 1]));
        }
        assert forall|i: int| 0 <= i < r.len() - 1 implies diag_le(#[trigger] r[i], r[i + 1]) by {
            if i < u.len() - 1 {
                assert(r[i] == u[i] && r[i + 1] == u[i + 1]);
            } else {
                assert(r[i] == u.last());
            }
        }
    }
}

/// Diagnostics put in output order are sorted by path, then start line, then
/// end line, then message.
pub proof fn lemma_sort_diags_sorted(s: Seq<DiagnosticView>)
    ensures
        sorted(sort_diags(s)),
        sort_diags(s).len() == s.len(),
    decreases s.len(),
{
    if s.len() > 0 {
        lemma_sort_diags_sorted(s.drop_last());
        lemma_insert_sorted(sort_diags(s.drop_last()), s.last());
    }
}

/// Running the check twice on the same change and the same files yields the
/// same diagnostics in the same order: the report depends on nothing else,
/// and it is always sorted.
pub proof fn lemma_report_repeatable(
    envelope: Seq<DiagnosticView>,
    cs: Seq<ChangedView>,
    fs: Seq<SourceView>,
    envelope2: Seq<DiagnosticView>,
    cs2: Seq<ChangedView>,
    fs2: Seq<SourceView>,
)
    requires
        envelope == envelope2,
        cs == cs2,
        fs == fs2,
    ensures
        report(envelope, cs, fs) == report(envelope2, cs2, fs2),
        sorted(report(envelope, cs, fs)),
{
    lemma_sort_diags_sorted(envelope + findings(cs, fs));
}

/// When two changed files each have a touched block that names the other,
/// neither obligation between them is reported.
pub proof fn lemma_symmetric_pair_met(
    cs: Seq<ChangedView>,
    fs: Seq<SourceView>,
    ka: int,
    ia: int,
    kb: int,
    ib: int,
)
    requires
        distinct_paths(cs),
        0 <= ka < cs.len(),
        0 <= kb < cs.len(),
        changed_entry(cs, fs, cs[ka].path) matches Some(ba) && 0 <= ia < ba.len() && touched(
            cs[ka].hunks,
            ba[ia],
        ) && ba[ia].lists(cs[kb].path),
        changed_entry(cs, fs, cs[kb].path) matches Some(bb) && 0 <= ib < bb.len() && touched(
            cs[kb].hunks,
            bb[ib],
        ) && bb[ib].lists(cs[ka].path),
    ensures
        obligation_diags(
            cs,
            fs,
            cs[ka].path,
            changed_entry(cs, fs, cs[ka].path)->0[ia],
            cs[kb].path,
        ) == Seq::<DiagnosticView>::empty(),
        obligation_diags(
            cs,
            fs,
            cs[kb].path,
            changed_entry(cs, fs, cs[kb].path)->0[ib],
            cs[ka].path,
        ) == Seq::<DiagnosticView>::empty(),
{
    lemma_path_index(cs, cs[ka].path, 0);
    lemma_path_index(cs, cs[kb].path, 0);
    assert(path_index(cs, cs[ka].path) == Some(ka));
    assert(path_index(cs, cs[kb].path) == Some(kb));
    let bb = changed_entry(cs, fs, cs[kb].path)->0;
    let ba = changed_entry(cs, fs, cs[ka].path)->0;
    assert(touched(cs[kb].hunks, bb[ib]) && bb[ib].lists(cs[ka].path));
    assert(touched(cs[ka].hunks, ba[ia]) && ba[ia].lists(cs[kb].path));
}

/// A touched block of a changed file that names its own file among its
/// targets gets no diagnostic for that entry.
pub proof fn lemma_self_reference_silent(cs: Seq<ChangedView>, fs: Seq<SourceView>, k: int, i: int)
    requires
        distinct_paths(cs),
        0 <= k < cs.len(),
        changed_entry(cs, fs, cs[k].path) matches Some(bs) && 0 <= i < bs.len() && touched(
            cs[k].hunks,
            bs[i],
        ) && bs[i].lists(cs[k].path),
    ensures
        obligation_diags(
            cs,
            fs,
            cs[k].path,
            changed_entry(cs, fs, cs[k].path)->0[i],
            cs[k].path,
        ) == Seq::<DiagnosticView>::empty(),
        !dangles(cs, fs, cs[k].path, cs[k].path),
{
    lemma_symmetric_pair_met(cs, fs, k, i, k, i);
}

} // verus!
