//! The diagnostic renderer: turns a directive tree into reports, one
//! per `Replace` or `Highlight` found, without touching the source.
//!
//! The traversal is the rewrite engine's: children in order, then
//! field-keyed children, then a node standing in a `value` entry. The
//! collected reports are then brought into ascending span order, as the
//! rewrite engine brings its edits, so that reports come out in document
//! order whatever order the query emitted the directives in.

use vstd::prelude::*;

use crate::directive::{
    dir_model, dir_model_fields, dir_model_list, lemma_dir_model_fields_index,
    lemma_dir_model_list_index, DirModel, DirectiveNode, SlotModel, ValueSlot,
};

verus! {

/// One diagnostic: a byte span of the original source and the message
/// reported for it.
#[derive(Clone, Debug, PartialEq, Eq)]
pub struct Report {
    /// Start of the reported span.
    pub start: usize,
    /// End of the reported span.
    pub end: usize,
    /// Whether the span will be replaced by a rewrite of the same tree
    /// (a `Replace` directive) or is only annotated (a `Highlight`).
    pub replaces: bool,
    /// The message: a highlight's own, or the fixed replacement note.
    pub message: Vec<u8>,
}

/// The mathematical shape of a report.
pub struct ReportModel {
    pub start: int,
    pub end: int,
    pub replaces: bool,
    pub message: Seq<u8>,
}

pub open spec fn report_model(r: Report) -> ReportModel {
    ReportModel { start: r.start as int, end: r.end as int, replaces: r.replaces, message: r.message@ }
}

pub open spec fn report_models(s: Seq<Report>) -> Seq<ReportModel> {
    s.map_values(|r: Report| report_model(r))
}

/// The bytes of `"will be replaced"`, the fixed message a `Replace`
/// directive is reported with.
pub open spec fn replaced_note() -> Seq<u8> {
    seq![119u8, 105u8, 108u8, 108u8, 32u8, 98u8, 101u8, 32u8, 114u8, 101u8, 112u8, 108u8, 97u8, 99u8, 101u8, 100u8]
}

/// The bytes of `"will be replaced"`.
pub fn replaced_note_vec() -> (r: Vec<u8>)
    ensures
        r@ == replaced_note(),
{
    let mut v: Vec<u8> = Vec::new();
    v.push(119);
    v.push(105);
    v.push(108);
    v.push(108);
    v.push(32);
    v.push(98);
    v.push(101);
    v.push(32);
    v.push(114);
    v.push(101);
    v.push(112);
    v.push(108);
    v.push(97);
    v.push(99);
    v.push(101);
    v.push(100);
    proof { assert(v@ =~= replaced_note()); }
    v
}

/// The reports a directive tree yields, in traversal order.
pub open spec fn reports_of(d: DirModel) -> Seq<ReportModel>
    decreases d,
{
    match d {
        DirModel::Replace { start, end, .. } => seq![
            ReportModel { start: start, end: end, replaces: true, message: replaced_note() },
        ],
        DirModel::Highlight { start, end, message } => seq![
            ReportModel { start: start, end: end, replaces: false, message: message },
        ],
        DirModel::Passthrough { children, fields, value, .. } => {
            let from_children = match children {
                Some(cs) => reports_of_list(cs),
                None => Seq::empty(),
            };
            let from_fields = reports_of_fields(fields);
            let from_value = match value {
                Some(SlotModel::Node(s1)) => if 0 < s1.len() {
                    reports_of(s1[0])
                } else {
                    Seq::empty()
                },
                _ => Seq::empty(),
            };
            from_children + from_fields + from_value
        },
    }
}

pub open spec fn reports_of_list(cs: Seq<DirModel>) -> Seq<ReportModel>
    decreases cs,
{
    if cs.len() == 0 {
        Seq::empty()
    } else {
        reports_of(cs[0]) + reports_of_list(cs.drop_first())
    }
}

pub open spec fn reports_of_fields(fs: Seq<(Seq<u8>, DirModel)>) -> Seq<ReportModel>
    decreases fs,
{
    if fs.len() == 0 {
        Seq::empty()
    } else {
        reports_of(fs[0].1) + reports_of_fields(fs.drop_first())
    }
}

proof fn lemma_reports_of_list_concat(a: Seq<DirModel>, b: Seq<DirModel>)
    ensures
        reports_of_list(a + b) == reports_of_list(a) + reports_of_list(b),
    decreases a,
{
    if a.len() == 0 {
        assert(a + b =~= b);
        assert(reports_of_list(a) + reports_of_list(b) =~= reports_of_list(b));
    } else {
        assert((a + b)[0] == a[0]);
        assert((a + b).drop_first() =~= a.drop_first() + b);
        lemma_reports_of_list_concat(a.drop_first(), b);
        assert(reports_of(a[0]) + (reports_of_list(a.drop_first()) + reports_of_list(b))
            =~= (reports_of(a[0]) + reports_of_list(a.drop_first())) + reports_of_list(b));
    }
}

proof fn lemma_reports_of_fields_concat(a: Seq<(Seq<u8>, DirModel)>, b: Seq<(Seq<u8>, DirModel)>)
    ensures
        reports_of_fields(a + b) == reports_of_fields(a) + reports_of_fields(b),
    decreases a,
{
    if a.len() == 0 {
        assert(a + b =~= b);
        assert(reports_of_fields(a) + reports_of_fields(b) =~= reports_of_fields(b));
    } else {
        assert((a + b)[0] == a[0]);
        assert((a + b).drop_first() =~= a.drop_first() + b);
        lemma_reports_of_fields_concat(a.drop_first(), b);
        assert(reports_of(a[0].1) + (reports_of_fields(a.drop_first()) + reports_of_fields(b))
            =~= (reports_of(a[0].1) + reports_of_fields(a.drop_first())) + reports_of_fields(
            b,
        ));
    }
}

/// Collects the reports of the subtree `d`, appending them to `acc`.
#[verifier::loop_isolation(false)]
fn reports_into(d: &DirectiveNode, acc: &mut Vec<Report>)
    ensures
        report_models(final(acc)@) == report_models(old(acc)@) + reports_of(dir_model(*d)),
    decreases *d,
{
    let ghost acc0 = report_models(old(acc)@);
    match d {
        DirectiveNode::Replace { start, end, .. } => {
            acc.push(Report {
                start: *start,
                end: *end,
                replaces: true,
                message: replaced_note_vec(),
            });
            proof {
                assert(report_models(acc@) =~= acc0 + reports_of(dir_model(*d)));
            }
        },
        DirectiveNode::Highlight { start, end, message } => {
            acc.push(Report {
                start: *start,
                end: *end,
                replaces: false,
                message: crate::convert::bytes_clone(message),
            });
            proof {
                assert(report_models(acc@) =~= acc0 + reports_of(dir_model(*d)));
            }
        },
        DirectiveNode::Passthrough { kind, start, end, children, fields, value } => {
            let ghost dm = dir_model(*d);
            proof {
                assert(dm == DirModel::Passthrough {
                    kind: kind@,
                    start: *start as int,
                    end: *end as int,
                    children: match children {
                        Some(cs) => Some(dir_model_list(cs@)),
                        None => None,
                    },
                    fields: dir_model_fields(fields@),
                    value: match value {
                        Some(ValueSlot::Text(s)) => Some(SlotModel::Text(s@)),
                        Some(ValueSlot::Node(b)) => Some(SlotModel::Node(seq![dir_model(**b)])),
                        None => None,
                    },
                });
            }
            match children {
                Some(cs) => {
                    let ghost cm = dir_model_list(cs@);
                    proof {
                        lemma_dir_model_list_index(cs@);
                        assert(cm.take(0) =~= Seq::<DirModel>::empty());
                        assert(report_models(acc@) =~= acc0 + reports_of_list(cm.take(0)));
                    }
                    let mut i: usize = 0;
                    while i < cs.len()
                        invariant
                            0 <= i <= cs@.len(),
                            report_models(acc@) == acc0 + reports_of_list(cm.take(i as int)),
                        decreases cs@.len() - i,
                    {
                        proof {
                            assert(decreases_to!(*d => cs@[i as int]));
                        }
                        reports_into(&cs[i], acc);
                        proof {
                            assert(cm.take(i as int + 1) =~= cm.take(i as int) + seq![
                                cm[i as int],
                            ]);
                            lemma_reports_of_list_concat(cm.take(i as int), seq![cm[i as int]]);
                            assert(seq![cm[i as int]].drop_first() =~= Seq::<DirModel>::empty());
                            assert(reports_of_list(seq![cm[i as int]]) =~= reports_of(
                                cm[i as int],
                            ));
                            assert(acc0 + (reports_of_list(cm.take(i as int)) + reports_of(
                                cm[i as int],
                            )) =~= (acc0 + reports_of_list(cm.take(i as int))) + reports_of(
                                cm[i as int],
                            ));
                        }
                        i = i + 1;
                    }
                    proof {
                        assert(cm.take(i as int) =~= cm);
                    }
                },
                None => {},
            }
            let ghost from_children = match dm {
                DirModel::Passthrough { children: cmo, .. } => match cmo {
                    Some(cm) => reports_of_list(cm),
                    None => Seq::<ReportModel>::empty(),
                },
                _ => Seq::<ReportModel>::empty(),
            };
            proof {
                if children is None {
                    assert(report_models(acc@) =~= acc0 + from_children);
                }
            }
            let ghost fm = dir_model_fields(fields@);
            proof {
                lemma_dir_model_fields_index(fields@);
                assert(fm.take(0) =~= Seq::<(Seq<u8>, DirModel)>::empty());
                assert(acc0 + from_children + reports_of_fields(fm.take(0)) =~= acc0
                    + from_children);
            }
            let mut i: usize = 0;
            while i < fields.len()
                invariant
                    0 <= i <= fields@.len(),
                    report_models(acc@) == acc0 + from_children + reports_of_fields(
                        fm.take(i as int),
                    ),
                decreases fields@.len() - i,
            {
                proof {
                    assert(decreases_to!(*d => fields@[i as int].1));
                }
                reports_into(&fields[i].1, acc);
                proof {
                    assert(fm.take(i as int + 1) =~= fm.take(i as int) + seq![fm[i as int]]);
                    lemma_reports_of_fields_concat(fm.take(i as int), seq![fm[i as int]]);
                    assert(seq![fm[i as int]].drop_first() =~= Seq::<(Seq<u8>, DirModel)>::empty());
                    assert(reports_of_fields(seq![fm[i as int]]) =~= reports_of(fm[i as int].1));
                    assert((acc0 + from_children + reports_of_fields(fm.take(i as int)))
                        + reports_of(fm[i as int].1) =~= acc0 + from_children + (
                    reports_of_fields(fm.take(i as int)) + reports_of(fm[i as int].1)));
                }
                i = i + 1;
            }
            proof {
                assert(fm.take(i as int) =~= fm);
            }
            match value {
                Some(ValueSlot::Node(b)) => {
                    proof {
                        assert(decreases_to!(*d => **b));
                    }
                    reports_into(b, acc);
                    proof {
                        assert(seq![dir_model(**b)][0] == dir_model(**b));
                        assert((acc0 + from_children + reports_of_fields(fm)) + reports_of(
                            dir_model(**b),
                        ) =~= acc0 + (from_children + reports_of_fields(fm) + reports_of(
                            dir_model(**b),
                        )));
                        assert(reports_of(dm) =~= from_children + reports_of_fields(fm)
                            + reports_of(dir_model(**b)));
                    }
                },
                _ => {
                    proof {
                        assert(reports_of(dm) =~= from_children + reports_of_fields(fm) + Seq::<
                            ReportModel,
                        >::empty());
                        assert(acc0 + from_children + reports_of_fields(fm) =~= acc0 + (
                        from_children + reports_of_fields(fm) + Seq::<ReportModel>::empty()));
                    }
                },
            }
        },
    }
}

/// Inserting a report into an already sorted run: it goes before the
/// first report whose start exceeds its own, so that reports with equal
/// starts keep their traversal order.
pub open spec fn insert_report(e: ReportModel, s: Seq<ReportModel>) -> Seq<ReportModel>
    decreases s,
{
    if s.len() == 0 {
        seq![e]
    } else if e.start < s[0].start {
        seq![e] + s
    } else {
        seq![s[0]] + insert_report(e, s.drop_first())
    }
}

pub open spec fn sort_reports_from(acc: Seq<ReportModel>, s: Seq<ReportModel>) -> Seq<ReportModel>
    decreases s,
{
    if s.len() == 0 {
        acc
    } else {
        sort_reports_from(insert_report(s[0], acc), s.drop_first())
    }
}

/// The collected reports brought into ascending start-offset order by
/// insertion, stable for equal starts.
pub open spec fn sort_reports(s: Seq<ReportModel>) -> Seq<ReportModel> {
    sort_reports_from(Seq::empty(), s)
}

/// Inserts a report into a sorted vector, before the first report whose
/// start exceeds its own.
#[verifier::loop_isolation(false)]
fn insert_sorted_report(out: &mut Vec<Report>, e: Report)
    ensures
        report_models(final(out)@) == insert_report(report_model(e), report_models(old(out)@)),
{
    let ghost m = report_models(old(out)@);
    let ghost em = report_model(e);
    proof {
        assert(m.skip(0) =~= m);
        assert(m.take(0) =~= Seq::<ReportModel>::empty());
    }
    let mut i: usize = 0;
    while i < out.len()
        invariant
            0 <= i <= out@.len(),
            out@.len() == m.len(),
            out@ == old(out)@,
            insert_report(em, m) == m.take(i as int) + insert_report(em, m.skip(i as int)),
        decreases out@.len() - i,
    {
        proof {
            assert(m.skip(i as int)[0] == m[i as int]);
            assert(m.skip(i as int).drop_first() =~= m.skip(i as int + 1));
            assert(m[i as int] == report_model(out@[i as int]));
        }
        if out[i].start > e.start {
            out.insert(i, e);
            proof {
                assert(insert_report(em, m.skip(i as int)) == seq![em] + m.skip(i as int));
                assert(report_models(out@) =~= m.take(i as int) + (seq![em] + m.skip(i as int)));
            }
            return;
        }
        proof {
            assert(insert_report(em, m.skip(i as int)) == seq![m[i as int]] + insert_report(
                em,
                m.skip(i as int + 1),
            ));
            assert(m.take(i as int + 1) =~= m.take(i as int) + seq![m[i as int]]);
            assert(m.take(i as int) + (seq![m[i as int]] + insert_report(em, m.skip(i as int + 1)))
                =~= m.take(i as int + 1) + insert_report(em, m.skip(i as int + 1)));
        }
        i = i + 1;
    }
    proof {
        assert(m.skip(i as int) =~= Seq::<ReportModel>::empty());
        assert(m.take(i as int) =~= m);
    }
    out.push(e);
    proof {
        assert(report_models(out@) =~= m + seq![em]);
        assert(m + seq![em] =~= m + insert_report(em, Seq::empty()));
    }
}

/// Sorts the collected reports by ascending start offset, keeping the
/// traversal order of reports with equal starts.
#[verifier::loop_isolation(false)]
fn sort_reports_vec(rs: Vec<Report>) -> (r: Vec<Report>)
    ensures
        report_models(r@) == sort_reports(report_models(rs@)),
{
    let ghost orig = report_models(rs@);
    let mut rest = rs;
    let mut out: Vec<Report> = Vec::new();
    proof {
        assert(report_models(out@) =~= Seq::<ReportModel>::empty());
    }
    while rest.len() > 0
        invariant
            sort_reports_from(report_models(out@), report_models(rest@)) == sort_reports_from(
                Seq::empty(),
                orig,
            ),
        decreases rest@.len(),
    {
        let ghost rm = report_models(rest@);
        let e = rest.remove(0);
        proof {
            assert(report_models(rest@) =~= rm.drop_first());
            assert(rm[0] == report_model(e));
        }
        insert_sorted_report(&mut out, e);
    }
    proof {
        assert(report_models(rest@).len() == 0);
    }
    out
}

/// The reports of a directive tree, in ascending span order (stable for
/// equal starts): every `Replace` with the fixed replacement note, every
/// `Highlight` with its own message.
pub fn reports(root: &DirectiveNode) -> (r: Vec<Report>)
    ensures
        report_models(r@) == sort_reports(reports_of(dir_model(*root))),
{
    let mut acc: Vec<Report> = Vec::new();
    proof {
        assert(report_models(acc@) =~= Seq::<ReportModel>::empty());
    }
    reports_into(root, &mut acc);
    proof {
        assert(Seq::<ReportModel>::empty() + reports_of(dir_model(*root)) =~= reports_of(
            dir_model(*root),
        ));
    }
    sort_reports_vec(acc)
}

} // verus!
