//! The rewrite engine: applies every `Replace` directive found anywhere
//! in a directive tree onto the original source bytes.
//!
//! The engine first collects one edit per `Replace` — its original span
//! and the replacement text resolved once from the original buffer —
//! walking the tree in document order: children, then field-keyed
//! children, then a node standing in a `value` entry. A `Replace` is a
//! terminal directive: its entries are never walked for further
//! replacements. The collected edits are then brought into ascending
//! original-offset order, checked to be within bounds and free of
//! overlap, and spliced into the output in one pass. A span out of
//! bounds, or two edits that overlap, is an offset error, never a
//! silently corrupted output.

use vstd::prelude::*;

use crate::directive::{
    dir_model, dir_model_entries, dir_model_fields, dir_model_list,
    lemma_dir_model_entries_index, lemma_dir_model_fields_index, lemma_dir_model_list_index,
    DirModel, DirectiveNode, EntryModel, ReplaceEntry, SlotModel, ValueSlot,
};

verus! {

/// A span's arithmetic left the original buffer, or two replacements
/// overlap.
#[derive(Clone, Copy, PartialEq, Eq, Debug)]
pub struct OffsetError;

/// One pending edit: an original-buffer span and the text that replaces
/// it.
#[derive(Clone, Debug, PartialEq, Eq)]
pub struct Edit {
    /// Start of the replaced span in the original buffer.
    pub start: usize,
    /// End of the replaced span in the original buffer.
    pub end: usize,
    /// The resolved replacement text.
    pub text: Vec<u8>,
}

/// The mathematical shape of an edit.
pub struct EditModel {
    pub start: int,
    pub end: int,
    pub text: Seq<u8>,
}

pub open spec fn edit_model(e: Edit) -> EditModel {
    EditModel { start: e.start as int, end: e.end as int, text: e.text@ }
}

pub open spec fn edit_models(s: Seq<Edit>) -> Seq<EditModel> {
    s.map_values(|e: Edit| edit_model(e))
}

/// The span any directive node carries.
pub open spec fn dir_start(d: DirModel) -> int {
    match d {
        DirModel::Passthrough { start, .. } => start,
        DirModel::Replace { start, .. } => start,
        DirModel::Highlight { start, .. } => start,
    }
}

pub open spec fn dir_end(d: DirModel) -> int {
    match d {
        DirModel::Passthrough { end, .. } => end,
        DirModel::Replace { end, .. } => end,
        DirModel::Highlight { end, .. } => end,
    }
}

/// The text one replace entry contributes: a literal as is, a node
/// reference the verbatim original slice of its span.
pub open spec fn entry_text(e: EntryModel, src: Seq<u8>) -> Seq<u8> {
    match e {
        EntryModel::Lit(s) => s,
        EntryModel::Node(s1) => src.subrange(dir_start(s1[0]), dir_end(s1[0])),
    }
}

/// Whether one replace entry's span stays inside the buffer.
pub open spec fn entry_ok(e: EntryModel, len: int) -> bool {
    match e {
        EntryModel::Lit(_) => true,
        EntryModel::Node(s1) => 0 <= dir_start(s1[0]) <= dir_end(s1[0]) <= len,
    }
}

pub open spec fn entries_ok(es: Seq<EntryModel>, len: int) -> bool {
    forall|i: int| 0 <= i < es.len() ==> entry_ok(#[trigger] es[i], len)
}

/// The concatenation of the texts of a `Replace`'s entries.
pub open spec fn resolve_spec(es: Seq<EntryModel>, src: Seq<u8>) -> Seq<u8>
    decreases es,
{
    if es.len() == 0 {
        Seq::empty()
    } else {
        entry_text(es[0], src) + resolve_spec(es.drop_first(), src)
    }
}

/// The edits a directive tree holds, in traversal order: children in
/// order, then field-keyed children, then a node in the `value` slot.
pub open spec fn edits_of(d: DirModel, src: Seq<u8>) -> Seq<EditModel>
    decreases d,
{
    match d {
        DirModel::Replace { start, end, entries } => seq![
            EditModel { start: start, end: end, text: resolve_spec(entries, src) },
        ],
        DirModel::Highlight { .. } => Seq::empty(),
        DirModel::Passthrough { children, fields, value, .. } => {
            let from_children = match children {
                Some(cs) => edits_of_list(cs, src),
                None => Seq::empty(),
            };
            let from_fields = edits_of_fields(fields, src);
            let from_value = match value {
                Some(SlotModel::Node(s1)) => if 0 < s1.len() {
                    edits_of(s1[0], src)
                } else {
                    Seq::empty()
                },
                _ => Seq::empty(),
            };
            from_children + from_fields + from_value
        },
    }
}

pub open spec fn edits_of_list(cs: Seq<DirModel>, src: Seq<u8>) -> Seq<EditModel>
    decreases cs,
{
    if cs.len() == 0 {
        Seq::empty()
    } else {
        edits_of(cs[0], src) + edits_of_list(cs.drop_first(), src)
    }
}

pub open spec fn edits_of_fields(fs: Seq<(Seq<u8>, DirModel)>, src: Seq<u8>) -> Seq<EditModel>
    decreases fs,
{
    if fs.len() == 0 {
        Seq::empty()
    } else {
        edits_of(fs[0].1, src) + edits_of_fields(fs.drop_first(), src)
    }
}

/// Whether every `Replace` in the tree has entries whose spans stay
/// inside the buffer, so that each edit's text can be resolved.
pub open spec fn edits_wf(d: DirModel, len: int) -> bool
    decreases d,
{
    match d {
        DirModel::Replace { entries, .. } => entries_ok(entries, len),
        DirModel::Highlight { .. } => true,
        DirModel::Passthrough { children, fields, value, .. } => {
            &&& match children {
                Some(cs) => edits_wf_list(cs, len),
                None => true,
            }
            &&& edits_wf_fields(fields, len)
            &&& match value {
                Some(SlotModel::Node(s1)) => 0 < s1.len() ==> edits_wf(s1[0], len),
                _ => true,
            }
        },
    }
}

pub open spec fn edits_wf_list(cs: Seq<DirModel>, len: int) -> bool
    decreases cs,
{
    cs.len() == 0 || (edits_wf(cs[0], len) && edits_wf_list(cs.drop_first(), len))
}

pub open spec fn edits_wf_fields(fs: Seq<(Seq<u8>, DirModel)>, len: int) -> bool
    decreases fs,
{
    fs.len() == 0 || (edits_wf(fs[0].1, len) && edits_wf_fields(fs.drop_first(), len))
}

pub proof fn lemma_edits_wf_list_index(cs: Seq<DirModel>, len: int)
    ensures
        edits_wf_list(cs, len) <==> (forall|i: int|
            0 <= i < cs.len() ==> edits_wf(#[trigger] cs[i], len)),
    decreases cs,
{
    if cs.len() > 0 {
        lemma_edits_wf_list_index(cs.drop_first(), len);
        assert forall|i: int| 1 <= i < cs.len() implies cs.drop_first()[i - 1] == cs[i] by {}
        if forall|i: int| 0 <= i < cs.len() ==> edits_wf(#[trigger] cs[i], len) {
            assert(edits_wf(cs[0], len));
            assert(forall|i: int|
                0 <= i < cs.drop_first().len() ==> edits_wf(#[trigger] cs.drop_first()[i], len));
        }
    }
}

pub proof fn lemma_edits_wf_fields_index(fs: Seq<(Seq<u8>, DirModel)>, len: int)
    ensures
        edits_wf_fields(fs, len) <==> (forall|i: int|
            0 <= i < fs.len() ==> edits_wf(#[trigger] fs[i].1, len)),
    decreases fs,
{
    if fs.len() > 0 {
        lemma_edits_wf_fields_index(fs.drop_first(), len);
        assert forall|i: int| 1 <= i < fs.len() implies fs.drop_first()[i - 1] == fs[i] by {}
        if forall|i: int| 0 <= i < fs.len() ==> edits_wf(#[trigger] fs[i].1, len) {
            assert(edits_wf(fs[0].1, len));
            assert(forall|i: int|
                0 <= i < fs.drop_first().len() ==> edits_wf(
                    #[trigger] fs.drop_first()[i].1,
                    len,
                ));
        }
    }
}

pub proof fn lemma_edits_of_list_concat(a: Seq<DirModel>, b: Seq<DirModel>, src: Seq<u8>)
    ensures
        edits_of_list(a + b, src) == edits_of_list(a, src) + edits_of_list(b, src),
    decreases a,
{
    if a.len() == 0 {
        assert(a + b =~= b);
        assert(edits_of_list(a, src) + edits_of_list(b, src) =~= edits_of_list(b, src));
    } else {
        assert((a + b)[0] == a[0]);
        assert((a + b).drop_first() =~= a.drop_first() + b);
        lemma_edits_of_list_concat(a.drop_first(), b, src);
        assert(edits_of(a[0], src) + (edits_of_list(a.drop_first(), src) + edits_of_list(b, src))
            =~= (edits_of(a[0], src) + edits_of_list(a.drop_first(), src)) + edits_of_list(
            b,
            src,
        ));
    }
}

pub proof fn lemma_edits_of_fields_concat(
    a: Seq<(Seq<u8>, DirModel)>,
    b: Seq<(Seq<u8>, DirModel)>,
    src: Seq<u8>,
)
    ensures
        edits_of_fields(a + b, src) == edits_of_fields(a, src) + edits_of_fields(b, src),
    decreases a,
{
    if a.len() == 0 {
        assert(a + b =~= b);
        assert(edits_of_fields(a, src) + edits_of_fields(b, src) =~= edits_of_fields(b, src));
    } else {
        assert((a + b)[0] == a[0]);
        assert((a + b).drop_first() =~= a.drop_first() + b);
        lemma_edits_of_fields_concat(a.drop_first(), b, src);
        assert(edits_of(a[0].1, src) + (edits_of_fields(a.drop_first(), src) + edits_of_fields(
            b,
            src,
        )) =~= (edits_of(a[0].1, src) + edits_of_fields(a.drop_first(), src)) + edits_of_fields(
            b,
            src,
        ));
    }
}

/// Reads the span off any directive node.
pub fn node_span(d: &DirectiveNode) -> (r: (usize, usize))
    ensures
        r.0 as int == dir_start(dir_model(*d)),
        r.1 as int == dir_end(dir_model(*d)),
{
    match d {
        DirectiveNode::Passthrough { start, end, .. } => (*start, *end),
        DirectiveNode::Replace { start, end, .. } => (*start, *end),
        DirectiveNode::Highlight { start, end, .. } => (*start, *end),
    }
}

/// Appends `src[from..to]` to `out`.
#[verifier::loop_isolation(false)]
pub fn push_range(out: &mut Vec<u8>, src: &[u8], from: usize, to: usize)
    requires
        from <= to <= src@.len(),
    ensures
        final(out)@ == old(out)@ + src@.subrange(from as int, to as int),
{
    let mut k: usize = from;
    proof {
        assert(out@ =~= old(out)@ + src@.subrange(from as int, from as int));
    }
    while k < to
        invariant
            from <= k <= to,
            out@ == old(out)@ + src@.subrange(from as int, k as int),
        decreases to - k,
    {
        let ghost before = out@;
        out.push(src[k]);
        proof {
            assert(out@ =~= old(out)@ + src@.subrange(from as int, k as int + 1));
        }
        k = k + 1;
    }
}

/// Resolves a `Replace`'s entries against the original buffer into one
/// replacement text; an entry whose span leaves the buffer is an offset
/// error.
#[verifier::loop_isolation(false)]
pub fn resolve_entries(entries: &Vec<ReplaceEntry>, source: &[u8]) -> (r: Result<
    Vec<u8>,
    OffsetError,
>)
    ensures
        match r {
            Ok(t) => entries_ok(dir_model_entries(entries@), source@.len() as int) && t@
                == resolve_spec(dir_model_entries(entries@), source@),
            Err(_) => !entries_ok(dir_model_entries(entries@), source@.len() as int),
        },
{
    let ghost m = dir_model_entries(entries@);
    let mut out: Vec<u8> = Vec::new();
    proof {
        lemma_dir_model_entries_index(entries@);
        assert(m.skip(0) =~= m);
        assert(out@ =~= Seq::<u8>::empty());
    }
    let mut i: usize = 0;
    while i < entries.len()
        invariant
            0 <= i <= entries@.len(),
            m.len() == entries@.len(),
            forall|j: int| 0 <= j < i ==> entry_ok(#[trigger] m[j], source@.len() as int),
            resolve_spec(m, source@) == out@ + resolve_spec(m.skip(i as int), source@),
        decreases entries@.len() - i,
    {
        proof {
            assert(m.skip(i as int)[0] == m[i as int]);
            assert(m.skip(i as int).drop_first() =~= m.skip(i as int + 1));
        }
        let ghost before = out@;
        match &entries[i] {
            ReplaceEntry::Lit(s) => {
                push_range(&mut out, s.as_slice(), 0, s.len());
                proof {
                    assert(s@.subrange(0, s@.len() as int) =~= s@);
                }
            },
            ReplaceEntry::Node(b) => {
                let sp = node_span(b);
                if !(sp.0 <= sp.1 && sp.1 <= source.len()) {
                    proof {
                        assert(!entry_ok(m[i as int], source@.len() as int));
                    }
                    return Err(OffsetError);
                }
                push_range(&mut out, source, sp.0, sp.1);
            },
        }
        proof {
            assert(out@ =~= before + entry_text(m[i as int], source@));
            assert(before + (entry_text(m[i as int], source@) + resolve_spec(
                m.skip(i as int + 1),
                source@,
            )) =~= out@ + resolve_spec(m.skip(i as int + 1), source@));
        }
        i = i + 1;
    }
    proof {
        assert(m.skip(i as int) =~= Seq::<EntryModel>::empty());
        assert(out@ + Seq::<u8>::empty() =~= out@);
    }
    Ok(out)
}


/// Collects the edits of the subtree `d`, appending them to `acc`.
#[verifier::loop_isolation(false)]
fn collect_into(d: &DirectiveNode, source: &[u8], acc: &mut Vec<Edit>) -> (r: Result<
    (),
    OffsetError,
>)
    ensures
        match r {
            Ok(_) => edits_wf(dir_model(*d), source@.len() as int) && edit_models(final(acc)@)
                == edit_models(old(acc)@) + edits_of(dir_model(*d), source@),
            Err(_) => !edits_wf(dir_model(*d), source@.len() as int),
        },
    decreases *d,
{
    let ghost acc0 = edit_models(old(acc)@);
    match d {
        DirectiveNode::Replace { start, end, entries } => {
            let text = match resolve_entries(entries, source) {
                Ok(t) => t,
                Err(e) => {
                    return Err(e);
                },
            };
            let ghost em = EditModel {
                start: *start as int,
                end: *end as int,
                text: text@,
            };
            acc.push(Edit { start: *start, end: *end, text });
            proof {
                assert(edit_models(acc@) =~= acc0 + seq![em]);
                assert(edits_of(dir_model(*d), source@) =~= seq![em]);
            }
            Ok(())
        },
        DirectiveNode::Highlight { .. } => {
            proof {
                assert(edit_models(acc@) =~= acc0 + edits_of(dir_model(*d), source@));
            }
            Ok(())
        },
        DirectiveNode::Passthrough { kind, start, end, children, fields, value } => {
            let ghost dm = dir_model(*d);
            let ghost len = source@.len() as int;
            proof {
                assert(dm == DirModel::Passthrough {
                    kind: kind@,
                    start: *start as int,
                    end: *end as int,
                    children: match children {
                        Some(cs) => Some(dir_model_list(cs@)),
                        None => None,
                    },
                    fields: dir_model_fields(fields@),
                    value: match value {
                        Some(ValueSlot::Text(s)) => Some(SlotModel::Text(s@)),
                        Some(ValueSlot::Node(b)) => Some(SlotModel::Node(seq![dir_model(**b)])),
                        None => None,
                    },
                });
            }
            match children {
                Some(cs) => {
                    let ghost cm = dir_model_list(cs@);
                    proof {
                        lemma_dir_model_list_index(cs@);
                        assert(cm.take(0) =~= Seq::<DirModel>::empty());
                        assert(edit_models(acc@) =~= acc0 + edits_of_list(cm.take(0), source@));
                    }
                    let mut i: usize = 0;
                    while i < cs.len()
                        invariant
                            0 <= i <= cs@.len(),
                            forall|j: int| 0 <= j < i ==> edits_wf(#[trigger] cm[j], len),
                            edit_models(acc@) == acc0 + edits_of_list(cm.take(i as int), source@),
                        decreases cs@.len() - i,
                    {
                        proof {
                            assert(decreases_to!(*d => cs@[i as int]));
                        }
                        match collect_into(&cs[i], source, acc) {
                            Ok(_) => {},
                            Err(e) => {
                                proof {
                                    lemma_edits_wf_list_index(cm, len);
                                    assert(cm[i as int] == dir_model(cs@[i as int]));
                                    assert(!edits_wf(cm[i as int], len));
                                    assert(!edits_wf_list(cm, len));
                                    assert(!edits_wf(dm, len));
                                }
                                return Err(e);
                            },
                        }
                        proof {
                            assert(cm.take(i as int + 1) =~= cm.take(i as int) + seq![
                                cm[i as int],
                            ]);
                            lemma_edits_of_list_concat(
                                cm.take(i as int),
                                seq![cm[i as int]],
                                source@,
                            );
                            assert(seq![cm[i as int]].drop_first() =~= Seq::<DirModel>::empty());
                            assert(edits_of_list(seq![cm[i as int]], source@) =~= edits_of(
                                cm[i as int],
                                source@,
                            ));
                            assert(acc0 + (edits_of_list(cm.take(i as int), source@) + edits_of(
                                cm[i as int],
                                source@,
                            )) =~= (acc0 + edits_of_list(cm.take(i as int), source@)) + edits_of(
                                cm[i as int],
                                source@,
                            ));
                        }
                        i = i + 1;
                    }
                    proof {
                        assert(cm.take(i as int) =~= cm);
                        lemma_edits_wf_list_index(cm, len);
                    }
                },
                None => {},
            }
            let ghost from_children = match dm {
                DirModel::Passthrough { children: cmo, .. } => match cmo {
                    Some(cm) => edits_of_list(cm, source@),
                    None => Seq::<EditModel>::empty(),
                },
                _ => Seq::<EditModel>::empty(),
            };
            proof {
                if children is None {
                    assert(edit_models(acc@) =~= acc0 + from_children);
                }
            }
            let ghost fm = dir_model_fields(fields@);
            proof {
                lemma_dir_model_fields_index(fields@);
                assert(fm.take(0) =~= Seq::<(Seq<u8>, DirModel)>::empty());
                assert(acc0 + from_children + edits_of_fields(fm.take(0), source@) =~= acc0
                    + from_children);
            }
            let mut i: usize = 0;
            while i < fields.len()
                invariant
                    0 <= i <= fields@.len(),
                    forall|j: int| 0 <= j < i ==> edits_wf(#[trigger] fm[j].1, len),
                    edit_models(acc@) == acc0 + from_children + edits_of_fields(
                        fm.take(i as int),
                        source@,
                    ),
                decreases fields@.len() - i,
            {
                proof {
                    assert(decreases_to!(*d => fields@[i as int].1));
                }
                match collect_into(&fields[i].1, source, acc) {
                    Ok(_) => {},
                    Err(e) => {
                        proof {
                            lemma_edits_wf_fields_index(fm, len);
                            assert(fm[i as int].1 == dir_model(fields@[i as int].1));
                            assert(!edits_wf(fm[i as int].1, len));
                            assert(!edits_wf_fields(fm, len));
                            assert(!edits_wf(dm, len));
                        }
                        return Err(e);
                    },
                }
                proof {
                    assert(fm.take(i as int + 1) =~= fm.take(i as int) + seq![fm[i as int]]);
                    lemma_edits_of_fields_concat(fm.take(i as int), seq![fm[i as int]], source@);
                    assert(seq![fm[i as int]].drop_first() =~= Seq::<(Seq<u8>, DirModel)>::empty());
                    assert(edits_of_fields(seq![fm[i as int]], source@) =~= edits_of(
                        fm[i as int].1,
                        source@,
                    ));
                    assert((acc0 + from_children + edits_of_fields(fm.take(i as int), source@))
                        + edits_of(fm[i as int].1, source@) =~= acc0 + from_children + (
                    edits_of_fields(fm.take(i as int), source@) + edits_of(
                        fm[i as int].1,
                        source@,
                    )));
                }
                i = i + 1;
            }
            proof {
                assert(fm.take(i as int) =~= fm);
                lemma_edits_wf_fields_index(fm, len);
            }
            match value {
                Some(ValueSlot::Node(b)) => {
                    proof {
                        assert(decreases_to!(*d => **b));
                    }
                    match collect_into(b, source, acc) {
                        Ok(_) => {},
                        Err(e) => {
                            return Err(e);
                        },
                    }
                    proof {
                        assert(seq![dir_model(**b)][0] == dir_model(**b));
                        assert((acc0 + from_children + edits_of_fields(fm, source@)) + edits_of(
                            dir_model(**b),
                            source@,
                        ) =~= acc0 + (from_children + edits_of_fields(fm, source@) + edits_of(
                            dir_model(**b),
                            source@,
                        )));
                        assert(edits_of(dm, source@) =~= from_children + edits_of_fields(
                            fm,
                            source@,
                        ) + edits_of(dir_model(**b), source@));
                    }
                },
                _ => {
                    proof {
                        assert(edits_of(dm, source@) =~= from_children + edits_of_fields(
                            fm,
                            source@,
                        ) + Seq::<EditModel>::empty());
                        assert(acc0 + from_children + edits_of_fields(fm, source@) =~= acc0 + (
                        from_children + edits_of_fields(fm, source@) + Seq::<
                            EditModel,
                        >::empty()));
                    }
                },
            }
            Ok(())
        },
    }
}

/// Collects every edit of the tree, in traversal order.
pub fn collect_edits(root: &DirectiveNode, source: &[u8]) -> (r: Result<Vec<Edit>, OffsetError>)
    ensures
        match r {
            Ok(v) => edits_wf(dir_model(*root), source@.len() as int) && edit_models(v@)
                == edits_of(dir_model(*root), source@),
            Err(_) => !edits_wf(dir_model(*root), source@.len() as int),
        },
{
    let mut acc: Vec<Edit> = Vec::new();
    proof {
        assert(edit_models(acc@) =~= Seq::<EditModel>::empty());
    }
    match collect_into(root, source, &mut acc) {
        Ok(_) => {
            proof {
                assert(Seq::<EditModel>::empty() + edits_of(dir_model(*root), source@)
                    =~= edits_of(dir_model(*root), source@));
            }
            Ok(acc)
        },
        Err(e) => Err(e),
    }
}

/// Inserting an edit into an already sorted run: it goes before the
/// first edit whose start exceeds its own, so that edits with equal
/// starts keep their traversal order.
pub open spec fn insert_edit(e: EditModel, s: Seq<EditModel>) -> Seq<EditModel>
    decreases s,
{
    if s.len() == 0 {
        seq![e]
    } else if e.start < s[0].start {
        seq![e] + s
    } else {
        seq![s[0]] + insert_edit(e, s.drop_first())
    }
}

pub open spec fn sort_from(acc: Seq<EditModel>, s: Seq<EditModel>) -> Seq<EditModel>
    decreases s,
{
    if s.len() == 0 {
        acc
    } else {
        sort_from(insert_edit(s[0], acc), s.drop_first())
    }
}

/// The collected edits brought into ascending start-offset order by
/// insertion, stable for equal starts.
pub open spec fn sort_edits(s: Seq<EditModel>) -> Seq<EditModel> {
    sort_from(Seq::empty(), s)
}

/// Inserts an edit into a sorted vector, before the first edit whose
/// start exceeds its own.
#[verifier::loop_isolation(false)]
fn insert_sorted(out: &mut Vec<Edit>, e: Edit)
    ensures
        edit_models(final(out)@) == insert_edit(edit_model(e), edit_models(old(out)@)),
{
    let ghost m = edit_models(old(out)@);
    let ghost em = edit_model(e);
    proof {
        assert(m.skip(0) =~= m);
        assert(m.take(0) =~= Seq::<EditModel>::empty());
    }
    let mut i: usize = 0;
    while i < out.len()
        invariant
            0 <= i <= out@.len(),
            out@.len() == m.len(),
            out@ == old(out)@,
            insert_edit(em, m) == m.take(i as int) + insert_edit(em, m.skip(i as int)),
        decreases out@.len() - i,
    {
        proof {
            assert(m.skip(i as int)[0] == m[i as int]);
            assert(m.skip(i as int).drop_first() =~= m.skip(i as int + 1));
            assert(m[i as int] == edit_model(out@[i as int]));
        }
        if out[i].start > e.start {
            out.insert(i, e);
            proof {
                assert(insert_edit(em, m.skip(i as int)) == seq![em] + m.skip(i as int));
                assert(edit_models(out@) =~= m.take(i as int) + (seq![em] + m.skip(i as int)));
            }
            return;
        }
        proof {
            assert(insert_edit(em, m.skip(i as int)) == seq![m[i as int]] + insert_edit(
                em,
                m.skip(i as int + 1),
            ));
            assert(m.take(i as int + 1) =~= m.take(i as int) + seq![m[i as int]]);
            assert(m.take(i as int) + (seq![m[i as int]] + insert_edit(em, m.skip(i as int + 1)))
                =~= m.take(i as int + 1) + insert_edit(em, m.skip(i as int + 1)));
        }
        i = i + 1;
    }
    proof {
        assert(m.skip(i as int) =~= Seq::<EditModel>::empty());
        assert(m.take(i as int) =~= m);
    }
    out.push(e);
    proof {
        assert(edit_models(out@) =~= m + seq![em]);
        assert(m + seq![em] =~= m + insert_edit(em, Seq::empty()));
    }
}

/// Sorts the collected edits by ascending start offset, keeping the
/// traversal order of edits with equal starts.
#[verifier::loop_isolation(false)]
pub fn sort_edits_vec(es: Vec<Edit>) -> (r: Vec<Edit>)
    ensures
        edit_models(r@) == sort_edits(edit_models(es@)),
{
    let ghost orig = edit_models(es@);
    let mut rest = es;
    let mut out: Vec<Edit> = Vec::new();
    proof {
        assert(edit_models(out@) =~= Seq::<EditModel>::empty());
    }
    while rest.len() > 0
        invariant
            sort_from(edit_models(out@), edit_models(rest@)) == sort_from(
                Seq::empty(),
                orig,
            ),
        decreases rest@.len(),
    {
        let ghost rm = edit_models(rest@);
        let e = rest.remove(0);
        proof {
            assert(edit_models(rest@) =~= rm.drop_first());
            assert(rm[0] == edit_model(e));
        }
        insert_sorted(&mut out, e);
    }
    proof {
        assert(edit_models(rest@).len() == 0);
    }
    out
}

/// Validity of a run of edits against a buffer of `len` bytes: each
/// span is a half-open range inside the buffer, and each edit ends
/// before the next begins.
pub open spec fn valid_edits(es: Seq<EditModel>, len: int) -> bool {
    &&& forall|i: int| #![trigger es[i]] 0 <= i < es.len() ==> (0 <= es[i].start <= es[i].end
        <= len)
    &&& forall|i: int| #![trigger es[i]] 0 <= i < es.len() - 1 ==> es[i].end <= es[i + 1].start
}

/// Checks a sorted run of edits for bounds and overlap.
#[verifier::loop_isolation(false)]
pub fn check_edits(es: &Vec<Edit>, src_len: usize) -> (r: bool)
    ensures
        r == valid_edits(edit_models(es@), src_len as int),
{
    let ghost m = edit_models(es@);
    proof {
        assert(m.len() == es@.len());
    }
    let mut i: usize = 0;
    while i < es.len()
        invariant
            0 <= i <= es@.len(),
            forall|j: int| 0 <= j < i ==> (0 <= #[trigger] m[j].start <= m[j].end <= src_len
                as int),
            forall|j: int| 0 <= j < i - 1 ==> #[trigger] m[j].end <= m[j + 1].start,
        decreases es@.len() - i,
    {
        proof {
            assert(m[i as int] == edit_model(es@[i as int]));
        }
        if !(es[i].start <= es[i].end && es[i].end <= src_len) {
            proof {
                assert(!(0 <= m[i as int].start <= m[i as int].end <= src_len as int));
                assert(!valid_edits(m, src_len as int));
            }
            return false;
        }
        if i > 0 {
            proof {
                assert(m[i as int - 1] == edit_model(es@[i as int - 1]));
            }
            if es[i - 1].end > es[i].start {
                proof {
                    assert(!(m[i as int - 1].end <= m[i as int].start));
                    assert(!valid_edits(m, src_len as int));
                }
                return false;
            }
        }
        i = i + 1;
    }
    true
}

/// The result of splicing a run of edits into the tail of the buffer
/// that starts at `from`: the untouched bytes up to the first edit, its
/// replacement text, then the rest, spliced from where that edit ended.
pub open spec fn splice_from(src: Seq<u8>, es: Seq<EditModel>, from: int) -> Seq<u8>
    decreases es,
{
    if es.len() == 0 {
        src.subrange(from, src.len() as int)
    } else {
        src.subrange(from, es[0].start) + es[0].text + splice_from(
            src,
            es.drop_first(),
            es[0].end,
        )
    }
}

/// Applies a valid run of edits, in order, producing the rewritten
/// buffer.
#[verifier::loop_isolation(false)]
pub fn apply_edits(source: &[u8], es: &Vec<Edit>) -> (r: Vec<u8>)
    requires
        valid_edits(edit_models(es@), source@.len() as int),
    ensures
        r@ == splice_from(source@, edit_models(es@), 0),
{
    let ghost m = edit_models(es@);
    let mut out: Vec<u8> = Vec::new();
    let mut pos: usize = 0;
    proof {
        assert(m.skip(0) =~= m);
        assert(out@ =~= Seq::<u8>::empty());
        assert(Seq::<u8>::empty() + splice_from(source@, m, 0) =~= splice_from(source@, m, 0));
    }
    let mut i: usize = 0;
    while i < es.len()
        invariant
            0 <= i <= es@.len(),
            m.len() == es@.len(),
            if i == 0 {
                pos == 0
            } else {
                pos as int == m[i as int - 1].end
            },
            pos as int <= source@.len(),
            i < es@.len() ==> pos as int <= m[i as int].start,
            splice_from(source@, m, 0) == out@ + splice_from(source@, m.skip(i as int), pos
                as int),
        decreases es@.len() - i,
    {
        proof {
            assert(m.skip(i as int)[0] == m[i as int]);
            assert(m.skip(i as int).drop_first() =~= m.skip(i as int + 1));
            assert(m[i as int] == edit_model(es@[i as int]));
        }
        let ghost before = out@;
        push_range(&mut out, source, pos, es[i].start);
        push_range(&mut out, es[i].text.as_slice(), 0, es[i].text.len());
        proof {
            assert(es@[i as int].text@.subrange(0, es@[i as int].text@.len() as int)
                =~= m[i as int].text);
            assert(out@ =~= before + source@.subrange(pos as int, m[i as int].start)
                + m[i as int].text);
            assert(before + (source@.subrange(pos as int, m[i as int].start) + m[i as int].text
                + splice_from(source@, m.skip(i as int + 1), m[i as int].end)) =~= (before
                + source@.subrange(pos as int, m[i as int].start) + m[i as int].text)
                + splice_from(source@, m.skip(i as int + 1), m[i as int].end));
        }
        pos = es[i].end;
        i = i + 1;
        proof {
            if i < es@.len() {
                assert(m[i as int - 1].end <= m[i as int].start);
            }
        }
    }
    proof {
        assert(m.skip(i as int) =~= Seq::<EditModel>::empty());
    }
    let ghost before = out@;
    push_range(&mut out, source, pos, source.len());
    proof {
        assert(out@ =~= before + source@.subrange(pos as int, source@.len() as int));
    }
    out
}

/// Whether the rewrite of a directive tree against a buffer is defined:
/// every entry of every `Replace` can be resolved, and the sorted edits
/// lie within the buffer without overlap.
pub open spec fn rewrite_ok(d: DirModel, src: Seq<u8>) -> bool {
    &&& edits_wf(d, src.len() as int)
    &&& valid_edits(sort_edits(edits_of(d, src)), src.len() as int)
}

/// The rewritten buffer: the edits of the tree, in ascending original
/// offset order, spliced into the source.
pub open spec fn rewrite_spec(d: DirModel, src: Seq<u8>) -> Seq<u8> {
    splice_from(src, sort_edits(edits_of(d, src)), 0)
}

/// Rewrites the source: every `Replace` found anywhere in the tree is
/// applied, in ascending original offset order; all other text is kept.
/// A replacement whose span leaves the buffer, or two replacements that
/// overlap, yield an offset error and no output.
pub fn rewrite(root: &DirectiveNode, source: &[u8]) -> (r: Result<Vec<u8>, OffsetError>)
    ensures
        match r {
            Ok(out) => rewrite_ok(dir_model(*root), source@) && out@ == rewrite_spec(
                dir_model(*root),
                source@,
            ),
            Err(_) => !rewrite_ok(dir_model(*root), source@),
        },
{
    let edits = match collect_edits(root, source) {
        Ok(v) => v,
        Err(e) => {
            return Err(e);
        },
    };
    let sorted = sort_edits_vec(edits);
    if !check_edits(&sorted, source.len()) {
        return Err(OffsetError);
    }
    Ok(apply_edits(source, &sorted))
}


/// The net length delta of a run of edits: bytes inserted minus bytes
/// removed.
pub open spec fn sum_delta(es: Seq<EditModel>) -> int
    decreases es,
{
    if es.len() == 0 {
        0
    } else {
        (es[0].text.len() - (es[0].end - es[0].start)) + sum_delta(es.drop_first())
    }
}

/// The spliced part of the output that a run of edits produces, without
/// the untouched tail: the gap before each edit, then its text.
pub open spec fn chunks(src: Seq<u8>, es: Seq<EditModel>, from: int) -> Seq<u8>
    decreases es,
{
    if es.len() == 0 {
        Seq::empty()
    } else {
        src.subrange(from, es[0].start) + es[0].text + chunks(src, es.drop_first(), es[0].end)
    }
}

/// Where a run of edits leaves off in the original buffer.
pub open spec fn end_of(es: Seq<EditModel>, from: int) -> int
    decreases es,
{
    if es.len() == 0 {
        from
    } else {
        end_of(es.drop_first(), es[0].end)
    }
}

/// Validity of a run of edits spliced from position `from` on.
pub open spec fn valid_from(es: Seq<EditModel>, from: int, len: int) -> bool {
    &&& valid_edits(es, len)
    &&& 0 <= from <= len
    &&& es.len() > 0 ==> from <= es[0].start
}

proof fn lemma_valid_drop_first(es: Seq<EditModel>, from: int, len: int)
    requires
        valid_from(es, from, len),
        es.len() > 0,
    ensures
        valid_from(es.drop_first(), es[0].end, len),
{
    let rest = es.drop_first();
    assert forall|i: int| 0 <= i < rest.len() implies (0 <= #[trigger] rest[i].start
        <= rest[i].end <= len) by {
        assert(rest[i] == es[i + 1]);
    }
    assert forall|i: int| 0 <= i < rest.len() - 1 implies #[trigger] rest[i].end <= rest[i
        + 1].start by {
        assert(rest[i] == es[i + 1]);
        assert(rest[i + 1] == es[i + 2]);
    }
    if rest.len() > 0 {
        assert(rest[0] == es[1]);
        assert(es[0].end <= es[1].start);
    }
}

/// A spliced buffer is the spliced chunks followed by the untouched
/// tail of the original.
proof fn lemma_splice_decomp(src: Seq<u8>, es: Seq<EditModel>, from: int)
    requires
        valid_from(es, from, src.len() as int),
    ensures
        splice_from(src, es, from) == chunks(src, es, from) + src.subrange(
            end_of(es, from),
            src.len() as int,
        ),
        from <= end_of(es, from) <= src.len(),
        chunks(src, es, from).len() == end_of(es, from) - from + sum_delta(es),
    decreases es,
{
    if es.len() == 0 {
        assert(chunks(src, es, from) + src.subrange(from, src.len() as int) =~= src.subrange(
            from,
            src.len() as int,
        ));
    } else {
        lemma_valid_drop_first(es, from, src.len() as int);
        lemma_splice_decomp(src, es.drop_first(), es[0].end);
        assert(end_of(es, from) == end_of(es.drop_first(), es[0].end));
        assert(splice_from(src, es, from) =~= chunks(src, es, from) + src.subrange(
            end_of(es, from),
            src.len() as int,
        ));
    }
}

/// Appending one more edit extends the chunks by the gap up to its
/// start and its text, and moves the leave-off point to its end.
proof fn lemma_chunks_snoc(src: Seq<u8>, es: Seq<EditModel>, x: EditModel, from: int)
    requires
        valid_from(es.push(x), from, src.len() as int),
    ensures
        end_of(es.push(x), from) == x.end,
        end_of(es, from) <= x.start,
        valid_from(es, from, src.len() as int),
        chunks(src, es.push(x), from) == chunks(src, es, from) + src.subrange(
            end_of(es, from),
            x.start,
        ) + x.text,
    decreases es,
{
    let all = es.push(x);
    if es.len() == 0 {
        assert(all[0] == x);
        assert(all.drop_first() =~= Seq::<EditModel>::empty());
        assert(end_of(Seq::<EditModel>::empty(), x.end) == x.end);
        assert(chunks(src, Seq::<EditModel>::empty(), x.end) =~= Seq::<u8>::empty());
        assert(es =~= Seq::<EditModel>::empty());
        assert(chunks(src, es, from) =~= Seq::<u8>::empty());
        assert(end_of(es, from) == from);
        assert(chunks(src, all, from) =~= src.subrange(from, x.start) + x.text);
        assert(chunks(src, es, from) + src.subrange(from, x.start) + x.text =~= src.subrange(
            from,
            x.start,
        ) + x.text);
    } else {
        assert(all[0] == es[0]);
        assert(all.drop_first() =~= es.drop_first().push(x));
        lemma_valid_drop_first(all, from, src.len() as int);
        lemma_chunks_snoc(src, es.drop_first(), x, es[0].end);
        assert forall|i: int| 0 <= i < es.len() implies (0 <= #[trigger] es[i].start
            <= es[i].end <= src.len() as int) by {
            assert(es[i] == all[i]);
        }
        assert forall|i: int| 0 <= i < es.len() - 1 implies #[trigger] es[i].end <= es[i
            + 1].start by {
            assert(es[i] == all[i]);
            assert(es[i + 1] == all[i + 1]);
        }
        assert(chunks(src, all, from) =~= chunks(src, es, from) + src.subrange(
            end_of(es, from),
            x.start,
        ) + x.text);
    }
}

/// How the leave-off point of a prefix run reads off the run itself.
proof fn lemma_end_of_take(es: Seq<EditModel>, k: int, from: int)
    requires
        0 < k <= es.len(),
    ensures
        end_of(es.take(k), from) == es[k - 1].end,
    decreases k,
{
    if k == 1 {
        assert(es.take(1)[0] == es[0]);
        assert(es.take(1).drop_first() =~= Seq::<EditModel>::empty());
        assert(end_of(Seq::<EditModel>::empty(), es[0].end) == es[0].end);
    } else {
        assert(es.take(k)[0] == es[0]);
        assert(es.take(k).drop_first() =~= es.drop_first().take(k - 1));
        lemma_end_of_take(es.drop_first(), k - 1, es[0].end);
        assert(es.drop_first()[k - 2] == es[k - 1]);
    }
}

/// A prefix of a valid run is valid.
proof fn lemma_valid_take(es: Seq<EditModel>, k: int, len: int)
    requires
        valid_edits(es, len),
        0 <= len,
        0 <= k <= es.len(),
    ensures
        valid_from(es.take(k), 0, len),
{
    assert forall|i: int| 0 <= i < k implies (0 <= #[trigger] es.take(k)[i].start <= es.take(
        k,
    )[i].end <= len) by {
        assert(es.take(k)[i] == es[i]);
    }
    assert forall|i: int| 0 <= i < k - 1 implies #[trigger] es.take(k)[i].end <= es.take(k)[i
        + 1].start by {
        assert(es.take(k)[i] == es[i]);
        assert(es.take(k)[i + 1] == es[i + 1]);
    }
    if k > 0 {
        assert(es.take(k)[0] == es[0]);
    }
}

/// Additivity of the cumulative adjustment. For a valid run of edits,
/// applied in ascending original-offset order, the buffer after the
/// first `k + 1` edits arises from the buffer after the first `k` by
/// one overwrite at the next edit's span shifted by the net length
/// delta of the edits before it; and the final buffer's length is the
/// original length plus the net delta of the whole run.
pub proof fn lemma_adjustment_additivity(es: Seq<EditModel>, src: Seq<u8>, k: int)
    requires
        valid_edits(es, src.len() as int),
        0 <= k < es.len(),
    ensures
        ({
            let adj = sum_delta(es.take(k));
            let out_k = splice_from(src, es.take(k), 0);
            let out_k1 = splice_from(src, es.take(k + 1), 0);
            &&& 0 <= es[k].start + adj <= es[k].end + adj <= out_k.len()
            &&& out_k1 == out_k.subrange(0, es[k].start + adj) + es[k].text + out_k.subrange(
                es[k].end + adj,
                out_k.len() as int,
            )
        }),
{
    let len = src.len() as int;
    let adj = sum_delta(es.take(k));
    let pre = es.take(k);
    let pre1 = es.take(k + 1);
    lemma_valid_take(es, k, len);
    lemma_valid_take(es, k + 1, len);
    assert(pre1 =~= pre.push(es[k]));
    lemma_chunks_snoc(src, pre, es[k], 0);
    lemma_splice_decomp(src, pre, 0);
    lemma_splice_decomp(src, pre1, 0);
    let e0 = end_of(pre, 0);
    let c = chunks(src, pre, 0);
    assert(c.len() == e0 + adj);
    if k > 0 {
        lemma_end_of_take(es, k, 0);
        assert(e0 == es[k - 1].end);
        assert(es[k - 1].end <= es[k].start);
    } else {
        assert(pre =~= Seq::<EditModel>::empty());
    }
    assert(e0 <= es[k].start);
    assert(es[k].start + adj >= c.len());
    let out_k = splice_from(src, pre, 0);
    let out_k1 = splice_from(src, pre1, 0);
    assert(out_k.len() == c.len() + (len - e0));
    assert(out_k.subrange(0, es[k].start + adj) =~= c + src.subrange(e0, es[k].start));
    assert(out_k.subrange(es[k].end + adj, out_k.len() as int) =~= src.subrange(es[k].end, len));
    assert(out_k1 =~= (c + src.subrange(e0, es[k].start) + es[k].text) + src.subrange(
        es[k].end,
        len,
    ));
    assert(out_k1 =~= out_k.subrange(0, es[k].start + adj) + es[k].text + out_k.subrange(
        es[k].end + adj,
        out_k.len() as int,
    ));
}

/// The final output of a valid run of edits is longer than the source
/// by exactly the run's net length delta.
pub proof fn lemma_output_length(es: Seq<EditModel>, src: Seq<u8>)
    requires
        valid_edits(es, src.len() as int),
    ensures
        splice_from(src, es, 0).len() == src.len() + sum_delta(es),
{
    if es.len() > 0 {
        assert(0 <= es[0].start);
    }
    assert(valid_from(es, 0, src.len() as int));
    lemma_splice_decomp(src, es, 0);
}

/// Deleting a span: a single `Replace` with no entries, applied alone,
/// shortens the buffer by the span's width, keeps every byte before the
/// span, and moves every byte after it left by the span's width.
pub proof fn lemma_deletion(s: int, e: int, src: Seq<u8>)
    requires
        0 <= s <= e <= src.len(),
    ensures
        ({
            let d = DirModel::Replace { start: s, end: e, entries: Seq::empty() };
            let out = rewrite_spec(d, src);
            &&& rewrite_ok(d, src)
            &&& out.len() == src.len() - (e - s)
            &&& out.subrange(0, s) == src.subrange(0, s)
            &&& out.subrange(s, out.len() as int) == src.subrange(e, src.len() as int)
        }),
{
    let d = DirModel::Replace { start: s, end: e, entries: Seq::empty() };
    let ed = EditModel { start: s, end: e, text: resolve_spec(Seq::empty(), src) };
    assert(resolve_spec(Seq::empty(), src) =~= Seq::<u8>::empty());
    assert(edits_of(d, src) == seq![ed]);
    let sorted = sort_edits(seq![ed]);
    assert(seq![ed].drop_first() =~= Seq::<EditModel>::empty());
    assert(insert_edit(ed, Seq::empty()) == seq![ed]);
    assert(sort_from(seq![ed], Seq::<EditModel>::empty()) == seq![ed]);
    assert(sort_from(insert_edit(ed, Seq::empty()), seq![ed].drop_first()) == seq![ed]);
    assert(sorted == seq![ed]);
    assert(splice_from(src, Seq::<EditModel>::empty(), e) =~= src.subrange(e, src.len() as int));
    assert(valid_edits(seq![ed], src.len() as int));
    assert(edits_wf(d, src.len() as int));
    let out = rewrite_spec(d, src);
    assert(out =~= src.subrange(0, s) + Seq::<u8>::empty() + src.subrange(e, src.len() as int));
    assert(out.subrange(0, s) =~= src.subrange(0, s));
    assert(out.subrange(s, out.len() as int) =~= src.subrange(e, src.len() as int));
}

} // verus!
