//! The identity round trip: decoding the value converter's own output
//! and encoding the decoded directive again yields the converted value
//! unchanged — nothing of the kind, span, children or leaf text
//! structure is lost between the converter and the decoder.

use vstd::prelude::*;

use crate::convert::{base_entries, bytes_clone, convert_model, convert_slots, max_offset};
use crate::directive::{
    decode_list_spec, decode_pass_rest, decode_pass_spec, decode_spec, dir_model, DirModel,
    DirectiveNode, EntryModel, ReplaceEntry, SlotModel, ValueSlot,
};
use crate::syntax::{ChildSlot, SyntaxNode};
use crate::value::{
    children_key, children_key_vec, end_key, end_key_vec, entries_key, entries_key_vec,
    highlight_tag, highlight_tag_vec, kind_key, kind_key_vec, message_key, message_key_vec,
    rec_get, rec_has, rec_insert, replace_tag, replace_tag_vec, sem_model, sem_model_entries,
    sem_model_list, start_key, start_key_vec, value_key, value_key_vec, SemModel, SemanticValue,
};

verus! {

/// The encoding of a directive tree back into a semantic value: the
/// canonical record layout the converter itself produces — kind, span,
/// fields, children, value.
pub open spec fn encode_spec(d: DirModel) -> SemModel
    decreases d,
{
    match d {
        DirModel::Passthrough { kind, start, end, children, fields, value } => {
            let base = seq![
                (kind_key(), SemModel::Str(kind)),
                (start_key(), SemModel::Int(start)),
                (end_key(), SemModel::Int(end)),
            ];
            let with_fields = base + encode_fields(fields);
            let with_children = with_fields + (match children {
                Some(cs) => seq![(children_key(), SemModel::List(encode_list(cs)))],
                None => Seq::empty(),
            });
            let with_value = with_children + (match value {
                Some(SlotModel::Text(s)) => seq![(value_key(), SemModel::Str(s))],
                Some(SlotModel::Node(s1)) => if 0 < s1.len() {
                    seq![(value_key(), encode_spec(s1[0]))]
                } else {
                    Seq::empty()
                },
                None => Seq::empty(),
            });
            SemModel::Rec(with_value)
        },
        DirModel::Replace { start, end, entries } => SemModel::Rec(
            seq![
                (kind_key(), SemModel::Str(replace_tag())),
                (start_key(), SemModel::Int(start)),
                (end_key(), SemModel::Int(end)),
                (entries_key(), SemModel::List(encode_entries(entries))),
            ],
        ),
        DirModel::Highlight { start, end, message } => SemModel::Rec(
            seq![
                (kind_key(), SemModel::Str(highlight_tag())),
                (start_key(), SemModel::Int(start)),
                (end_key(), SemModel::Int(end)),
                (message_key(), SemModel::Str(message)),
            ],
        ),
    }
}

pub open spec fn encode_list(cs: Seq<DirModel>) -> Seq<SemModel>
    decreases cs,
{
    if cs.len() == 0 {
        Seq::empty()
    } else {
        seq![encode_spec(cs[0])] + encode_list(cs.drop_first())
    }
}

pub open spec fn encode_fields(fs: Seq<(Seq<u8>, DirModel)>) -> Seq<(Seq<u8>, SemModel)>
    decreases fs,
{
    if fs.len() == 0 {
        Seq::empty()
    } else {
        seq![(fs[0].0, encode_spec(fs[0].1))] + encode_fields(fs.drop_first())
    }
}

pub open spec fn encode_entries(es: Seq<crate::directive::EntryModel>) -> Seq<SemModel>
    decreases es,
{
    if es.len() == 0 {
        Seq::empty()
    } else {
        let head = match es[0] {
            crate::directive::EntryModel::Lit(s) => SemModel::Str(s),
            crate::directive::EntryModel::Node(s1) => if 0 < s1.len() {
                encode_spec(s1[0])
            } else {
                SemModel::Null
            },
        };
        seq![head] + encode_entries(es.drop_first())
    }
}


/// Every span in a directive tree fits the interchange integer width.
pub open spec fn dir_bounded(d: DirModel) -> bool
    decreases d,
{
    match d {
        DirModel::Passthrough { start, end, children, fields, value, .. } => {
            &&& 0 <= start <= max_offset()
            &&& 0 <= end <= max_offset()
            &&& match children {
                Some(cs) => dir_bounded_list(cs),
                None => true,
            }
            &&& dir_bounded_fields(fields)
            &&& match value {
                Some(SlotModel::Node(s1)) => 0 < s1.len() ==> dir_bounded(s1[0]),
                _ => true,
            }
        },
        DirModel::Replace { start, end, entries } => {
            &&& 0 <= start <= max_offset()
            &&& 0 <= end <= max_offset()
            &&& dir_bounded_entries(entries)
        },
        DirModel::Highlight { start, end, .. } => 0 <= start <= max_offset() && 0 <= end
            <= max_offset(),
    }
}

pub open spec fn dir_bounded_list(cs: Seq<DirModel>) -> bool
    decreases cs,
{
    cs.len() == 0 || (dir_bounded(cs[0]) && dir_bounded_list(cs.drop_first()))
}

pub open spec fn dir_bounded_fields(fs: Seq<(Seq<u8>, DirModel)>) -> bool
    decreases fs,
{
    fs.len() == 0 || (dir_bounded(fs[0].1) && dir_bounded_fields(fs.drop_first()))
}

pub open spec fn dir_bounded_entries(es: Seq<EntryModel>) -> bool
    decreases es,
{
    es.len() == 0 || ({
        &&& match es[0] {
            EntryModel::Lit(_) => true,
            EntryModel::Node(s1) => 0 < s1.len() ==> dir_bounded(s1[0]),
        }
        &&& dir_bounded_entries(es.drop_first())
    })
}

proof fn lemma_dir_bounded_list_index(cs: Seq<DirModel>)
    requires
        dir_bounded_list(cs),
    ensures
        forall|i: int| 0 <= i < cs.len() ==> dir_bounded(#[trigger] cs[i]),
    decreases cs,
{
    if cs.len() > 0 {
        lemma_dir_bounded_list_index(cs.drop_first());
        assert forall|i: int| 1 <= i < cs.len() implies cs.drop_first()[i - 1] == cs[i] by {}
    }
}

proof fn lemma_dir_bounded_fields_index(fs: Seq<(Seq<u8>, DirModel)>)
    requires
        dir_bounded_fields(fs),
    ensures
        forall|i: int| 0 <= i < fs.len() ==> dir_bounded(#[trigger] fs[i].1),
    decreases fs,
{
    if fs.len() > 0 {
        lemma_dir_bounded_fields_index(fs.drop_first());
        assert forall|i: int| 1 <= i < fs.len() implies fs.drop_first()[i - 1] == fs[i] by {}
    }
}

proof fn lemma_dir_bounded_entries_index(es: Seq<EntryModel>)
    requires
        dir_bounded_entries(es),
    ensures
        forall|i: int| 0 <= i < es.len() ==> ((#[trigger] es[i]) matches EntryModel::Node(s1)
            ==> (0 < s1.len() ==> dir_bounded(s1[0]))),
    decreases es,
{
    if es.len() > 0 {
        lemma_dir_bounded_entries_index(es.drop_first());
        assert forall|i: int| 1 <= i < es.len() implies es.drop_first()[i - 1] == es[i] by {}
    }
}

/// Encodes a directive tree back into a semantic value, in the
/// canonical record layout.
#[verifier::loop_isolation(false)]
pub fn encode(d: &DirectiveNode) -> (r: SemanticValue)
    requires
        dir_bounded(dir_model(*d)),
    ensures
        sem_model(r) == encode_spec(dir_model(*d)),
    decreases *d,
{
    match d {
        DirectiveNode::Replace { start, end, entries } => {
            let ghost em = crate::directive::dir_model_entries(entries@);
            proof {
                crate::directive::lemma_dir_model_entries_index(entries@);
                lemma_dir_bounded_entries_index(em);
                assert(em.skip(0) =~= em);
                assert(sem_model_list(Seq::<SemanticValue>::empty()) =~= Seq::<SemModel>::empty());
            }
            let mut items: Vec<SemanticValue> = Vec::new();
            let mut j: usize = 0;
            while j < entries.len()
                invariant
                    0 <= j <= entries@.len(),
                    encode_entries(em) == sem_model_list(items@) + encode_entries(
                        em.skip(j as int),
                    ),
                decreases entries@.len() - j,
            {
                proof {
                    assert(em.skip(j as int)[0] == em[j as int]);
                    assert(em.skip(j as int).drop_first() =~= em.skip(j as int + 1));
                }
                let ghost prev = items@;
                match &entries[j] {
                    ReplaceEntry::Lit(s) => {
                        items.push(SemanticValue::Str(bytes_clone(s)));
                    },
                    ReplaceEntry::Node(b) => {
                        proof {
                            assert(decreases_to!(*d => **b));
                            assert(em[j as int] == EntryModel::Node(seq![dir_model(**b)]));
                            assert(seq![dir_model(**b)][0] == dir_model(**b));
                        }
                        items.push(encode(b));
                    },
                }
                proof {
                    crate::value::lemma_sem_model_list_index(items@);
                    crate::value::lemma_sem_model_list_index(prev);
                    assert(items@.drop_last() =~= prev);
                    assert(sem_model_list(items@) =~= sem_model_list(prev).push(
                        sem_model(items@.last()),
                    ));
                    assert(sem_model_list(prev) + (seq![sem_model(items@.last())]
                        + encode_entries(em.skip(j as int + 1))) =~= sem_model_list(items@)
                        + encode_entries(em.skip(j as int + 1)));
                }
                j = j + 1;
            }
            proof {
                assert(em.skip(j as int) =~= Seq::<EntryModel>::empty());
                assert(sem_model_list(items@) + Seq::<SemModel>::empty() =~= sem_model_list(
                    items@,
                ));
            }
            let mut out: Vec<(Vec<u8>, SemanticValue)> = Vec::new();
            out.push((kind_key_vec(), SemanticValue::Str(replace_tag_vec())));
            out.push((start_key_vec(), SemanticValue::Int(*start as i64)));
            out.push((end_key_vec(), SemanticValue::Int(*end as i64)));
            out.push((entries_key_vec(), SemanticValue::List(items)));
            proof {
                crate::value::lemma_sem_model_entries_index(out@);
                assert(sem_model_entries(out@) =~= seq![
                    (kind_key(), SemModel::Str(replace_tag())),
                    (start_key(), SemModel::Int(*start as int)),
                    (end_key(), SemModel::Int(*end as int)),
                    (entries_key(), SemModel::List(encode_entries(em))),
                ]);
            }
            SemanticValue::Rec(out)
        },
        DirectiveNode::Highlight { start, end, message } => {
            let mut out: Vec<(Vec<u8>, SemanticValue)> = Vec::new();
            out.push((kind_key_vec(), SemanticValue::Str(highlight_tag_vec())));
            out.push((start_key_vec(), SemanticValue::Int(*start as i64)));
            out.push((end_key_vec(), SemanticValue::Int(*end as i64)));
            out.push((message_key_vec(), SemanticValue::Str(bytes_clone(message))));
            proof {
                crate::value::lemma_sem_model_entries_index(out@);
                assert(sem_model_entries(out@) =~= seq![
                    (kind_key(), SemModel::Str(highlight_tag())),
                    (start_key(), SemModel::Int(*start as int)),
                    (end_key(), SemModel::Int(*end as int)),
                    (message_key(), SemModel::Str(message@)),
                ]);
            }
            SemanticValue::Rec(out)
        },
        DirectiveNode::Passthrough { kind, start, end, children, fields, value } => {
            let ghost dm = dir_model(*d);
            proof {
                assert(dm == DirModel::Passthrough {
                    kind: kind@,
                    start: *start as int,
                    end: *end as int,
                    children: match children {
                        Some(cs) => Some(crate::directive::dir_model_list(cs@)),
                        None => None,
                    },
                    fields: crate::directive::dir_model_fields(fields@),
                    value: match value {
                        Some(ValueSlot::Text(s)) => Some(SlotModel::Text(s@)),
                        Some(ValueSlot::Node(b)) => Some(SlotModel::Node(seq![dir_model(**b)])),
                        None => None,
                    },
                });
            }
            let mut out: Vec<(Vec<u8>, SemanticValue)> = Vec::new();
            out.push((kind_key_vec(), SemanticValue::Str(bytes_clone(kind))));
            out.push((start_key_vec(), SemanticValue::Int(*start as i64)));
            out.push((end_key_vec(), SemanticValue::Int(*end as i64)));
            let ghost base = seq![
                (kind_key(), SemModel::Str(kind@)),
                (start_key(), SemModel::Int(*start as int)),
                (end_key(), SemModel::Int(*end as int)),
            ];
            let ghost fm = crate::directive::dir_model_fields(fields@);
            proof {
                crate::value::lemma_sem_model_entries_index(out@);
                assert(sem_model_entries(out@) =~= base);
                crate::directive::lemma_dir_model_fields_index(fields@);
                lemma_dir_bounded_fields_index(fm);
                assert(fm.skip(0) =~= fm);
                assert(base + encode_fields(fm) =~= sem_model_entries(out@) + encode_fields(
                    fm.skip(0),
                ));
            }
            let mut i: usize = 0;
            while i < fields.len()
                invariant
                    0 <= i <= fields@.len(),
                    base + encode_fields(fm) == sem_model_entries(out@) + encode_fields(
                        fm.skip(i as int),
                    ),
                decreases fields@.len() - i,
            {
                proof {
                    assert(fm.skip(i as int)[0] == fm[i as int]);
                    assert(fm.skip(i as int).drop_first() =~= fm.skip(i as int + 1));
                    assert(decreases_to!(*d => fields@[i as int].1));
                }
                let ghost prev = out@;
                let encoded = encode(&fields[i].1);
                out.push((bytes_clone(&fields[i].0), encoded));
                proof {
                    crate::value::lemma_sem_model_entries_index(out@);
                    crate::value::lemma_sem_model_entries_index(prev);
                    assert(out@.drop_last() =~= prev);
                    assert(sem_model_entries(out@) =~= sem_model_entries(prev).push(
                        (fm[i as int].0, encode_spec(fm[i as int].1)),
                    ));
                    assert(sem_model_entries(prev) + (seq![
                        (fm[i as int].0, encode_spec(fm[i as int].1)),
                    ] + encode_fields(fm.skip(i as int + 1))) =~= sem_model_entries(out@)
                        + encode_fields(fm.skip(i as int + 1)));
                }
                i = i + 1;
            }
            proof {
                assert(fm.skip(i as int) =~= Seq::<(Seq<u8>, DirModel)>::empty());
                assert(sem_model_entries(out@) + Seq::<(Seq<u8>, SemModel)>::empty()
                    =~= sem_model_entries(out@));
                assert(sem_model_entries(out@) == base + encode_fields(fm));
            }
            match children {
                Some(cs) => {
                    let ghost cm = crate::directive::dir_model_list(cs@);
                    proof {
                        crate::directive::lemma_dir_model_list_index(cs@);
                        lemma_dir_bounded_list_index(cm);
                        assert(cm.skip(0) =~= cm);
                        assert(sem_model_list(Seq::<SemanticValue>::empty()) =~= Seq::<
                            SemModel,
                        >::empty());
                    }
                    let mut kids: Vec<SemanticValue> = Vec::new();
                    let mut j: usize = 0;
                    while j < cs.len()
                        invariant
                            0 <= j <= cs@.len(),
                            encode_list(cm) == sem_model_list(kids@) + encode_list(
                                cm.skip(j as int),
                            ),
                        decreases cs@.len() - j,
                    {
                        proof {
                            assert(cm.skip(j as int)[0] == cm[j as int]);
                            assert(cm.skip(j as int).drop_first() =~= cm.skip(j as int + 1));
                            assert(decreases_to!(*d => cs@[j as int]));
                        }
                        let ghost prev = kids@;
                        kids.push(encode(&cs[j]));
                        proof {
                            crate::value::lemma_sem_model_list_index(kids@);
                            crate::value::lemma_sem_model_list_index(prev);
                            assert(kids@.drop_last() =~= prev);
                            assert(sem_model_list(kids@) =~= sem_model_list(prev).push(
                                sem_model(kids@.last()),
                            ));
                            assert(sem_model_list(prev) + (seq![sem_model(kids@.last())]
                                + encode_list(cm.skip(j as int + 1))) =~= sem_model_list(kids@)
                                + encode_list(cm.skip(j as int + 1)));
                        }
                        j = j + 1;
                    }
                    proof {
                        assert(cm.skip(j as int) =~= Seq::<DirModel>::empty());
                        assert(sem_model_list(kids@) + Seq::<SemModel>::empty()
                            =~= sem_model_list(kids@));
                    }
                    let ghost prev = out@;
                    out.push((children_key_vec(), SemanticValue::List(kids)));
                    proof {
                        crate::value::lemma_sem_model_entries_index(out@);
                        crate::value::lemma_sem_model_entries_index(prev);
                        assert(out@.drop_last() =~= prev);
                        assert(sem_model_entries(out@) =~= base + encode_fields(fm) + seq![
                            (children_key(), SemModel::List(encode_list(cm))),
                        ]);
                    }
                },
                None => {
                    proof {
                        assert(sem_model_entries(out@) =~= base + encode_fields(fm) + Seq::<
                            (Seq<u8>, SemModel),
                        >::empty());
                    }
                },
            }
            let ghost with_children = sem_model_entries(out@);
            match value {
                Some(ValueSlot::Text(s)) => {
                    let ghost prev = out@;
                    out.push((value_key_vec(), SemanticValue::Str(bytes_clone(s))));
                    proof {
                        crate::value::lemma_sem_model_entries_index(out@);
                        crate::value::lemma_sem_model_entries_index(prev);
                        assert(out@.drop_last() =~= prev);
                        assert(sem_model_entries(out@) =~= with_children + seq![
                            (value_key(), SemModel::Str(s@)),
                        ]);
                    }
                },
                Some(ValueSlot::Node(b)) => {
                    proof {
                        assert(decreases_to!(*d => **b));
                        assert(seq![dir_model(**b)][0] == dir_model(**b));
                    }
                    let ghost prev = out@;
                    let encoded = encode(b);
                    out.push((value_key_vec(), encoded));
                    proof {
                        crate::value::lemma_sem_model_entries_index(out@);
                        crate::value::lemma_sem_model_entries_index(prev);
                        assert(out@.drop_last() =~= prev);
                        assert(sem_model_entries(out@) =~= with_children + seq![
                            (value_key(), encode_spec(dir_model(**b))),
                        ]);
                    }
                },
                None => {
                    proof {
                        assert(sem_model_entries(out@) =~= with_children + Seq::<
                            (Seq<u8>, SemModel),
                        >::empty());
                    }
                },
            }
            SemanticValue::Rec(out)
        },
    }
}

/// A value that decodes, and whose decoded directive encodes back to
/// the value itself.
pub open spec fn round_trip_ok(v: SemModel) -> bool {
    &&& decode_spec(v) is Some
    &&& encode_spec(decode_spec(v)->Some_0) == v
}

/// A key that is none of the five reserved record keys.
pub open spec fn plain_key(k: Seq<u8>) -> bool {
    k != kind_key() && k != start_key() && k != end_key() && k != children_key() && k
        != value_key()
}

/// A tree that keeps clear of the reserved vocabulary: no node kind is
/// a directive sentinel, and no field label is a reserved record key.
pub open spec fn reserved_free(n: SyntaxNode) -> bool
    decreases n,
{
    &&& n.kind@ != replace_tag()
    &&& n.kind@ != highlight_tag()
    &&& reserved_free_slots(n.slots@)
}

pub open spec fn reserved_free_slots(slots: Seq<ChildSlot>) -> bool
    decreases slots,
{
    slots.len() == 0 || ({
        &&& (slots[0].label matches Some(l) ==> plain_key(l@))
        &&& reserved_free(slots[0].child)
        &&& reserved_free_slots(slots.drop_first())
    })
}

proof fn lemma_reserved_free_slots_index(slots: Seq<ChildSlot>)
    requires
        reserved_free_slots(slots),
    ensures
        forall|i: int| 0 <= i < slots.len() ==> ((#[trigger] slots[i].label) matches Some(l)
            ==> plain_key(l@)),
        forall|i: int| 0 <= i < slots.len() ==> reserved_free(#[trigger] slots[i].child),
    decreases slots,
{
    if slots.len() > 0 {
        lemma_reserved_free_slots_index(slots.drop_first());
        assert forall|i: int| 1 <= i < slots.len() implies slots.drop_first()[i - 1] == slots[i]
            by {}
    }
}

/// The five reserved keys and the two sentinels are pairwise distinct.
proof fn lemma_keys_distinct()
    ensures
        kind_key().len() == 4,
        start_key().len() == 10,
        end_key().len() == 8,
        children_key().len() == 8,
        value_key().len() == 5,
        replace_tag().len() == 14,
        highlight_tag().len() == 16,
        end_key() != children_key(),
{
    assert(end_key()[0] == 101u8);
    assert(children_key()[0] == 99u8);
}

/// What a lookup finds in the three base entries.
proof fn lemma_base_get(n: SyntaxNode, q: Seq<u8>)
    ensures
        rec_get(base_entries(n), q) == if q == kind_key() {
            Some(SemModel::Str(n.kind@))
        } else if q == start_key() {
            Some(SemModel::Int(n.start as int))
        } else if q == end_key() {
            Some(SemModel::Int(n.end as int))
        } else {
            None::<SemModel>
        },
{
    let base = base_entries(n);
    assert(base[0] == (kind_key(), SemModel::Str(n.kind@)));
    assert(base.drop_first()[0] == base[1]);
    assert(base[1] == (start_key(), SemModel::Int(n.start as int)));
    assert(base.drop_first().drop_first()[0] == base[2]);
    assert(base[2] == (end_key(), SemModel::Int(n.end as int)));
    assert(base.drop_first().drop_first().drop_first() =~= Seq::<(Seq<u8>, SemModel)>::empty());
    assert(rec_get(Seq::<(Seq<u8>, SemModel)>::empty(), q) is None);
    assert(rec_get(base.drop_first().drop_first(), q) == if q == end_key() {
        Some(SemModel::Int(n.end as int))
    } else {
        rec_get(Seq::<(Seq<u8>, SemModel)>::empty(), q)
    });
    assert(rec_get(base.drop_first(), q) == if q == start_key() {
        Some(SemModel::Int(n.start as int))
    } else {
        rec_get(base.drop_first().drop_first(), q)
    });
}

/// A lookup in a concatenation reads the left part first.
proof fn lemma_rec_get_concat(a: Seq<(Seq<u8>, SemModel)>, b: Seq<(Seq<u8>, SemModel)>, q: Seq<u8>)
    ensures
        rec_get(a + b, q) == if rec_has(a, q) {
            rec_get(a, q)
        } else {
            rec_get(b, q)
        },
    decreases a,
{
    if a.len() == 0 {
        assert(a + b =~= b);
    } else {
        assert((a + b)[0] == a[0]);
        assert((a + b).drop_first() =~= a.drop_first() + b);
        lemma_rec_get_concat(a.drop_first(), b, q);
    }
}

/// Every key of a record differs from `q`: the lookup finds nothing.
proof fn lemma_rec_get_none(entries: Seq<(Seq<u8>, SemModel)>, q: Seq<u8>)
    requires
        forall|j: int| 0 <= j < entries.len() ==> (#[trigger] entries[j].0) != q,
    ensures
        rec_get(entries, q) is None,
    decreases entries,
{
    if entries.len() > 0 {
        assert(entries[0].0 != q);
        assert forall|j: int| 0 <= j < entries.drop_first().len() implies (
        #[trigger] entries.drop_first()[j].0) != q by {
            assert(entries.drop_first()[j] == entries[j + 1]);
        }
        lemma_rec_get_none(entries.drop_first(), q);
    }
}

/// Inserting an absent key appends it.
proof fn lemma_rec_insert_absent(entries: Seq<(Seq<u8>, SemModel)>, k: Seq<u8>, v: SemModel)
    requires
        !rec_has(entries, k),
    ensures
        rec_insert(entries, k, v) == entries + seq![(k, v)],
    decreases entries,
{
    if entries.len() == 0 {
        assert(entries + seq![(k, v)] =~= seq![(k, v)]);
    } else {
        assert(entries[0].0 != k);
        lemma_rec_insert_absent(entries.drop_first(), k, v);
        assert(seq![entries[0]] + (entries.drop_first() + seq![(k, v)]) =~= entries + seq![
            (k, v),
        ]);
    }
}

/// A good field entry: a plain key, and a value that round-trips.
pub open spec fn good_field(e: (Seq<u8>, SemModel)) -> bool {
    plain_key(e.0) && round_trip_ok(e.1)
}

pub open spec fn all_fields_good(f: Seq<(Seq<u8>, SemModel)>) -> bool {
    forall|j: int| 0 <= j < f.len() ==> good_field(#[trigger] f[j])
}

pub open spec fn all_list_good(ks: Seq<SemModel>) -> bool {
    forall|j: int| 0 <= j < ks.len() ==> round_trip_ok(#[trigger] ks[j])
}

/// Inserting a good entry into a good record keeps every entry good.
proof fn lemma_rec_insert_good(f: Seq<(Seq<u8>, SemModel)>, k: Seq<u8>, v: SemModel)
    requires
        all_fields_good(f),
        good_field((k, v)),
    ensures
        all_fields_good(rec_insert(f, k, v)),
    decreases f,
{
    if f.len() == 0 {
        assert forall|j: int| 0 <= j < seq![(k, v)].len() implies good_field(
            #[trigger] seq![(k, v)][j],
        ) by {
            assert(seq![(k, v)][j] == (k, v));
        }
    } else if f[0].0 == k {
        let r = seq![(k, v)] + f.drop_first();
        assert forall|j: int| 0 <= j < r.len() implies good_field(#[trigger] r[j]) by {
            if j == 0 {
                assert(r[0] == (k, v));
            } else {
                assert(r[j] == f.drop_first()[j - 1]);
                assert(f.drop_first()[j - 1] == f[j]);
            }
        }
    } else {
        assert forall|j: int| 0 <= j < f.drop_first().len() implies good_field(
            #[trigger] f.drop_first()[j],
        ) by {
            assert(f.drop_first()[j] == f[j + 1]);
        }
        lemma_rec_insert_good(f.drop_first(), k, v);
        let r = seq![f[0]] + rec_insert(f.drop_first(), k, v);
        assert forall|j: int| 0 <= j < r.len() implies good_field(#[trigger] r[j]) by {
            if j == 0 {
                assert(r[0] == f[0]);
            } else {
                assert(r[j] == rec_insert(f.drop_first(), k, v)[j - 1]);
            }
        }
    }
}

/// Folding slots into `base + f` keeps the base in place: the labels
/// are plain keys, absent from the base.
proof fn lemma_fold_split(
    n: SyntaxNode,
    f: Seq<(Seq<u8>, SemModel)>,
    kids: Seq<SemModel>,
    slots: Seq<ChildSlot>,
    src: Seq<u8>,
)
    requires
        forall|i: int| 0 <= i < slots.len() ==> ((#[trigger] slots[i].label) matches Some(l)
            ==> plain_key(l@)),
    ensures
        convert_slots(base_entries(n) + f, kids, slots, src).0 == base_entries(n)
            + convert_slots(f, kids, slots, src).0,
        convert_slots(base_entries(n) + f, kids, slots, src).1 == convert_slots(
            f,
            kids,
            slots,
            src,
        ).1,
    decreases slots,
{
    let base = base_entries(n);
    if slots.len() == 0 {
    } else {
        let c = convert_model(slots[0].child, src);
        assert forall|i: int| 0 <= i < slots.drop_first().len() implies ((
        #[trigger] slots.drop_first()[i].label) matches Some(l) ==> plain_key(l@)) by {
            assert(slots.drop_first()[i] == slots[i + 1]);
        }
        match slots[0].label {
            Some(name) => {
                lemma_base_get(n, name@);
                lemma_rec_get_concat(base, f, name@);
                lemma_insert_concat(base, f, name@, c);
                lemma_fold_split(n, rec_insert(f, name@, c), kids, slots.drop_first(), src);
            },
            None => {
                lemma_fold_split(n, f, kids.push(c), slots.drop_first(), src);
            },
        }
    }
}

/// Inserting a key absent from the left part of a concatenation inserts
/// into the right part.
proof fn lemma_insert_concat(
    a: Seq<(Seq<u8>, SemModel)>,
    b: Seq<(Seq<u8>, SemModel)>,
    k: Seq<u8>,
    v: SemModel,
)
    requires
        !rec_has(a, k),
    ensures
        rec_insert(a + b, k, v) == a + rec_insert(b, k, v),
    decreases a,
{
    if a.len() == 0 {
        assert(a + b =~= b);
        assert(a + rec_insert(b, k, v) =~= rec_insert(b, k, v));
    } else {
        assert((a + b)[0] == a[0]);
        assert(a[0].0 != k);
        assert((a + b).drop_first() =~= a.drop_first() + b);
        lemma_insert_concat(a.drop_first(), b, k, v);
        assert(seq![a[0]] + (a.drop_first() + rec_insert(b, k, v)) =~= a + rec_insert(b, k, v));
    }
}

/// Folding good slots onto good accumulators yields good accumulators.
proof fn lemma_fold_good(
    f: Seq<(Seq<u8>, SemModel)>,
    kids: Seq<SemModel>,
    slots: Seq<ChildSlot>,
    src: Seq<u8>,
)
    requires
        all_fields_good(f),
        all_list_good(kids),
        forall|i: int| 0 <= i < slots.len() ==> ((#[trigger] slots[i].label) matches Some(l)
            ==> plain_key(l@)),
        forall|i: int| 0 <= i < slots.len() ==> round_trip_ok(convert_model(
            (#[trigger] slots[i]).child,
            src,
        )),
    ensures
        all_fields_good(convert_slots(f, kids, slots, src).0),
        all_list_good(convert_slots(f, kids, slots, src).1),
    decreases slots,
{
    if slots.len() > 0 {
        let c = convert_model(slots[0].child, src);
        assert(round_trip_ok(c));
        assert forall|i: int| 0 <= i < slots.drop_first().len() implies ((
        #[trigger] slots.drop_first()[i].label) matches Some(l) ==> plain_key(l@)) by {
            assert(slots.drop_first()[i] == slots[i + 1]);
        }
        assert forall|i: int| 0 <= i < slots.drop_first().len() implies round_trip_ok(
            convert_model((#[trigger] slots.drop_first()[i]).child, src),
        ) by {
            assert(slots.drop_first()[i] == slots[i + 1]);
        }
        match slots[0].label {
            Some(name) => {
                lemma_rec_insert_good(f, name@, c);
                lemma_fold_good(rec_insert(f, name@, c), kids, slots.drop_first(), src);
            },
            None => {
                let k2 = kids.push(c);
                assert forall|j: int| 0 <= j < k2.len() implies round_trip_ok(
                    #[trigger] k2[j],
                ) by {
                    if j < kids.len() {
                        assert(k2[j] == kids[j]);
                    } else {
                        assert(k2[j] == c);
                    }
                }
                lemma_fold_good(f, k2, slots.drop_first(), src);
            },
        }
    }
}

/// The decoded directives of a good field run, key by key.
pub open spec fn dec_fields(f: Seq<(Seq<u8>, SemModel)>) -> Seq<(Seq<u8>, DirModel)>
    decreases f,
{
    if f.len() == 0 {
        Seq::empty()
    } else {
        seq![(f[0].0, decode_spec(f[0].1)->Some_0)] + dec_fields(f.drop_first())
    }
}

/// The decoded directives of a good children run.
pub open spec fn dec_list(ks: Seq<SemModel>) -> Seq<DirModel>
    decreases ks,
{
    if ks.len() == 0 {
        Seq::empty()
    } else {
        seq![decode_spec(ks[0])->Some_0] + dec_list(ks.drop_first())
    }
}

/// A good children run decodes element-wise.
proof fn lemma_decode_list_good(ks: Seq<SemModel>)
    requires
        all_list_good(ks),
    ensures
        decode_list_spec(ks) == Some(dec_list(ks)),
    decreases ks,
{
    if ks.len() > 0 {
        assert(round_trip_ok(ks[0]));
        assert forall|j: int| 0 <= j < ks.drop_first().len() implies round_trip_ok(
            #[trigger] ks.drop_first()[j],
        ) by {
            assert(ks.drop_first()[j] == ks[j + 1]);
        }
        lemma_decode_list_good(ks.drop_first());
    }
}

/// Encoding the decode of a good children run gives the run back.
proof fn lemma_encode_dec_list(ks: Seq<SemModel>)
    requires
        all_list_good(ks),
    ensures
        encode_list(dec_list(ks)) == ks,
    decreases ks,
{
    if ks.len() == 0 {
        assert(encode_list(dec_list(ks)) =~= ks);
    } else {
        assert(round_trip_ok(ks[0]));
        assert forall|j: int| 0 <= j < ks.drop_first().len() implies round_trip_ok(
            #[trigger] ks.drop_first()[j],
        ) by {
            assert(ks.drop_first()[j] == ks[j + 1]);
        }
        lemma_encode_dec_list(ks.drop_first());
        assert(dec_list(ks)[0] == decode_spec(ks[0])->Some_0);
        assert(dec_list(ks).drop_first() =~= dec_list(ks.drop_first()));
        assert(encode_list(dec_list(ks)) =~= seq![ks[0]] + encode_list(
            dec_list(ks.drop_first()),
        ));
        assert(seq![ks[0]] + ks.drop_first() =~= ks);
    }
}

/// Encoding the decode of a good field run gives the run back.
proof fn lemma_encode_dec_fields(f: Seq<(Seq<u8>, SemModel)>)
    requires
        all_fields_good(f),
    ensures
        encode_fields(dec_fields(f)) == f,
    decreases f,
{
    if f.len() == 0 {
        assert(encode_fields(dec_fields(f)) =~= f);
    } else {
        assert(good_field(f[0]));
        assert forall|j: int| 0 <= j < f.drop_first().len() implies good_field(
            #[trigger] f.drop_first()[j],
        ) by {
            assert(f.drop_first()[j] == f[j + 1]);
        }
        lemma_encode_dec_fields(f.drop_first());
        assert(dec_fields(f)[0] == (f[0].0, decode_spec(f[0].1)->Some_0));
        assert(dec_fields(f).drop_first() =~= dec_fields(f.drop_first()));
        assert(encode_fields(dec_fields(f)) =~= seq![f[0]] + encode_fields(
            dec_fields(f.drop_first()),
        ));
        assert(seq![f[0]] + f.drop_first() =~= f);
    }
}

/// The decoder's walk skips the three base entries.
proof fn lemma_pass_base(
    n: SyntaxNode,
    t: Seq<(Seq<u8>, SemModel)>,
    c: Option<Seq<DirModel>>,
    f: Seq<(Seq<u8>, DirModel)>,
    v: Option<SlotModel>,
)
    ensures
        decode_pass_rest(base_entries(n) + t, c, f, v) == decode_pass_rest(t, c, f, v),
{
    let base = base_entries(n);
    let e = base + t;
    assert(e[0] == base[0]);
    assert(e[0].0 == kind_key());
    assert(e.drop_first() =~= base.drop_first() + t);
    let e1 = base.drop_first() + t;
    assert(e1[0] == base[1]);
    assert(e1[0].0 == start_key());
    assert(e1.drop_first() =~= base.drop_first().drop_first() + t);
    let e2 = base.drop_first().drop_first() + t;
    assert(e2[0] == base[2]);
    assert(e2[0].0 == end_key());
    assert(e2.drop_first() =~= t);
    assert(decode_pass_rest(e, c, f, v) == decode_pass_rest(e1, c, f, v));
    assert(decode_pass_rest(e1, c, f, v) == decode_pass_rest(e2, c, f, v));
    assert(decode_pass_rest(e2, c, f, v) == decode_pass_rest(t, c, f, v));
}

/// The decoder's walk turns a good field run into decoded fields.
proof fn lemma_pass_fields(
    f: Seq<(Seq<u8>, SemModel)>,
    t: Seq<(Seq<u8>, SemModel)>,
    c: Option<Seq<DirModel>>,
    facc: Seq<(Seq<u8>, DirModel)>,
    v: Option<SlotModel>,
)
    requires
        all_fields_good(f),
    ensures
        decode_pass_rest(f + t, c, facc, v) == decode_pass_rest(t, c, facc + dec_fields(f), v),
    decreases f,
{
    lemma_keys_distinct();
    if f.len() == 0 {
        assert(f + t =~= t);
        assert(facc + dec_fields(f) =~= facc);
    } else {
        assert(good_field(f[0]));
        assert forall|j: int| 0 <= j < f.drop_first().len() implies good_field(
            #[trigger] f.drop_first()[j],
        ) by {
            assert(f.drop_first()[j] == f[j + 1]);
        }
        let e = f + t;
        assert(e[0] == f[0]);
        assert(e.drop_first() =~= f.drop_first() + t);
        let d0 = decode_spec(f[0].1)->Some_0;
        lemma_pass_fields(f.drop_first(), t, c, facc.push((f[0].0, d0)), v);
        assert(facc.push((f[0].0, d0)) + dec_fields(f.drop_first()) =~= facc + dec_fields(f));
    }
}

/// The round trip of one node's conversion.
pub proof fn lemma_identity_round_trip(n: SyntaxNode, src: Seq<u8>)
    requires
        reserved_free(n),
    ensures
        round_trip_ok(convert_model(n, src)),
    decreases n, 1int,
{
    lemma_keys_distinct();
    lemma_reserved_free_slots_index(n.slots@);
    lemma_children_round_trip(n.slots@, src);
    let base = base_entries(n);
    let slots = n.slots@;
    // Split the fold from the base.
    assert(base + Seq::<(Seq<u8>, SemModel)>::empty() =~= base);
    lemma_fold_split(n, Seq::empty(), Seq::empty(), slots, src);
    let folded = convert_slots(Seq::empty(), Seq::empty(), slots, src);
    let f = folded.0;
    let kids = folded.1;
    assert(convert_slots(base, Seq::empty(), slots, src).0 == base + f);
    assert(convert_slots(base, Seq::empty(), slots, src).1 == kids);
    // The folded accumulators are good.
    assert(all_fields_good(Seq::empty()));
    assert(all_list_good(Seq::empty()));
    lemma_fold_good(Seq::empty(), Seq::empty(), slots, src);
    // The record the converter builds, as a concatenation.
    let c_part: Seq<(Seq<u8>, SemModel)> = if kids.len() > 0 {
        seq![(children_key(), SemModel::List(kids))]
    } else {
        Seq::empty()
    };
    let v_part: Seq<(Seq<u8>, SemModel)> = if slots.len() == 0 {
        seq![(value_key(), SemModel::Str(src.subrange(n.start as int, n.end as int)))]
    } else {
        Seq::empty()
    };
    assert forall|j: int| 0 <= j < f.len() implies (#[trigger] f[j].0) != children_key() by {
        assert(good_field(f[j]));
    }
    lemma_rec_get_none(f, children_key());
    lemma_rec_get_concat(base, f, children_key());
    lemma_base_get(n, children_key());
    if kids.len() > 0 {
        lemma_rec_insert_absent(base + f, children_key(), SemModel::List(kids));
    }
    let with_children = if kids.len() > 0 {
        rec_insert(base + f, children_key(), SemModel::List(kids))
    } else {
        base + f
    };
    assert(with_children =~= base + f + c_part);
    assert forall|j: int| 0 <= j < (f + c_part).len() implies ((#[trigger] (f + c_part)[j]).0)
        != value_key() by {
        if j < f.len() {
            assert((f + c_part)[j] == f[j]);
            assert(good_field(f[j]));
        } else {
            assert((f + c_part)[j] == c_part[j - f.len()]);
        }
    }
    lemma_rec_get_none(f + c_part, value_key());
    lemma_rec_get_concat(base, f + c_part, value_key());
    lemma_base_get(n, value_key());
    assert(base + f + c_part =~= base + (f + c_part));
    if slots.len() == 0 {
        lemma_rec_insert_absent(
            base + (f + c_part),
            value_key(),
            SemModel::Str(src.subrange(n.start as int, n.end as int)),
        );
    }
    let ents = if slots.len() == 0 {
        rec_insert(
            with_children,
            value_key(),
            SemModel::Str(src.subrange(n.start as int, n.end as int)),
        )
    } else {
        with_children
    };
    assert(convert_model(n, src) == SemModel::Rec(ents));
    assert(ents =~= base + (f + (c_part + v_part)));
    // Decode: the kind entry picks the structural branch.
    let tail = f + (c_part + v_part);
    lemma_rec_get_concat(base, tail, kind_key());
    lemma_base_get(n, kind_key());
    assert(rec_get(ents, kind_key()) == Some(SemModel::Str(n.kind@)));
    lemma_rec_get_concat(base, tail, start_key());
    lemma_base_get(n, start_key());
    lemma_rec_get_concat(base, tail, end_key());
    lemma_base_get(n, end_key());
    assert(crate::directive::span_spec(ents) == Some((n.start as int, n.end as int)));
    // Walk the record.
    lemma_pass_base(n, tail, None, Seq::empty(), None);
    lemma_pass_fields(f, c_part + v_part, None, Seq::empty(), None);
    assert(Seq::<(Seq<u8>, DirModel)>::empty() + dec_fields(f) =~= dec_fields(f));
    let fdec = dec_fields(f);
    let c_opt: Option<Seq<DirModel>> = if kids.len() > 0 {
        Some(dec_list(kids))
    } else {
        None
    };
    let v_opt: Option<SlotModel> = if slots.len() == 0 {
        Some(SlotModel::Text(src.subrange(n.start as int, n.end as int)))
    } else {
        None
    };
    if kids.len() > 0 {
        let cv = c_part + v_part;
        assert(v_part =~= Seq::<(Seq<u8>, SemModel)>::empty());
        assert(cv =~= c_part);
        assert(cv[0] == (children_key(), SemModel::List(kids)));
        lemma_decode_list_good(kids);
        assert(cv.drop_first() =~= Seq::<(Seq<u8>, SemModel)>::empty());
        assert(decode_pass_rest(cv, None, fdec, None) == decode_pass_rest(
            Seq::empty(),
            Some(dec_list(kids)),
            fdec,
            None,
        ));
    } else if slots.len() == 0 {
        let cv = c_part + v_part;
        assert(cv =~= v_part);
        assert(cv[0] == (value_key(), SemModel::Str(
            src.subrange(n.start as int, n.end as int),
        )));
        assert(cv.drop_first() =~= Seq::<(Seq<u8>, SemModel)>::empty());
        assert(decode_pass_rest(cv, None, fdec, None) == decode_pass_rest(
            Seq::empty(),
            None,
            fdec,
            Some(SlotModel::Text(src.subrange(n.start as int, n.end as int))),
        ));
    } else {
        assert(c_part + v_part =~= Seq::<(Seq<u8>, SemModel)>::empty());
    }
    assert(decode_pass_rest(Seq::empty(), c_opt, fdec, v_opt) == Some((c_opt, fdec, v_opt)));
    assert(decode_pass_rest(c_part + v_part, None, fdec, None) == Some((c_opt, fdec, v_opt)));
    let d = DirModel::Passthrough {
        kind: n.kind@,
        start: n.start as int,
        end: n.end as int,
        children: c_opt,
        fields: fdec,
        value: v_opt,
    };
    assert(decode_pass_spec(n.kind@, ents) == Some(d));
    assert(decode_spec(convert_model(n, src)) == Some(d));
    // Encode: the canonical layout is exactly the converter's.
    lemma_encode_dec_fields(f);
    if kids.len() > 0 {
        lemma_encode_dec_list(kids);
    }
    assert(encode_spec(d) == SemModel::Rec(
        seq![
            (kind_key(), SemModel::Str(n.kind@)),
            (start_key(), SemModel::Int(n.start as int)),
            (end_key(), SemModel::Int(n.end as int)),
        ] + encode_fields(fdec) + c_part + v_part,
    ));
    assert(seq![
        (kind_key(), SemModel::Str(n.kind@)),
        (start_key(), SemModel::Int(n.start as int)),
        (end_key(), SemModel::Int(n.end as int)),
    ] =~= base);
    assert(base + f + c_part + v_part =~= base + (f + (c_part + v_part)));
    assert(encode_spec(d) == SemModel::Rec(ents));
}

/// Every child of a run of slots round-trips.
proof fn lemma_children_round_trip(slots: Seq<ChildSlot>, src: Seq<u8>)
    requires
        reserved_free_slots(slots),
    ensures
        forall|i: int| 0 <= i < slots.len() ==> round_trip_ok(convert_model(
            (#[trigger] slots[i]).child,
            src,
        )),
    decreases slots, 0int,
{
    if slots.len() > 0 {
        lemma_identity_round_trip(slots[0].child, src);
        lemma_children_round_trip(slots.drop_first(), src);
        assert forall|i: int| 0 <= i < slots.len() implies round_trip_ok(convert_model(
            (#[trigger] slots[i]).child,
            src,
        )) by {
            if i > 0 {
                assert(slots.drop_first()[i - 1] == slots[i]);
            }
        }
    }
}

} // verus!
