//! The value converter: one semantic value per syntax tree node.
//!
//! For a node it builds a record holding `kind`, `start_byte` and
//! `end_byte`; each named child with a grammar-assigned field name is
//! converted recursively and stored under that name, every other named
//! child is converted and appended to a `children` sequence, attached
//! only when non-empty; and a node with no named children at all gets a
//! `value` entry holding the verbatim source slice for its span.

use vstd::prelude::*;

use crate::syntax::{lemma_slots_wf_index, node_wf, ChildSlot, SyntaxNode};
use crate::value::{
    children_key, children_key_vec, end_key, end_key_vec, kind_key, kind_key_vec, rec_insert,
    sem_model, sem_model_entries, sem_model_list, start_key, start_key_vec, value_key,
    value_key_vec, SemModel, SemanticValue,
};
use vstd::slice::{slice_subrange, slice_to_vec};

verus! {

/// The largest byte offset a converted value can carry: offsets travel
/// as 64-bit signed integers.
pub open spec fn max_offset() -> int {
    0x7fff_ffff_ffff_ffff
}

/// The three entries every converted node starts from.
pub open spec fn base_entries(n: SyntaxNode) -> Seq<(Seq<u8>, SemModel)> {
    seq![
        (kind_key(), SemModel::Str(n.kind@)),
        (start_key(), SemModel::Int(n.start as int)),
        (end_key(), SemModel::Int(n.end as int)),
    ]
}

/// Folds the named children into the record under construction, left to
/// right: a labelled child is inserted under its label, an unlabelled one
/// is appended to the accumulating children sequence.
pub open spec fn convert_slots(
    ents: Seq<(Seq<u8>, SemModel)>,
    kids: Seq<SemModel>,
    slots: Seq<ChildSlot>,
    src: Seq<u8>,
) -> (Seq<(Seq<u8>, SemModel)>, Seq<SemModel>)
    decreases slots,
{
    if slots.len() == 0 {
        (ents, kids)
    } else {
        let c = convert_model(slots[0].child, src);
        match slots[0].label {
            Some(name) => convert_slots(
                rec_insert(ents, name@, c),
                kids,
                slots.drop_first(),
                src,
            ),
            None => convert_slots(ents, kids.push(c), slots.drop_first(), src),
        }
    }
}

/// The semantic value of a syntax node: the exact shape the converter
/// produces.
pub open spec fn convert_model(n: SyntaxNode, src: Seq<u8>) -> SemModel
    decreases n,
{
    let folded = convert_slots(base_entries(n), Seq::empty(), n.slots@, src);
    let with_children = if folded.1.len() > 0 {
        rec_insert(folded.0, children_key(), SemModel::List(folded.1))
    } else {
        folded.0
    };
    let with_value = if n.slots@.len() == 0 {
        rec_insert(
            with_children,
            value_key(),
            SemModel::Str(src.subrange(n.start as int, n.end as int)),
        )
    } else {
        with_children
    };
    SemModel::Rec(with_value)
}

/// Folding a concatenation folds the first part, then the second from
/// where the first left off.
proof fn lemma_convert_slots_concat(
    ents: Seq<(Seq<u8>, SemModel)>,
    kids: Seq<SemModel>,
    s1: Seq<ChildSlot>,
    s2: Seq<ChildSlot>,
    src: Seq<u8>,
)
    ensures
        convert_slots(ents, kids, s1 + s2, src) == convert_slots(
            convert_slots(ents, kids, s1, src).0,
            convert_slots(ents, kids, s1, src).1,
            s2,
            src,
        ),
    decreases s1,
{
    if s1.len() == 0 {
        assert(s1 + s2 =~= s2);
    } else {
        let cat = s1 + s2;
        assert(cat[0] == s1[0]);
        assert(cat.drop_first() =~= s1.drop_first() + s2);
        let c = convert_model(s1[0].child, src);
        match s1[0].label {
            Some(name) => {
                lemma_convert_slots_concat(rec_insert(ents, name@, c), kids, s1.drop_first(), s2, src);
            },
            None => {
                lemma_convert_slots_concat(ents, kids.push(c), s1.drop_first(), s2, src);
            },
        }
    }
}

/// Clones a byte string.
pub fn bytes_clone(v: &Vec<u8>) -> (r: Vec<u8>)
    ensures
        r@ == v@,
{
    slice_to_vec(v.as_slice())
}

/// Converts a syntax node into its semantic value.
#[verifier::loop_isolation(false)]
pub fn convert(n: &SyntaxNode, source: &[u8]) -> (r: SemanticValue)
    requires
        node_wf(*n, source@.len() as int),
        source@.len() <= max_offset(),
    ensures
        sem_model(r) == convert_model(*n, source@),
    decreases *n,
{
    let mut entries: Vec<(Vec<u8>, SemanticValue)> = Vec::new();
    entries.push((kind_key_vec(), SemanticValue::Str(bytes_clone(&n.kind))));
    entries.push((start_key_vec(), SemanticValue::Int(n.start as i64)));
    entries.push((end_key_vec(), SemanticValue::Int(n.end as i64)));
    proof {
        crate::value::lemma_sem_model_entries_index(entries@);
        assert(sem_model_entries(entries@) =~= base_entries(*n));
    }
    let mut kids: Vec<SemanticValue> = Vec::new();
    proof {
        assert(sem_model_list(kids@) =~= Seq::<SemModel>::empty());
        assert(n.slots@.take(0) =~= Seq::<ChildSlot>::empty());
        lemma_slots_wf_index(n.slots@, source@.len() as int);
    }
    let mut i: usize = 0;
    while i < n.slots.len()
        invariant
            0 <= i <= n.slots@.len(),
            (sem_model_entries(entries@), sem_model_list(kids@)) == convert_slots(
                base_entries(*n),
                Seq::<SemModel>::empty(),
                n.slots@.take(i as int),
                source@,
            ),
        decreases n.slots@.len() - i,
    {
        proof {
            assert(decreases_to!(*n => n.slots@[i as int].child));
        }
        let slot = &n.slots[i];
        let c = convert(&slot.child, source);
        let ghost s1 = seq![n.slots@[i as int]];
        let ghost e_i = sem_model_entries(entries@);
        let ghost k_i = sem_model_list(kids@);
        proof {
            assert(n.slots@.take(i as int + 1) =~= n.slots@.take(i as int) + s1);
            lemma_convert_slots_concat(
                base_entries(*n),
                Seq::<SemModel>::empty(),
                n.slots@.take(i as int),
                s1,
                source@,
            );
            assert(s1[0] == n.slots@[i as int]);
            assert(s1.drop_first() =~= Seq::<ChildSlot>::empty());
        }
        match &slot.label {
            Some(name) => {
                let key = bytes_clone(name);
                record_insert(&mut entries, key, c);
                proof {
                    let e2 = rec_insert(e_i, name@, sem_model(c));
                    assert(convert_slots(e2, k_i, Seq::<ChildSlot>::empty(), source@) == (
                        e2,
                        k_i,
                    ));
                    assert(convert_slots(e_i, k_i, s1, source@) == (e2, k_i));
                }
            },
            None => {
                let ghost prev = kids@;
                kids.push(c);
                proof {
                    crate::value::lemma_sem_model_list_index(kids@);
                    crate::value::lemma_sem_model_list_index(prev);
                    assert(sem_model_list(kids@) =~= sem_model_list(prev).push(sem_model(c)));
                    let k2 = k_i.push(sem_model(c));
                    assert(convert_slots(e_i, k2, Seq::<ChildSlot>::empty(), source@) == (
                        e_i,
                        k2,
                    ));
                    assert(convert_slots(e_i, k_i, s1, source@) == (e_i, k2));
                }
            },
        }
        i = i + 1;
    }
    proof {
        assert(n.slots@.take(i as int) =~= n.slots@);
    }
    if kids.len() > 0 {
        record_insert(&mut entries, children_key_vec(), SemanticValue::List(kids));
    }
    if n.slots.len() == 0 {
        let piece = slice_to_vec(slice_subrange(source, n.start, n.end));
        record_insert(&mut entries, value_key_vec(), SemanticValue::Str(piece));
    }
    SemanticValue::Rec(entries)
}

/// Inserts a key into a record: an existing key keeps its place and gets
/// the new value, a new key goes to the end.
#[verifier::loop_isolation(false)]
pub fn record_insert(entries: &mut Vec<(Vec<u8>, SemanticValue)>, key: Vec<u8>, value: SemanticValue)
    ensures
        sem_model_entries(final(entries)@) == rec_insert(
            sem_model_entries(old(entries)@),
            key@,
            sem_model(value),
        ),
{
    proof {
        assert(entries@.skip(0) =~= entries@);
        assert(entries@.take(0) =~= Seq::<(Vec<u8>, SemanticValue)>::empty());
        assert(sem_model_entries(Seq::<(Vec<u8>, SemanticValue)>::empty())
            =~= Seq::<(Seq<u8>, SemModel)>::empty());
    }
    let ghost orig = entries@;
    let mut i: usize = 0;
    while i < entries.len()
        invariant
            0 <= i <= entries@.len(),
            entries@ == orig,
            rec_insert(sem_model_entries(orig), key@, sem_model(value)) == sem_model_entries(
                orig.take(i as int),
            ) + rec_insert(sem_model_entries(orig.skip(i as int)), key@, sem_model(value)),
        decreases entries@.len() - i,
    {
        proof {
            crate::value::lemma_sem_model_entries_index(orig.skip(i as int));
            assert(orig.skip(i as int)[0] == orig[i as int]);
            assert(orig.skip(i as int).drop_first() =~= orig.skip(i as int + 1));
            crate::value::lemma_sem_model_entries_index(orig.skip(i as int + 1));
            assert(sem_model_entries(orig.skip(i as int)).drop_first() =~= sem_model_entries(
                orig.skip(i as int + 1),
            ));
        }
        if crate::value::bytes_eq(entries[i].0.as_slice(), key.as_slice()) {
            proof {
                assert(sem_model_entries(orig.skip(i as int))[0] == (key@, sem_model(
                    orig[i as int].1,
                )));
                assert(rec_insert(sem_model_entries(orig.skip(i as int)), key@, sem_model(value))
                    == seq![(key@, sem_model(value))] + sem_model_entries(
                    orig.skip(i as int),
                ).drop_first());
            }
            let ghost key_snap = key@;
            let ghost value_snap = sem_model(value);
            let _ = entries.remove(i);
            entries.insert(i, (key, value));
            proof {
                crate::value::lemma_sem_model_entries_index(entries@);
                crate::value::lemma_sem_model_entries_index(orig);
                crate::value::lemma_sem_model_entries_index(orig.take(i as int));
                assert(sem_model_entries(entries@) =~= sem_model_entries(orig.take(i as int))
                    + (seq![(key_snap, value_snap)] + sem_model_entries(orig.skip(i as int + 1))));
                assert(sem_model_entries(orig.skip(i as int)).drop_first() == sem_model_entries(
                    orig.skip(i as int + 1),
                ));
                assert(rec_insert(sem_model_entries(orig), key_snap, value_snap)
                    == sem_model_entries(orig.take(i as int)) + (seq![(key_snap, value_snap)]
                    + sem_model_entries(orig.skip(i as int + 1))));
                assert(sem_model_entries(entries@) == rec_insert(
                    sem_model_entries(orig),
                    key_snap,
                    value_snap,
                ));
            }
            return;
        }
        proof {
            assert(orig.take(i as int + 1) =~= orig.take(i as int) + seq![orig[i as int]]);
            crate::value::lemma_sem_model_entries_index(orig.take(i as int));
            crate::value::lemma_sem_model_entries_index(orig.take(i as int + 1));
            assert(sem_model_entries(orig.take(i as int + 1)) =~= sem_model_entries(
                orig.take(i as int),
            ) + seq![(orig[i as int].0@, sem_model(orig[i as int].1))]);
        }
        i = i + 1;
    }
    proof {
        assert(orig.skip(i as int) =~= Seq::<(Vec<u8>, SemanticValue)>::empty());
        assert(orig.take(i as int) =~= orig);
    }
    entries.push((key, value));
    proof {
        crate::value::lemma_sem_model_entries_index(entries@);
        crate::value::lemma_sem_model_entries_index(orig);
        assert(sem_model_entries(entries@) =~= sem_model_entries(orig) + seq![
            (key@, sem_model(value)),
        ]);
        assert(rec_insert(sem_model_entries(orig), key@, sem_model(value)) =~= sem_model_entries(
            orig,
        ) + seq![(key@, sem_model(value))]);
    }
}


/// The entries of the record a node converts to.
pub open spec fn converted_entries(n: SyntaxNode, src: Seq<u8>) -> Seq<(Seq<u8>, SemModel)> {
    match convert_model(n, src) {
        SemModel::Rec(ents) => ents,
        _ => Seq::empty(),
    }
}

/// Folding slots whose labels all differ from `q` leaves the lookup of
/// `q` unchanged.
proof fn lemma_convert_slots_get(
    ents: Seq<(Seq<u8>, SemModel)>,
    kids: Seq<SemModel>,
    slots: Seq<ChildSlot>,
    src: Seq<u8>,
    q: Seq<u8>,
)
    requires
        forall|i: int| 0 <= i < slots.len() ==> ((#[trigger] slots[i].label) matches Some(l)
            ==> l@ != q),
    ensures
        crate::value::rec_get(convert_slots(ents, kids, slots, src).0, q)
            == crate::value::rec_get(ents, q),
    decreases slots,
{
    if slots.len() > 0 {
        let c = convert_model(slots[0].child, src);
        assert(slots[0] == slots[0]);
        assert forall|i: int| 0 <= i < slots.drop_first().len() implies ((
        #[trigger] slots.drop_first()[i].label) matches Some(l) ==> l@ != q) by {
            assert(slots.drop_first()[i] == slots[i + 1]);
        }
        match slots[0].label {
            Some(name) => {
                crate::value::lemma_rec_insert_get(ents, name@, c, q);
                lemma_convert_slots_get(
                    crate::value::rec_insert(ents, name@, c),
                    kids,
                    slots.drop_first(),
                    src,
                    q,
                );
            },
            None => {
                lemma_convert_slots_get(ents, kids.push(c), slots.drop_first(), src, q);
            },
        }
    }
}

/// Leaf detection: the record a node converts to carries a `value`
/// entry exactly when the node has no named children, whatever
/// anonymous children it has (those are never represented). Stated for
/// nodes none of whose own field labels is the reserved word `value`.
pub proof fn lemma_leaf_value(n: SyntaxNode, src: Seq<u8>)
    requires
        forall|i: int| 0 <= i < n.slots@.len() ==> ((#[trigger] n.slots@[i].label) matches Some(
            l,
        ) ==> l@ != value_key()),
    ensures
        convert_model(n, src) == SemModel::Rec(converted_entries(n, src)),
        crate::value::rec_has(converted_entries(n, src), value_key()) <==> n.slots@.len() == 0,
{
    let base = base_entries(n);
    assert(base.drop_first() =~= base.skip(1));
    assert(base[0].0 == kind_key());
    assert(kind_key().len() == 4 && value_key().len() == 5);
    assert(start_key().len() == 10 && end_key().len() == 8 && children_key().len() == 8);
    assert(children_key()[0] == 99u8 && end_key()[0] == 101u8);
    assert(crate::value::rec_get(base, value_key()) is None) by {
        assert(base[0].0 != value_key());
        assert(base.drop_first()[0] == base[1]);
        assert(base[1].0 != value_key());
        assert(base.drop_first().drop_first()[0] == base[2]);
        assert(base[2].0 != value_key());
        assert(base.drop_first().drop_first().drop_first() =~= Seq::<
            (Seq<u8>, SemModel),
        >::empty());
        assert(crate::value::rec_get(base, value_key()) == crate::value::rec_get(
            base.drop_first(),
            value_key(),
        ));
        assert(crate::value::rec_get(base.drop_first(), value_key())
            == crate::value::rec_get(base.drop_first().drop_first(), value_key()));
        assert(crate::value::rec_get(base.drop_first().drop_first(), value_key())
            == crate::value::rec_get(
            base.drop_first().drop_first().drop_first(),
            value_key(),
        ));
        assert(crate::value::rec_get(
            Seq::<(Seq<u8>, SemModel)>::empty(),
            value_key(),
        ) is None);
    }
    let folded = convert_slots(base, Seq::empty(), n.slots@, src);
    lemma_convert_slots_get(base, Seq::empty(), n.slots@, src, value_key());
    let with_children = if folded.1.len() > 0 {
        rec_insert(folded.0, children_key(), SemModel::List(folded.1))
    } else {
        folded.0
    };
    if folded.1.len() > 0 {
        crate::value::lemma_rec_insert_get(
            folded.0,
            children_key(),
            SemModel::List(folded.1),
            value_key(),
        );
    }
    assert(crate::value::rec_get(with_children, value_key()) is None);
    if n.slots@.len() == 0 {
        crate::value::lemma_rec_insert_get(
            with_children,
            value_key(),
            SemModel::Str(src.subrange(n.start as int, n.end as int)),
            value_key(),
        );
    }
}

} // verus!
