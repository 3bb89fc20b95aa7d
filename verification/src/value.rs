//! The semantic value: the generic tagged value that a syntax tree is
//! converted into and that the query engine consumes and produces.
//!
//! All text is held as UTF-8 bytes, so that spans and splices stay
//! byte-exact. Records keep their entries in insertion order and never
//! hold the same key twice.

use vstd::prelude::*;

verus! {

/// A generic tagged value: the interchange format between the syntax
/// tree, the query engine, and the result decoder.
#[derive(Debug, PartialEq, Eq)]
pub enum SemanticValue {
    /// The null value.
    Null,
    /// A boolean.
    Bool(bool),
    /// An integer (byte offsets travel as these).
    Int(i64),
    /// A text string, as its UTF-8 bytes.
    Str(Vec<u8>),
    /// An ordered sequence of values.
    List(Vec<SemanticValue>),
    /// An ordered mapping from keys to values, keys unique.
    Rec(Vec<(Vec<u8>, SemanticValue)>),
}

/// The mathematical shape of a `SemanticValue`.
pub enum SemModel {
    Null,
    Bool(bool),
    Int(int),
    Str(Seq<u8>),
    List(Seq<SemModel>),
    Rec(Seq<(Seq<u8>, SemModel)>),
}

/// The model of a value: the same tree with every vector read off as a
/// sequence.
pub open spec fn sem_model(v: SemanticValue) -> SemModel
    decreases v,
{
    match v {
        SemanticValue::Null => SemModel::Null,
        SemanticValue::Bool(b) => SemModel::Bool(b),
        SemanticValue::Int(i) => SemModel::Int(i as int),
        SemanticValue::Str(s) => SemModel::Str(s@),
        SemanticValue::List(items) => SemModel::List(sem_model_list(items@)),
        SemanticValue::Rec(entries) => SemModel::Rec(sem_model_entries(entries@)),
    }
}

pub open spec fn sem_model_list(s: Seq<SemanticValue>) -> Seq<SemModel>
    decreases s,
{
    if s.len() == 0 {
        Seq::empty()
    } else {
        seq![sem_model(s[0])] + sem_model_list(s.drop_first())
    }
}

pub open spec fn sem_model_entries(s: Seq<(Vec<u8>, SemanticValue)>) -> Seq<(Seq<u8>, SemModel)>
    decreases s,
{
    if s.len() == 0 {
        Seq::empty()
    } else {
        seq![(s[0].0@, sem_model(s[0].1))] + sem_model_entries(s.drop_first())
    }
}

impl View for SemanticValue {
    type V = SemModel;

    open spec fn view(&self) -> SemModel {
        sem_model(*self)
    }
}

/// The element-wise reading of the two model list functions.
pub proof fn lemma_sem_model_list_index(s: Seq<SemanticValue>)
    ensures
        sem_model_list(s).len() == s.len(),
        forall|i: int| 0 <= i < s.len() ==> sem_model_list(s)[i] == sem_model(s[i]),
    decreases s,
{
    if s.len() > 0 {
        lemma_sem_model_list_index(s.drop_first());
    }
}

pub proof fn lemma_sem_model_entries_index(s: Seq<(Vec<u8>, SemanticValue)>)
    ensures
        sem_model_entries(s).len() == s.len(),
        forall|i: int| 0 <= i < s.len() ==> sem_model_entries(s)[i] == (s[i].0@, sem_model(
            s[i].1,
        )),
    decreases s,
{
    if s.len() > 0 {
        lemma_sem_model_entries_index(s.drop_first());
    }
}

/// Looks a key up in a model record: the value at the first entry whose
/// key matches, if any.
pub open spec fn rec_get(entries: Seq<(Seq<u8>, SemModel)>, key: Seq<u8>) -> Option<SemModel>
    decreases entries,
{
    if entries.len() == 0 {
        None
    } else if entries[0].0 == key {
        Some(entries[0].1)
    } else {
        rec_get(entries.drop_first(), key)
    }
}

/// Whether a model record holds a key.
pub open spec fn rec_has(entries: Seq<(Seq<u8>, SemModel)>, key: Seq<u8>) -> bool {
    rec_get(entries, key) is Some
}

/// Inserting into a model record: an existing key keeps its place and
/// gets the new value; a new key goes to the end.
pub open spec fn rec_insert(
    entries: Seq<(Seq<u8>, SemModel)>,
    key: Seq<u8>,
    value: SemModel,
) -> Seq<(Seq<u8>, SemModel)>
    decreases entries,
{
    if entries.len() == 0 {
        seq![(key, value)]
    } else if entries[0].0 == key {
        seq![(key, value)] + entries.drop_first()
    } else {
        seq![entries[0]] + rec_insert(entries.drop_first(), key, value)
    }
}

/// Compares two byte strings for equality of their contents.
pub fn bytes_eq(a: &[u8], b: &[u8]) -> (r: bool)
    ensures
        r == (a@ == b@),
{
    if a.len() != b.len() {
        assert(a@.len() != b@.len());
        return false;
    }
    let mut i: usize = 0;
    while i < a.len()
        invariant
            0 <= i <= a.len(),
            a@.len() == b@.len(),
            forall|j: int| 0 <= j < i ==> a@[j] == b@[j],
        decreases a.len() - i,
    {
        if a[i] != b[i] {
            return false;
        }
        i = i + 1;
    }
    assert(a@ =~= b@);
    true
}

/// Looks a key up in a record, returning the value at the first entry
/// whose key matches.
pub fn record_get<'a>(entries: &'a Vec<(Vec<u8>, SemanticValue)>, key: &[u8]) -> (r: Option<
    &'a SemanticValue,
>)
    ensures
        match r {
            Some(v) => rec_get(sem_model_entries(entries@), key@) == Some(sem_model(*v)),
            None => rec_get(sem_model_entries(entries@), key@) is None,
        },
{
    proof {
        assert(entries@.skip(0) =~= entries@);
    }
    let mut i: usize = 0;
    while i < entries.len()
        invariant
            0 <= i <= entries@.len(),
            rec_get(sem_model_entries(entries@), key@) == rec_get(
                sem_model_entries(entries@.skip(i as int)),
                key@,
            ),
        decreases entries@.len() - i,
    {
        proof {
            lemma_sem_model_entries_index(entries@.skip(i as int));
            assert(entries@.skip(i as int)[0] == entries@[i as int]);
            assert(entries@.skip(i as int).drop_first() =~= entries@.skip(i as int + 1));
            lemma_sem_model_entries_index(entries@.skip(i as int + 1));
            assert(sem_model_entries(entries@.skip(i as int)).drop_first() =~= sem_model_entries(
                entries@.skip(i as int + 1),
            ));
        }
        if bytes_eq(entries[i].0.as_slice(), key) {
            return Some(&entries[i].1);
        }
        i = i + 1;
    }
    proof {
        assert(entries@.skip(i as int) =~= Seq::<(Vec<u8>, SemanticValue)>::empty());
    }
    None
}

/// The bytes of `"kind"`.
pub open spec fn kind_key() -> Seq<u8> {
    seq![107u8, 105u8, 110u8, 100u8]
}

/// The bytes of `"kind"`.
pub fn kind_key_vec() -> (r: Vec<u8>)
    ensures
        r@ == kind_key(),
{
    let mut v: Vec<u8> = Vec::new();
    v.push(107);
    v.push(105);
    v.push(110);
    v.push(100);
    proof { assert(v@ =~= kind_key()); }
    v
}

/// The bytes of `"start_byte"`.
pub open spec fn start_key() -> Seq<u8> {
    seq![115u8, 116u8, 97u8, 114u8, 116u8, 95u8, 98u8, 121u8, 116u8, 101u8]
}

/// The bytes of `"start_byte"`.
pub fn start_key_vec() -> (r: Vec<u8>)
    ensures
        r@ == start_key(),
{
    let mut v: Vec<u8> = Vec::new();
    v.push(115);
    v.push(116);
    v.push(97);
    v.push(114);
    v.push(116);
    v.push(95);
    v.push(98);
    v.push(121);
    v.push(116);
    v.push(101);
    proof { assert(v@ =~= start_key()); }
    v
}

/// The bytes of `"end_byte"`.
pub open spec fn end_key() -> Seq<u8> {
    seq![101u8, 110u8, 100u8, 95u8, 98u8, 121u8, 116u8, 101u8]
}

/// The bytes of `"end_byte"`.
pub fn end_key_vec() -> (r: Vec<u8>)
    ensures
        r@ == end_key(),
{
    let mut v: Vec<u8> = Vec::new();
    v.push(101);
    v.push(110);
    v.push(100);
    v.push(95);
    v.push(98);
    v.push(121);
    v.push(116);
    v.push(101);
    proof { assert(v@ =~= end_key()); }
    v
}

/// The bytes of `"children"`.
pub open spec fn children_key() -> Seq<u8> {
    seq![99u8, 104u8, 105u8, 108u8, 100u8, 114u8, 101u8, 110u8]
}

/// The bytes of `"children"`.
pub fn children_key_vec() -> (r: Vec<u8>)
    ensures
        r@ == children_key(),
{
    let mut v: Vec<u8> = Vec::new();
    v.push(99);
    v.push(104);
    v.push(105);
    v.push(108);
    v.push(100);
    v.push(114);
    v.push(101);
    v.push(110);
    proof { assert(v@ =~= children_key()); }
    v
}

/// The bytes of `"value"`.
pub open spec fn value_key() -> Seq<u8> {
    seq![118u8, 97u8, 108u8, 117u8, 101u8]
}

/// The bytes of `"value"`.
pub fn value_key_vec() -> (r: Vec<u8>)
    ensures
        r@ == value_key(),
{
    let mut v: Vec<u8> = Vec::new();
    v.push(118);
    v.push(97);
    v.push(108);
    v.push(117);
    v.push(101);
    proof { assert(v@ =~= value_key()); }
    v
}

/// The bytes of `"entries"`.
pub open spec fn entries_key() -> Seq<u8> {
    seq![101u8, 110u8, 116u8, 114u8, 105u8, 101u8, 115u8]
}

/// The bytes of `"entries"`.
pub fn entries_key_vec() -> (r: Vec<u8>)
    ensures
        r@ == entries_key(),
{
    let mut v: Vec<u8> = Vec::new();
    v.push(101);
    v.push(110);
    v.push(116);
    v.push(114);
    v.push(105);
    v.push(101);
    v.push(115);
    proof { assert(v@ =~= entries_key()); }
    v
}

/// The bytes of `"message"`.
pub open spec fn message_key() -> Seq<u8> {
    seq![109u8, 101u8, 115u8, 115u8, 97u8, 103u8, 101u8]
}

/// The bytes of `"message"`.
pub fn message_key_vec() -> (r: Vec<u8>)
    ensures
        r@ == message_key(),
{
    let mut v: Vec<u8> = Vec::new();
    v.push(109);
    v.push(101);
    v.push(115);
    v.push(115);
    v.push(97);
    v.push(103);
    v.push(101);
    proof { assert(v@ =~= message_key()); }
    v
}

/// The bytes of `"_treeq_replace"`.
pub open spec fn replace_tag() -> Seq<u8> {
    seq![95u8, 116u8, 114u8, 101u8, 101u8, 113u8, 95u8, 114u8, 101u8, 112u8, 108u8, 97u8, 99u8, 101u8]
}

/// The bytes of `"_treeq_replace"`.
pub fn replace_tag_vec() -> (r: Vec<u8>)
    ensures
        r@ == replace_tag(),
{
    let mut v: Vec<u8> = Vec::new();
    v.push(95);
    v.push(116);
    v.push(114);
    v.push(101);
    v.push(101);
    v.push(113);
    v.push(95);
    v.push(114);
    v.push(101);
    v.push(112);
    v.push(108);
    v.push(97);
    v.push(99);
    v.push(101);
    proof { assert(v@ =~= replace_tag()); }
    v
}

/// The bytes of `"_treeq_highlight"`.
pub open spec fn highlight_tag() -> Seq<u8> {
    seq![95u8, 116u8, 114u8, 101u8, 101u8, 113u8, 95u8, 104u8, 105u8, 103u8, 104u8, 108u8, 105u8, 103u8, 104u8, 116u8]
}

/// The bytes of `"_treeq_highlight"`.
pub fn highlight_tag_vec() -> (r: Vec<u8>)
    ensures
        r@ == highlight_tag(),
{
    let mut v: Vec<u8> = Vec::new();
    v.push(95);
    v.push(116);
    v.push(114);
    v.push(101);
    v.push(101);
    v.push(113);
    v.push(95);
    v.push(104);
    v.push(105);
    v.push(103);
    v.push(104);
    v.push(108);
    v.push(105);
    v.push(103);
    v.push(104);
    v.push(116);
    proof { assert(v@ =~= highlight_tag()); }
    v
}



/// How a lookup reads through an insert: the inserted key now maps to
/// the inserted value, every other key is untouched.
pub proof fn lemma_rec_insert_get(
    entries: Seq<(Seq<u8>, SemModel)>,
    key: Seq<u8>,
    value: SemModel,
    q: Seq<u8>,
)
    ensures
        rec_get(rec_insert(entries, key, value), q) == if q == key {
            Some(value)
        } else {
            rec_get(entries, q)
        },
    decreases entries,
{
    if entries.len() == 0 {
        assert(rec_insert(entries, key, value) == seq![(key, value)]);
        assert(seq![(key, value)].drop_first() =~= Seq::<(Seq<u8>, SemModel)>::empty());
        assert(rec_get(Seq::<(Seq<u8>, SemModel)>::empty(), q) is None);
        assert(seq![(key, value)][0] == (key, value));
        assert(rec_get(seq![(key, value)], q) == if q == key {
            Some(value)
        } else {
            rec_get(Seq::<(Seq<u8>, SemModel)>::empty(), q)
        });
    } else if entries[0].0 == key {
        let r = seq![(key, value)] + entries.drop_first();
        assert(rec_insert(entries, key, value) == r);
        assert(r[0] == (key, value));
        assert(r.drop_first() =~= entries.drop_first());
        assert(rec_get(r, q) == if q == key {
            Some(value)
        } else {
            rec_get(entries.drop_first(), q)
        });
        assert(rec_get(entries, q) == if q == entries[0].0 {
            Some(entries[0].1)
        } else {
            rec_get(entries.drop_first(), q)
        });
    } else {
        lemma_rec_insert_get(entries.drop_first(), key, value, q);
        let r = seq![entries[0]] + rec_insert(entries.drop_first(), key, value);
        assert(rec_insert(entries, key, value) == r);
        assert(r[0] == entries[0]);
        assert(r.drop_first() =~= rec_insert(entries.drop_first(), key, value));
        assert(rec_get(r, q) == if q == entries[0].0 {
            Some(entries[0].1)
        } else {
            rec_get(rec_insert(entries.drop_first(), key, value), q)
        });
    }
}

} // verus!
