//! The directive tree: the typed result of decoding the query engine's
//! output value.
//!
//! A record whose `kind` entry is the replace sentinel decodes as a
//! `Replace` directive, one with the highlight sentinel as a `Highlight`,
//! and any other record decodes structurally as a `Passthrough` that
//! keeps every unrecognized key, so directives buried under arbitrary
//! field names are not lost. Anything that fits none of these shapes is
//! a decode error, as is a `Replace` or `Highlight` standing inside the
//! `entries` of a `Replace`.

use vstd::prelude::*;

use crate::value::{
    children_key, end_key, entries_key, highlight_tag, kind_key, message_key, rec_get,
    replace_tag, sem_model, sem_model_entries, sem_model_list, start_key, value_key, SemModel,
    SemanticValue,
};

verus! {

/// A decoded directive.
#[derive(Debug, PartialEq, Eq)]
pub enum DirectiveNode {
    /// A structural node: not an instruction, only a carrier of nested
    /// directives. Mirrors the converted syntax node shape.
    Passthrough {
        /// The node's grammar kind label.
        kind: Vec<u8>,
        /// Start of the node's span in the original buffer.
        start: usize,
        /// End of the node's span in the original buffer.
        end: usize,
        /// The `children` sequence, if the record carried one.
        children: Option<Vec<DirectiveNode>>,
        /// Every other key of the record, in record order.
        fields: Vec<(Vec<u8>, DirectiveNode)>,
        /// The `value` entry, if the record carried one.
        value: Option<ValueSlot>,
    },
    /// Delete the text covering `[start, end)` of the original buffer
    /// and substitute the concatenation of `entries`.
    Replace {
        /// Start of the replaced span in the original buffer.
        start: usize,
        /// End of the replaced span in the original buffer.
        end: usize,
        /// What to substitute, in order.
        entries: Vec<ReplaceEntry>,
    },
    /// A non-mutating annotation on `[start, end)`.
    Highlight {
        /// Start of the annotated span in the original buffer.
        start: usize,
        /// End of the annotated span in the original buffer.
        end: usize,
        /// The message the annotation carries.
        message: Vec<u8>,
    },
}

/// What a `value` entry holds: leaf text, or a node a query put there in
/// its place.
#[derive(Debug, PartialEq, Eq)]
pub enum ValueSlot {
    /// Plain leaf text.
    Text(Vec<u8>),
    /// A node constructed by the query.
    Node(Box<DirectiveNode>),
}

/// One element of a `Replace`'s `entries`: a literal string, or a
/// reference to a passthrough node whose original-source slice is copied
/// verbatim.
#[derive(Debug, PartialEq, Eq)]
pub enum ReplaceEntry {
    /// A literal string, inserted as is.
    Lit(Vec<u8>),
    /// A passthrough node reference; its `[start, end)` slice of the
    /// original buffer is inserted.
    Node(Box<DirectiveNode>),
}

/// The output value did not match any recognized directive shape.
#[derive(Clone, Copy, PartialEq, Eq, Debug)]
pub struct DecodeError;

/// The mathematical shape of a directive tree. A nested node stands
/// inside a one-element sequence, which breaks the type recursion.
pub enum DirModel {
    Passthrough {
        kind: Seq<u8>,
        start: int,
        end: int,
        children: Option<Seq<DirModel>>,
        fields: Seq<(Seq<u8>, DirModel)>,
        value: Option<SlotModel>,
    },
    Replace { start: int, end: int, entries: Seq<EntryModel> },
    Highlight { start: int, end: int, message: Seq<u8> },
}

/// The model of a `value` entry; `Node` holds exactly one element.
pub enum SlotModel {
    Text(Seq<u8>),
    Node(Seq<DirModel>),
}

/// The model of a replace entry; `Node` holds exactly one element.
pub enum EntryModel {
    Lit(Seq<u8>),
    Node(Seq<DirModel>),
}

/// The model of a directive tree.
pub open spec fn dir_model(d: DirectiveNode) -> DirModel
    decreases d,
{
    match d {
        DirectiveNode::Passthrough { kind, start, end, children, fields, value } => {
            DirModel::Passthrough {
                kind: kind@,
                start: start as int,
                end: end as int,
                children: match children {
                    Some(cs) => Some(dir_model_list(cs@)),
                    None => None,
                },
                fields: dir_model_fields(fields@),
                value: match value {
                    Some(ValueSlot::Text(s)) => Some(SlotModel::Text(s@)),
                    Some(ValueSlot::Node(b)) => Some(SlotModel::Node(seq![dir_model(*b)])),
                    None => None,
                },
            }
        },
        DirectiveNode::Replace { start, end, entries } => DirModel::Replace {
            start: start as int,
            end: end as int,
            entries: dir_model_entries(entries@),
        },
        DirectiveNode::Highlight { start, end, message } => DirModel::Highlight {
            start: start as int,
            end: end as int,
            message: message@,
        },
    }
}

pub open spec fn dir_model_list(s: Seq<DirectiveNode>) -> Seq<DirModel>
    decreases s,
{
    if s.len() == 0 {
        Seq::empty()
    } else {
        seq![dir_model(s[0])] + dir_model_list(s.drop_first())
    }
}

pub open spec fn dir_model_fields(s: Seq<(Vec<u8>, DirectiveNode)>) -> Seq<(Seq<u8>, DirModel)>
    decreases s,
{
    if s.len() == 0 {
        Seq::empty()
    } else {
        seq![(s[0].0@, dir_model(s[0].1))] + dir_model_fields(s.drop_first())
    }
}

pub open spec fn dir_model_entries(s: Seq<ReplaceEntry>) -> Seq<EntryModel>
    decreases s,
{
    if s.len() == 0 {
        Seq::empty()
    } else {
        seq![entry_model(s[0])] + dir_model_entries(s.drop_first())
    }
}

pub open spec fn entry_model(e: ReplaceEntry) -> EntryModel
    decreases e,
{
    match e {
        ReplaceEntry::Lit(s) => EntryModel::Lit(s@),
        ReplaceEntry::Node(b) => EntryModel::Node(seq![dir_model(*b)]),
    }
}

pub proof fn lemma_dir_model_list_index(s: Seq<DirectiveNode>)
    ensures
        dir_model_list(s).len() == s.len(),
        forall|i: int| 0 <= i < s.len() ==> dir_model_list(s)[i] == dir_model(s[i]),
    decreases s,
{
    if s.len() > 0 {
        lemma_dir_model_list_index(s.drop_first());
    }
}

pub proof fn lemma_dir_model_fields_index(s: Seq<(Vec<u8>, DirectiveNode)>)
    ensures
        dir_model_fields(s).len() == s.len(),
        forall|i: int| 0 <= i < s.len() ==> dir_model_fields(s)[i] == (s[i].0@, dir_model(
            s[i].1,
        )),
    decreases s,
{
    if s.len() > 0 {
        lemma_dir_model_fields_index(s.drop_first());
    }
}

pub proof fn lemma_dir_model_entries_index(s: Seq<ReplaceEntry>)
    ensures
        dir_model_entries(s).len() == s.len(),
        forall|i: int| 0 <= i < s.len() ==> dir_model_entries(s)[i] == entry_model(s[i]),
    decreases s,
{
    if s.len() > 0 {
        lemma_dir_model_entries_index(s.drop_first());
    }
}

/// The byte span a record carries: its `start_byte` and `end_byte`
/// entries, both integers representable as machine offsets.
pub open spec fn span_spec(ents: Seq<(Seq<u8>, SemModel)>) -> Option<(int, int)> {
    match rec_get(ents, start_key()) {
        Some(SemModel::Int(s)) => match rec_get(ents, end_key()) {
            Some(SemModel::Int(e)) => if 0 <= s <= usize::MAX as int && 0 <= e <= usize::MAX
                as int {
                Some((s, e))
            } else {
                None
            },
            _ => None,
        },
        _ => None,
    }
}

/// Decodes a semantic value into a directive tree, `None` on any value
/// that fits no directive shape.
pub open spec fn decode_spec(v: SemModel) -> Option<DirModel>
    decreases v,
{
    match v {
        SemModel::Rec(ents) => match rec_get(ents, kind_key()) {
            Some(SemModel::Str(k)) => if k == replace_tag() {
                decode_replace_spec(ents)
            } else if k == highlight_tag() {
                decode_highlight_spec(ents)
            } else {
                decode_pass_spec(k, ents)
            },
            _ => None,
        },
        _ => None,
    }
}

/// Decodes the record of a replace directive: its span, and its entries.
pub open spec fn decode_replace_spec(ents: Seq<(Seq<u8>, SemModel)>) -> Option<DirModel>
    decreases ents, 1int,
{
    match span_spec(ents) {
        Some(sp) => match scan_entries_spec(ents) {
            Some(es) => Some(DirModel::Replace { start: sp.0, end: sp.1, entries: es }),
            None => None,
        },
        None => None,
    }
}

/// Finds the first `entries` key of the record and decodes its list.
pub open spec fn scan_entries_spec(rest: Seq<(Seq<u8>, SemModel)>) -> Option<Seq<EntryModel>>
    decreases rest, 0int,
{
    if rest.len() == 0 {
        None
    } else if rest[0].0 == entries_key() {
        match rest[0].1 {
            SemModel::List(items) => decode_entry_list_spec(items),
            _ => None,
        }
    } else {
        scan_entries_spec(rest.drop_first())
    }
}

/// Decodes the elements of an `entries` list: a string is a literal, a
/// record must decode as a passthrough node; a `Replace` or `Highlight`
/// there, or any other shape, is malformed.
pub open spec fn decode_entry_list_spec(items: Seq<SemModel>) -> Option<Seq<EntryModel>>
    decreases items,
{
    if items.len() == 0 {
        Some(Seq::empty())
    } else {
        let head = match items[0] {
            SemModel::Str(s) => Some(EntryModel::Lit(s)),
            SemModel::Rec(ents) => match decode_spec(items[0]) {
                Some(d) => if d is Passthrough {
                    Some(EntryModel::Node(seq![d]))
                } else {
                    None
                },
                None => None,
            },
            _ => None,
        };
        match head {
            Some(h) => match decode_entry_list_spec(items.drop_first()) {
                Some(t) => Some(seq![h] + t),
                None => None,
            },
            None => None,
        }
    }
}

/// Decodes the record of a highlight directive: its span and message.
pub open spec fn decode_highlight_spec(ents: Seq<(Seq<u8>, SemModel)>) -> Option<DirModel> {
    match span_spec(ents) {
        Some(sp) => match rec_get(ents, message_key()) {
            Some(SemModel::Str(m)) => Some(DirModel::Highlight {
                start: sp.0,
                end: sp.1,
                message: m,
            }),
            _ => None,
        },
        None => None,
    }
}

/// Decodes a structural record: its span, and every entry other than the
/// three fixed keys, routed to `children`, `value`, or the fields.
pub open spec fn decode_pass_spec(kind: Seq<u8>, ents: Seq<(Seq<u8>, SemModel)>) -> Option<
    DirModel,
>
    decreases ents, 1int,
{
    match span_spec(ents) {
        Some(sp) => match decode_pass_rest(ents, None, Seq::empty(), None) {
            Some(parts) => Some(DirModel::Passthrough {
                kind: kind,
                start: sp.0,
                end: sp.1,
                children: parts.0,
                fields: parts.1,
                value: parts.2,
            }),
            None => None,
        },
        None => None,
    }
}

/// Walks a structural record's entries in order. The three fixed keys
/// are already read; `children` must be a list of nodes, `value` a
/// string or a node, and any other key a node stored as a field. A
/// second `children` or `value` key is malformed.
pub open spec fn decode_pass_rest(
    rest: Seq<(Seq<u8>, SemModel)>,
    children_acc: Option<Seq<DirModel>>,
    fields_acc: Seq<(Seq<u8>, DirModel)>,
    value_acc: Option<SlotModel>,
) -> Option<(Option<Seq<DirModel>>, Seq<(Seq<u8>, DirModel)>, Option<SlotModel>)>
    decreases rest, 0int,
{
    if rest.len() == 0 {
        Some((children_acc, fields_acc, value_acc))
    } else {
        let k = rest[0].0;
        let v = rest[0].1;
        if k == kind_key() || k == start_key() || k == end_key() {
            decode_pass_rest(rest.drop_first(), children_acc, fields_acc, value_acc)
        } else if k == children_key() {
            if children_acc is Some {
                None
            } else {
                match v {
                    SemModel::List(items) => match decode_list_spec(items) {
                        Some(cs) => decode_pass_rest(
                            rest.drop_first(),
                            Some(cs),
                            fields_acc,
                            value_acc,
                        ),
                        None => None,
                    },
                    _ => None,
                }
            }
        } else if k == value_key() {
            if value_acc is Some {
                None
            } else {
                match v {
                    SemModel::Str(s) => decode_pass_rest(
                        rest.drop_first(),
                        children_acc,
                        fields_acc,
                        Some(SlotModel::Text(s)),
                    ),
                    SemModel::Rec(_) => match decode_spec(v) {
                        Some(d) => decode_pass_rest(
                            rest.drop_first(),
                            children_acc,
                            fields_acc,
                            Some(SlotModel::Node(seq![d])),
                        ),
                        None => None,
                    },
                    _ => None,
                }
            }
        } else {
            match decode_spec(v) {
                Some(d) => decode_pass_rest(
                    rest.drop_first(),
                    children_acc,
                    fields_acc.push((k, d)),
                    value_acc,
                ),
                None => None,
            }
        }
    }
}

/// Decodes every element of a `children` list.
pub open spec fn decode_list_spec(items: Seq<SemModel>) -> Option<Seq<DirModel>>
    decreases items,
{
    if items.len() == 0 {
        Some(Seq::empty())
    } else {
        match decode_spec(items[0]) {
            Some(d) => match decode_list_spec(items.drop_first()) {
                Some(t) => Some(seq![d] + t),
                None => None,
            },
            None => None,
        }
    }
}


/// The model of an optional children vector.
pub open spec fn children_model(c: Option<Vec<DirectiveNode>>) -> Option<Seq<DirModel>> {
    match c {
        Some(cs) => Some(dir_model_list(cs@)),
        None => None,
    }
}

/// The model of an optional value slot.
pub open spec fn slot_model(v: Option<ValueSlot>) -> Option<SlotModel> {
    match v {
        Some(ValueSlot::Text(s)) => Some(SlotModel::Text(s@)),
        Some(ValueSlot::Node(b)) => Some(SlotModel::Node(seq![dir_model(*b)])),
        None => None,
    }
}

/// Reads the span entries of a record: both `start_byte` and `end_byte`
/// must be integers that fit a machine offset.
pub fn get_span(entries: &Vec<(Vec<u8>, SemanticValue)>) -> (r: Option<(usize, usize)>)
    ensures
        match r {
            Some(sp) => span_spec(sem_model_entries(entries@)) == Some(
                (sp.0 as int, sp.1 as int),
            ),
            None => span_spec(sem_model_entries(entries@)) is None,
        },
{
    let skv = crate::value::start_key_vec();
    let ekv = crate::value::end_key_vec();
    let s: i64 = match crate::value::record_get(entries, skv.as_slice()) {
        Some(SemanticValue::Int(i)) => *i,
        _ => {
            return None;
        },
    };
    let e: i64 = match crate::value::record_get(entries, ekv.as_slice()) {
        Some(SemanticValue::Int(i)) => *i,
        _ => {
            return None;
        },
    };
    if s >= 0 && (s as u64) <= (usize::MAX as u64) && e >= 0 && (e as u64) <= (usize::MAX
        as u64) {
        Some((s as usize, e as usize))
    } else {
        None
    }
}

/// Decodes a semantic value into a directive tree.
pub fn decode(v: &SemanticValue) -> (r: Result<DirectiveNode, DecodeError>)
    ensures
        match r {
            Ok(d) => decode_spec(sem_model(*v)) == Some(dir_model(d)),
            Err(_) => decode_spec(sem_model(*v)) is None,
        },
    decreases *v, 2int,
{
    match v {
        SemanticValue::Rec(entries) => {
            let kv = crate::value::kind_key_vec();
            match crate::value::record_get(entries, kv.as_slice()) {
                Some(SemanticValue::Str(k)) => {
                    let rtag = crate::value::replace_tag_vec();
                    let htag = crate::value::highlight_tag_vec();
                    proof {
                        assert(decreases_to!(*v => entries@));
                    }
                    if crate::value::bytes_eq(k.as_slice(), rtag.as_slice()) {
                        decode_replace_body(entries)
                    } else if crate::value::bytes_eq(k.as_slice(), htag.as_slice()) {
                        decode_highlight_body(entries)
                    } else {
                        decode_pass_body(crate::convert::bytes_clone(k), entries)
                    }
                },
                _ => Err(DecodeError),
            }
        },
        _ => Err(DecodeError),
    }
}

/// Decodes the record of a replace directive.
#[verifier::loop_isolation(false)]
fn decode_replace_body(entries: &Vec<(Vec<u8>, SemanticValue)>) -> (r: Result<
    DirectiveNode,
    DecodeError,
>)
    ensures
        match r {
            Ok(d) => decode_replace_spec(sem_model_entries(entries@)) == Some(dir_model(d)),
            Err(_) => decode_replace_spec(sem_model_entries(entries@)) is None,
        },
    decreases entries@, 1int,
{
    let ghost em = sem_model_entries(entries@);
    let sp = match get_span(entries) {
        Some(sp) => sp,
        None => {
            return Err(DecodeError);
        },
    };
    let ekv = crate::value::entries_key_vec();
    proof {
        crate::value::lemma_sem_model_entries_index(entries@);
        assert(em.skip(0) =~= em);
    }
    let mut i: usize = 0;
    while i < entries.len()
        invariant
            0 <= i <= entries@.len(),
            em.len() == entries@.len(),
            scan_entries_spec(em) == scan_entries_spec(em.skip(i as int)),
        decreases entries@.len() - i,
    {
        proof {
            crate::value::lemma_sem_model_entries_index(entries@);
            assert(em.skip(i as int)[0] == em[i as int]);
            assert(em.skip(i as int).drop_first() =~= em.skip(i as int + 1));
        }
        if crate::value::bytes_eq(entries[i].0.as_slice(), ekv.as_slice()) {
            match &entries[i].1 {
                SemanticValue::List(items) => {
                    proof {
                        assert(decreases_to!(entries@ => entries@[i as int]));
                        assert(decreases_to!(entries@[i as int].1 => items@));
                    }
                    let es = match decode_entry_vec(items) {
                        Ok(es) => es,
                        Err(e) => {
                            return Err(e);
                        },
                    };
                    proof {
                        assert(em[i as int].1 == sem_model(entries@[i as int].1));
                    }
                    return Ok(DirectiveNode::Replace { start: sp.0, end: sp.1, entries: es });
                },
                _ => {
                    proof {
                        assert(em[i as int].1 == sem_model(entries@[i as int].1));
                        assert(!(sem_model(entries@[i as int].1) is List));
                    }
                    return Err(DecodeError);
                },
            }
        }
        i = i + 1;
    }
    proof {
        assert(em.skip(i as int) =~= Seq::<(Seq<u8>, SemModel)>::empty());
    }
    Err(DecodeError)
}

/// Decodes the elements of an `entries` list.
#[verifier::loop_isolation(false)]
fn decode_entry_vec(items: &Vec<SemanticValue>) -> (r: Result<Vec<ReplaceEntry>, DecodeError>)
    ensures
        match r {
            Ok(es) => decode_entry_list_spec(sem_model_list(items@)) == Some(
                dir_model_entries(es@),
            ),
            Err(_) => decode_entry_list_spec(sem_model_list(items@)) is None,
        },
    decreases items@, 0int,
{
    let ghost m = sem_model_list(items@);
    let mut out: Vec<ReplaceEntry> = Vec::new();
    proof {
        crate::value::lemma_sem_model_list_index(items@);
        assert(m.skip(0) =~= m);
        assert(dir_model_entries(out@) =~= Seq::<EntryModel>::empty());
    }
    let mut j: usize = 0;
    while j < items.len()
        invariant
            0 <= j <= items@.len(),
            m.len() == items@.len(),
            dir_model_entries(out@).len() == j,
            (decode_entry_list_spec(m) is Some) == (decode_entry_list_spec(m.skip(j as int))
                is Some),
            decode_entry_list_spec(m.skip(j as int)) matches Some(t) ==> decode_entry_list_spec(
                m,
            ) == Some(dir_model_entries(out@) + t),
        decreases items@.len() - j,
    {
        proof {
            assert(m.skip(j as int)[0] == m[j as int]);
            assert(m.skip(j as int).drop_first() =~= m.skip(j as int + 1));
            assert(m[j as int] == sem_model(items@[j as int]));
        }
        let ghost prev = out@;
        match &items[j] {
            SemanticValue::Str(s) => {
                out.push(ReplaceEntry::Lit(crate::convert::bytes_clone(s)));
            },
            SemanticValue::Rec(_) => {
                proof {
                    assert(decreases_to!(items@ => items@[j as int]));
                }
                let d = match decode(&items[j]) {
                    Ok(d) => d,
                    Err(e) => {
                        return Err(e);
                    },
                };
                let is_pass = matches!(d, DirectiveNode::Passthrough { .. });
                if !is_pass {
                    proof {
                        assert(!(dir_model(d) is Passthrough));
                    }
                    return Err(DecodeError);
                }
                proof {
                    assert(dir_model(d) is Passthrough);
                }
                out.push(ReplaceEntry::Node(Box::new(d)));
            },
            _ => {
                return Err(DecodeError);
            },
        }
        proof {
            lemma_dir_model_entries_index(out@);
            lemma_dir_model_entries_index(prev);
            assert(out@.drop_last() =~= prev);
            assert(dir_model_entries(out@) =~= dir_model_entries(prev).push(
                entry_model(out@.last()),
            ));
        }
        j = j + 1;
    }
    proof {
        assert(m.skip(j as int) =~= Seq::<SemModel>::empty());
        assert(decode_entry_list_spec(m) == Some(dir_model_entries(out@) + Seq::<
            EntryModel,
        >::empty()));
        assert(dir_model_entries(out@) + Seq::<EntryModel>::empty() =~= dir_model_entries(out@));
    }
    Ok(out)
}

/// Decodes the record of a highlight directive.
fn decode_highlight_body(entries: &Vec<(Vec<u8>, SemanticValue)>) -> (r: Result<
    DirectiveNode,
    DecodeError,
>)
    ensures
        match r {
            Ok(d) => decode_highlight_spec(sem_model_entries(entries@)) == Some(dir_model(d)),
            Err(_) => decode_highlight_spec(sem_model_entries(entries@)) is None,
        },
{
    let sp = match get_span(entries) {
        Some(sp) => sp,
        None => {
            return Err(DecodeError);
        },
    };
    let mkv = crate::value::message_key_vec();
    match crate::value::record_get(entries, mkv.as_slice()) {
        Some(SemanticValue::Str(m)) => Ok(DirectiveNode::Highlight {
            start: sp.0,
            end: sp.1,
            message: crate::convert::bytes_clone(m),
        }),
        _ => Err(DecodeError),
    }
}

/// Decodes a structural record.
#[verifier::loop_isolation(false)]
fn decode_pass_body(kind: Vec<u8>, entries: &Vec<(Vec<u8>, SemanticValue)>) -> (r: Result<
    DirectiveNode,
    DecodeError,
>)
    ensures
        match r {
            Ok(d) => decode_pass_spec(kind@, sem_model_entries(entries@)) == Some(dir_model(d)),
            Err(_) => decode_pass_spec(kind@, sem_model_entries(entries@)) is None,
        },
    decreases entries@, 1int,
{
    let ghost em = sem_model_entries(entries@);
    let sp = match get_span(entries) {
        Some(sp) => sp,
        None => {
            return Err(DecodeError);
        },
    };
    let kkv = crate::value::kind_key_vec();
    let skv = crate::value::start_key_vec();
    let ekv = crate::value::end_key_vec();
    let ckv = crate::value::children_key_vec();
    let vkv = crate::value::value_key_vec();
    let mut children_acc: Option<Vec<DirectiveNode>> = None;
    let mut fields_acc: Vec<(Vec<u8>, DirectiveNode)> = Vec::new();
    let mut value_acc: Option<ValueSlot> = None;
    proof {
        crate::value::lemma_sem_model_entries_index(entries@);
        assert(em.skip(0) =~= em);
        assert(dir_model_fields(fields_acc@) =~= Seq::<(Seq<u8>, DirModel)>::empty());
    }
    let mut i: usize = 0;
    while i < entries.len()
        invariant
            0 <= i <= entries@.len(),
            em.len() == entries@.len(),
            decode_pass_rest(em, None, Seq::empty(), None) == decode_pass_rest(
                em.skip(i as int),
                children_model(children_acc),
                dir_model_fields(fields_acc@),
                slot_model(value_acc),
            ),
        decreases entries@.len() - i,
    {
        proof {
            crate::value::lemma_sem_model_entries_index(entries@);
            assert(em.skip(i as int)[0] == em[i as int]);
            assert(em.skip(i as int).drop_first() =~= em.skip(i as int + 1));
            assert(em[i as int].1 == sem_model(entries@[i as int].1));
        }
        let key = entries[i].0.as_slice();
        if crate::value::bytes_eq(key, kkv.as_slice()) || crate::value::bytes_eq(
            key,
            skv.as_slice(),
        ) || crate::value::bytes_eq(key, ekv.as_slice()) {
            // a fixed key, already read
        } else if crate::value::bytes_eq(key, ckv.as_slice()) {
            if children_acc.is_some() {
                return Err(DecodeError);
            }
            match &entries[i].1 {
                SemanticValue::List(items) => {
                    proof {
                        assert(decreases_to!(entries@ => entries@[i as int]));
                        assert(decreases_to!(entries@[i as int].1 => items@));
                    }
                    let cs = match decode_node_vec(items) {
                        Ok(cs) => cs,
                        Err(e) => {
                            return Err(e);
                        },
                    };
                    children_acc = Some(cs);
                },
                _ => {
                    return Err(DecodeError);
                },
            }
        } else if crate::value::bytes_eq(key, vkv.as_slice()) {
            if value_acc.is_some() {
                return Err(DecodeError);
            }
            match &entries[i].1 {
                SemanticValue::Str(s) => {
                    value_acc = Some(ValueSlot::Text(crate::convert::bytes_clone(s)));
                },
                SemanticValue::Rec(_) => {
                    proof {
                        assert(decreases_to!(entries@ => entries@[i as int]));
                    }
                    let d = match decode(&entries[i].1) {
                        Ok(d) => d,
                        Err(e) => {
                            return Err(e);
                        },
                    };
                    value_acc = Some(ValueSlot::Node(Box::new(d)));
                },
                _ => {
                    return Err(DecodeError);
                },
            }
        } else {
            proof {
                assert(decreases_to!(entries@ => entries@[i as int]));
            }
            let d = match decode(&entries[i].1) {
                Ok(d) => d,
                Err(e) => {
                    return Err(e);
                },
            };
            let ghost prev = fields_acc@;
            fields_acc.push((crate::convert::bytes_clone(&entries[i].0), d));
            proof {
                lemma_dir_model_fields_index(fields_acc@);
                lemma_dir_model_fields_index(prev);
                assert(fields_acc@.drop_last() =~= prev);
                assert(dir_model_fields(fields_acc@) =~= dir_model_fields(prev).push(
                    (entries@[i as int].0@, dir_model(fields_acc@.last().1)),
                ));
            }
        }
        i = i + 1;
    }
    proof {
        assert(em.skip(i as int) =~= Seq::<(Seq<u8>, SemModel)>::empty());
    }
    Ok(DirectiveNode::Passthrough {
        kind,
        start: sp.0,
        end: sp.1,
        children: children_acc,
        fields: fields_acc,
        value: value_acc,
    })
}

/// Decodes every element of a `children` list.
#[verifier::loop_isolation(false)]
fn decode_node_vec(items: &Vec<SemanticValue>) -> (r: Result<Vec<DirectiveNode>, DecodeError>)
    ensures
        match r {
            Ok(cs) => decode_list_spec(sem_model_list(items@)) == Some(dir_model_list(cs@)),
            Err(_) => decode_list_spec(sem_model_list(items@)) is None,
        },
    decreases items@, 0int,
{
    let ghost m = sem_model_list(items@);
    let mut out: Vec<DirectiveNode> = Vec::new();
    proof {
        crate::value::lemma_sem_model_list_index(items@);
        assert(m.skip(0) =~= m);
        assert(dir_model_list(out@) =~= Seq::<DirModel>::empty());
    }
    let mut j: usize = 0;
    while j < items.len()
        invariant
            0 <= j <= items@.len(),
            m.len() == items@.len(),
            dir_model_list(out@).len() == j,
            (decode_list_spec(m) is Some) == (decode_list_spec(m.skip(j as int)) is Some),
            decode_list_spec(m.skip(j as int)) matches Some(t) ==> decode_list_spec(m) == Some(
                dir_model_list(out@) + t,
            ),
        decreases items@.len() - j,
    {
        proof {
            assert(m.skip(j as int)[0] == m[j as int]);
            assert(m.skip(j as int).drop_first() =~= m.skip(j as int + 1));
            assert(m[j as int] == sem_model(items@[j as int]));
            assert(decreases_to!(items@ => items@[j as int]));
        }
        let d = match decode(&items[j]) {
            Ok(d) => d,
            Err(e) => {
                return Err(e);
            },
        };
        let ghost prev = out@;
        out.push(d);
        proof {
            lemma_dir_model_list_index(out@);
            lemma_dir_model_list_index(prev);
            assert(out@.drop_last() =~= prev);
            assert(dir_model_list(out@) =~= dir_model_list(prev).push(dir_model(out@.last())));
        }
        j = j + 1;
    }
    proof {
        assert(m.skip(j as int) =~= Seq::<SemModel>::empty());
        assert(decode_list_spec(m) == Some(dir_model_list(out@) + Seq::<DirModel>::empty()));
        assert(dir_model_list(out@) + Seq::<DirModel>::empty() =~= dir_model_list(out@));
    }
    Ok(out)
}

} // verus!
