//! Tests of the core: conversion, decoding, rewriting, reporting.

use treeq::convert::convert;
use treeq::directive::{decode, DirectiveNode, ReplaceEntry, ValueSlot};
use treeq::render::reports;
use treeq::rewrite::rewrite;
use treeq::syntax::{ChildSlot, SyntaxNode};
use treeq::value::{bytes_eq, record_get, SemanticValue};

fn key(s: &str) -> Vec<u8> {
    s.as_bytes().to_vec()
}

fn rec(entries: Vec<(&str, SemanticValue)>) -> SemanticValue {
    SemanticValue::Rec(entries.into_iter().map(|(k, v)| (key(k), v)).collect())
}

fn s(v: &str) -> SemanticValue {
    SemanticValue::Str(v.as_bytes().to_vec())
}

fn node_rec(kind: &str, start: i64, end: i64, extra: Vec<(&str, SemanticValue)>) -> SemanticValue {
    let mut entries = vec![
        ("kind", s(kind)),
        ("start_byte", SemanticValue::Int(start)),
        ("end_byte", SemanticValue::Int(end)),
    ];
    entries.extend(extra);
    rec(entries)
}

fn replace_rec(start: i64, end: i64, entries: Vec<SemanticValue>) -> SemanticValue {
    rec(vec![
        ("kind", s("_treeq_replace")),
        ("start_byte", SemanticValue::Int(start)),
        ("end_byte", SemanticValue::Int(end)),
        ("entries", SemanticValue::List(entries)),
    ])
}

fn highlight_rec(start: i64, end: i64, message: &str) -> SemanticValue {
    rec(vec![
        ("kind", s("_treeq_highlight")),
        ("start_byte", SemanticValue::Int(start)),
        ("end_byte", SemanticValue::Int(end)),
        ("message", s(message)),
    ])
}

fn leaf(kind: &str, start: usize, end: usize) -> SyntaxNode {
    SyntaxNode { kind: key(kind), start, end, slots: vec![] }
}

#[test]
fn bytes_eq_compares_contents() {
    assert!(bytes_eq(b"abc", b"abc"));
    assert!(!bytes_eq(b"abc", b"abd"));
    assert!(!bytes_eq(b"abc", b"ab"));
    assert!(bytes_eq(b"", b""));
}

#[test]
fn record_get_finds_first_match() {
    let v = vec![
        (key("a"), SemanticValue::Int(1)),
        (key("b"), SemanticValue::Int(2)),
        (key("a"), SemanticValue::Int(3)),
    ];
    assert_eq!(record_get(&v, b"a"), Some(&SemanticValue::Int(1)));
    assert_eq!(record_get(&v, b"b"), Some(&SemanticValue::Int(2)));
    assert_eq!(record_get(&v, b"c"), None);
}

#[test]
fn convert_leaf_carries_value_slice() {
    let source = b"let x = 1 + 2;";
    let n = leaf("identifier", 4, 5);
    let v = convert(&n, source);
    assert_eq!(
        v,
        node_rec("identifier", 4, 5, vec![("value", s("x"))]),
    );
}

#[test]
fn convert_routes_labelled_and_unlabelled_children() {
    let source = b"let x = 1 + 2;";
    let n = SyntaxNode {
        kind: key("let_declaration"),
        start: 0,
        end: 14,
        slots: vec![
            ChildSlot { label: Some(key("pattern")), child: leaf("identifier", 4, 5) },
            ChildSlot { label: None, child: leaf("integer_literal", 8, 9) },
        ],
    };
    let v = convert(&n, source);
    assert_eq!(
        v,
        node_rec(
            "let_declaration",
            0,
            14,
            vec![
                ("pattern", node_rec("identifier", 4, 5, vec![("value", s("x"))])),
                (
                    "children",
                    SemanticValue::List(vec![node_rec(
                        "integer_literal",
                        8,
                        9,
                        vec![("value", s("1"))],
                    )]),
                ),
            ],
        ),
    );
}

#[test]
fn convert_value_present_iff_no_named_children() {
    let source = b"(a)";
    // A node with anonymous children only is still a leaf: the
    // parenthesized node spans all three bytes and its slice shows that.
    let paren = leaf("parenthesized", 0, 3);
    let v = convert(&paren, source);
    assert_eq!(v, node_rec("parenthesized", 0, 3, vec![("value", s("(a)"))]));
    // One named child: no value entry.
    let outer = SyntaxNode {
        kind: key("parenthesized"),
        start: 0,
        end: 3,
        slots: vec![ChildSlot { label: None, child: leaf("identifier", 1, 2) }],
    };
    let v = convert(&outer, source);
    assert_eq!(
        v,
        node_rec(
            "parenthesized",
            0,
            3,
            vec![(
                "children",
                SemanticValue::List(vec![node_rec("identifier", 1, 2, vec![("value", s("a"))])]),
            )],
        ),
    );
}

#[test]
fn decode_replace_directive() {
    let v = replace_rec(4, 5, vec![s("y")]);
    let d = decode(&v).unwrap();
    assert_eq!(
        d,
        DirectiveNode::Replace {
            start: 4,
            end: 5,
            entries: vec![ReplaceEntry::Lit(key("y"))],
        },
    );
}

#[test]
fn decode_highlight_directive() {
    let v = highlight_rec(2, 7, "found it");
    let d = decode(&v).unwrap();
    assert_eq!(
        d,
        DirectiveNode::Highlight { start: 2, end: 7, message: key("found it") },
    );
}

#[test]
fn decode_passthrough_keeps_every_key() {
    let v = node_rec(
        "let_declaration",
        0,
        14,
        vec![
            ("pattern", node_rec("identifier", 4, 5, vec![("value", s("x"))])),
            (
                "children",
                SemanticValue::List(vec![node_rec("integer_literal", 8, 9, vec![])]),
            ),
        ],
    );
    let d = decode(&v).unwrap();
    match d {
        DirectiveNode::Passthrough { kind, start, end, children, fields, value } => {
            assert_eq!(kind, key("let_declaration"));
            assert_eq!((start, end), (0, 14));
            assert_eq!(children.as_ref().map(|c| c.len()), Some(1));
            assert_eq!(fields.len(), 1);
            assert_eq!(fields[0].0, key("pattern"));
            assert!(value.is_none());
        }
        other => panic!("expected a passthrough, got {other:?}"),
    }
}

#[test]
fn decode_replace_nested_in_a_field_is_found() {
    let v = node_rec(
        "source_file",
        0,
        14,
        vec![("pattern", replace_rec(4, 5, vec![s("y")]))],
    );
    let d = decode(&v).unwrap();
    match d {
        DirectiveNode::Passthrough { fields, .. } => {
            assert_eq!(
                fields[0].1,
                DirectiveNode::Replace {
                    start: 4,
                    end: 5,
                    entries: vec![ReplaceEntry::Lit(key("y"))],
                },
            );
        }
        other => panic!("expected a passthrough, got {other:?}"),
    }
}

#[test]
fn decode_rejects_replace_inside_entries() {
    // A replace nested in another replace's entries is malformed.
    let v = replace_rec(4, 5, vec![replace_rec(0, 1, vec![])]);
    assert!(decode(&v).is_err());
}

#[test]
fn decode_rejects_highlight_inside_entries() {
    let v = replace_rec(4, 5, vec![highlight_rec(0, 1, "no")]);
    assert!(decode(&v).is_err());
}

#[test]
fn decode_rejects_shapes_without_a_directive_form() {
    assert!(decode(&SemanticValue::Null).is_err());
    assert!(decode(&SemanticValue::Int(3)).is_err());
    assert!(decode(&s("just text")).is_err());
    assert!(decode(&SemanticValue::List(vec![])).is_err());
    // A record without a kind entry.
    assert!(decode(&rec(vec![("start_byte", SemanticValue::Int(0))])).is_err());
    // A record whose span is missing or negative.
    assert!(decode(&rec(vec![("kind", s("x"))])).is_err());
    assert!(decode(&node_rec("x", -1, 4, vec![])).is_err());
    // A replace whose entries hold a number.
    assert!(decode(&replace_rec(0, 1, vec![SemanticValue::Int(7)])).is_err());
    // A replace without entries.
    assert!(
        decode(&rec(vec![
            ("kind", s("_treeq_replace")),
            ("start_byte", SemanticValue::Int(0)),
            ("end_byte", SemanticValue::Int(1)),
        ]))
        .is_err()
    );
    // A highlight without a message.
    assert!(
        decode(&rec(vec![
            ("kind", s("_treeq_highlight")),
            ("start_byte", SemanticValue::Int(0)),
            ("end_byte", SemanticValue::Int(1)),
        ]))
        .is_err()
    );
}

#[test]
fn rewrite_deletion_shortens_by_the_span() {
    let source = b"let x = 1 + 2;";
    let d = DirectiveNode::Replace { start: 4, end: 6, entries: vec![] };
    let out = rewrite(&d, source).unwrap();
    assert_eq!(out.len(), source.len() - 2);
    assert_eq!(&out[..4], &source[..4]);
    assert_eq!(&out[4..], &source[6..]);
    assert_eq!(out, b"let = 1 + 2;");
}

#[test]
fn rewrite_single_replacement() {
    let source = b"let x = 1 + 2;";
    let d = DirectiveNode::Replace {
        start: 4,
        end: 5,
        entries: vec![ReplaceEntry::Lit(key("y"))],
    };
    assert_eq!(rewrite(&d, source).unwrap(), b"let y = 1 + 2;");
}

#[test]
fn rewrite_two_directives_in_document_order() {
    let source = b"let x = 1 + 2;";
    let r1 = DirectiveNode::Replace { start: 4, end: 5, entries: vec![ReplaceEntry::Lit(key("y"))] };
    let r2 =
        DirectiveNode::Replace { start: 8, end: 9, entries: vec![ReplaceEntry::Lit(key("42"))] };
    let d = DirectiveNode::Passthrough {
        kind: key("wrap"),
        start: 0,
        end: 0,
        children: Some(vec![r1, r2]),
        fields: vec![],
        value: None,
    };
    assert_eq!(rewrite(&d, source).unwrap(), b"let y = 42 + 2;");
}

#[test]
fn rewrite_two_directives_emitted_in_reverse_order() {
    // The same two directives with the later span emitted first: the
    // engine still applies them in ascending original-offset order.
    let source = b"let x = 1 + 2;";
    let r1 = DirectiveNode::Replace { start: 4, end: 5, entries: vec![ReplaceEntry::Lit(key("y"))] };
    let r2 =
        DirectiveNode::Replace { start: 8, end: 9, entries: vec![ReplaceEntry::Lit(key("42"))] };
    let d = DirectiveNode::Passthrough {
        kind: key("wrap"),
        start: 0,
        end: 0,
        children: Some(vec![r2, r1]),
        fields: vec![],
        value: None,
    };
    assert_eq!(rewrite(&d, source).unwrap(), b"let y = 42 + 2;");
}

#[test]
fn rewrite_adjustment_accumulates_over_many_edits() {
    // Three edits of different growth: net delta is +2 - 1 + 3 = +4.
    let source = b"abcdefghij";
    let mk = |start: usize, end: usize, text: &str| DirectiveNode::Replace {
        start,
        end,
        entries: vec![ReplaceEntry::Lit(key(text))],
    };
    let d = DirectiveNode::Passthrough {
        kind: key("wrap"),
        start: 0,
        end: 0,
        children: Some(vec![mk(0, 1, "AAA"), mk(3, 5, "B"), mk(7, 8, "CCCC")]),
        fields: vec![],
        value: None,
    };
    let out = rewrite(&d, source).unwrap();
    assert_eq!(out, b"AAAbcBfgCCCCij");
    assert_eq!(out.len(), source.len() + 4);
}

#[test]
fn rewrite_resolves_node_entries_from_the_original() {
    // Swap two words by referencing their original slices.
    let source = b"one two";
    let one = DirectiveNode::Passthrough {
        kind: key("word"),
        start: 0,
        end: 3,
        children: None,
        fields: vec![],
        value: None,
    };
    let two = DirectiveNode::Passthrough {
        kind: key("word"),
        start: 4,
        end: 7,
        children: None,
        fields: vec![],
        value: None,
    };
    let d = DirectiveNode::Passthrough {
        kind: key("wrap"),
        start: 0,
        end: 0,
        children: Some(vec![
            DirectiveNode::Replace {
                start: 0,
                end: 3,
                entries: vec![ReplaceEntry::Node(Box::new(two))],
            },
            DirectiveNode::Replace {
                start: 4,
                end: 7,
                entries: vec![ReplaceEntry::Node(Box::new(one))],
            },
        ]),
        fields: vec![],
        value: None,
    };
    assert_eq!(rewrite(&d, source).unwrap(), b"two one");
}

#[test]
fn rewrite_rejects_overlapping_spans() {
    let source = b"abcdef";
    let d = DirectiveNode::Passthrough {
        kind: key("wrap"),
        start: 0,
        end: 0,
        children: Some(vec![
            DirectiveNode::Replace { start: 0, end: 3, entries: vec![] },
            DirectiveNode::Replace { start: 2, end: 4, entries: vec![] },
        ]),
        fields: vec![],
        value: None,
    };
    assert!(rewrite(&d, source).is_err());
}

#[test]
fn rewrite_rejects_a_span_out_of_bounds() {
    let source = b"abc";
    let d = DirectiveNode::Replace { start: 2, end: 7, entries: vec![] };
    assert!(rewrite(&d, source).is_err());
    let d = DirectiveNode::Replace { start: 5, end: 2, entries: vec![] };
    assert!(rewrite(&d, source).is_err());
}

#[test]
fn rewrite_rejects_an_entry_span_out_of_bounds() {
    let source = b"abc";
    let stray = DirectiveNode::Passthrough {
        kind: key("word"),
        start: 1,
        end: 9,
        children: None,
        fields: vec![],
        value: None,
    };
    let d = DirectiveNode::Replace {
        start: 0,
        end: 1,
        entries: vec![ReplaceEntry::Node(Box::new(stray))],
    };
    assert!(rewrite(&d, source).is_err());
}

#[test]
fn rewrite_allows_touching_spans() {
    let source = b"abcd";
    let d = DirectiveNode::Passthrough {
        kind: key("wrap"),
        start: 0,
        end: 0,
        children: Some(vec![
            DirectiveNode::Replace { start: 0, end: 2, entries: vec![ReplaceEntry::Lit(key("X"))] },
            DirectiveNode::Replace { start: 2, end: 4, entries: vec![ReplaceEntry::Lit(key("Y"))] },
        ]),
        fields: vec![],
        value: None,
    };
    assert_eq!(rewrite(&d, source).unwrap(), b"XY");
}

#[test]
fn rewrite_finds_a_replace_in_a_value_slot() {
    let source = b"abc";
    let nested = DirectiveNode::Replace { start: 1, end: 2, entries: vec![] };
    let d = DirectiveNode::Passthrough {
        kind: key("leafish"),
        start: 0,
        end: 3,
        children: None,
        fields: vec![],
        value: Some(ValueSlot::Node(Box::new(nested))),
    };
    assert_eq!(rewrite(&d, source).unwrap(), b"ac");
}

#[test]
fn reports_list_directives_with_their_messages() {
    let d = DirectiveNode::Passthrough {
        kind: key("wrap"),
        start: 0,
        end: 10,
        children: Some(vec![
            DirectiveNode::Highlight { start: 1, end: 2, message: key("look here") },
            DirectiveNode::Replace { start: 4, end: 6, entries: vec![] },
        ]),
        fields: vec![],
        value: None,
    };
    let rs = reports(&d);
    assert_eq!(rs.len(), 2);
    assert_eq!((rs[0].start, rs[0].end, rs[0].replaces), (1, 2, false));
    assert_eq!(rs[0].message, key("look here"));
    assert_eq!((rs[1].start, rs[1].end, rs[1].replaces), (4, 6, true));
    assert_eq!(rs[1].message, key("will be replaced"));
}

#[test]
fn identity_round_trip_of_a_converted_tree() {
    // Decoding the converter's own output keeps the kind, span,
    // children and value structure.
    let source = b"let x = 1 + 2;";
    let n = SyntaxNode {
        kind: key("let_declaration"),
        start: 0,
        end: 14,
        slots: vec![
            ChildSlot { label: Some(key("pattern")), child: leaf("identifier", 4, 5) },
            ChildSlot { label: None, child: leaf("integer_literal", 8, 9) },
        ],
    };
    let v = convert(&n, source);
    let d = decode(&v).unwrap();
    assert_eq!(
        d,
        DirectiveNode::Passthrough {
            kind: key("let_declaration"),
            start: 0,
            end: 14,
            children: Some(vec![DirectiveNode::Passthrough {
                kind: key("integer_literal"),
                start: 8,
                end: 9,
                children: None,
                fields: vec![],
                value: Some(ValueSlot::Text(key("1"))),
            }]),
            fields: vec![(
                key("pattern"),
                DirectiveNode::Passthrough {
                    kind: key("identifier"),
                    start: 4,
                    end: 5,
                    children: None,
                    fields: vec![],
                    value: Some(ValueSlot::Text(key("x"))),
                },
            )],
            value: None,
        },
    );
}

#[test]
fn encode_after_decode_returns_the_converted_value() {
    let source = b"let x = 1 + 2;";
    let n = SyntaxNode {
        kind: key("let_declaration"),
        start: 0,
        end: 14,
        slots: vec![
            ChildSlot { label: Some(key("pattern")), child: leaf("identifier", 4, 5) },
            ChildSlot { label: None, child: leaf("integer_literal", 8, 9) },
        ],
    };
    let v = convert(&n, source);
    let d = decode(&v).unwrap();
    assert_eq!(treeq::roundtrip::encode(&d), v);
}

#[test]
fn encode_rebuilds_directive_records() {
    let d = DirectiveNode::Replace {
        start: 4,
        end: 5,
        entries: vec![ReplaceEntry::Lit(key("y"))],
    };
    let v = treeq::roundtrip::encode(&d);
    assert_eq!(decode(&v).unwrap(), d);
    let h = DirectiveNode::Highlight { start: 1, end: 3, message: key("note") };
    let v = treeq::roundtrip::encode(&h);
    assert_eq!(decode(&v).unwrap(), h);
}

#[test]
fn reports_come_in_ascending_span_order() {
    // Two directives emitted with the later span first: the renderer
    // still reports them in document order.
    let d = DirectiveNode::Passthrough {
        kind: key("wrap"),
        start: 0,
        end: 10,
        children: Some(vec![
            DirectiveNode::Replace { start: 4, end: 6, entries: vec![] },
            DirectiveNode::Highlight { start: 1, end: 2, message: key("look here") },
        ]),
        fields: vec![],
        value: None,
    };
    let rs = reports(&d);
    assert_eq!(rs.len(), 2);
    assert_eq!((rs[0].start, rs[0].end, rs[0].replaces), (1, 2, false));
    assert_eq!((rs[1].start, rs[1].end, rs[1].replaces), (4, 6, true));
}
