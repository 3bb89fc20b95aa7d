//! Tests of the full pipeline with the real parser and query engine.

use treeq::engine::{expect_single, rewrite_source, report_source, EngineError, QuerySession};
use treeq::langs::CliLang;
use treeq::syntax::{ChildSlot, SyntaxNode};
use treeq::value::SemanticValue;

fn key(s: &str) -> Vec<u8> {
    s.as_bytes().to_vec()
}

/// Builds the library's tree from the external parser's, keeping each
/// named child and its grammar-assigned field name.
fn to_syntax(node: tree_sitter::Node) -> SyntaxNode {
    let mut slots = Vec::new();
    let mut cursor = node.walk();
    let children: Vec<tree_sitter::Node> = node.named_children(&mut cursor).collect();
    for (i, child) in children.into_iter().enumerate() {
        let label = node
            .field_name_for_named_child(i as u32)
            .map(|name| name.as_bytes().to_vec());
        slots.push(ChildSlot { label, child: to_syntax(child) });
    }
    SyntaxNode {
        kind: node.kind().as_bytes().to_vec(),
        start: node.start_byte(),
        end: node.end_byte(),
        slots,
    }
}

fn parse_rust(source: &str) -> SyntaxNode {
    let lang = CliLang::Rust.to_lang();
    let mut parser = tree_sitter::Parser::new();
    parser.set_language(&lang.grammar.into()).unwrap();
    let tree = parser.parse(source, None).unwrap();
    to_syntax(tree.root_node())
}

#[test]
fn expect_single_accepts_exactly_one_output() {
    let one = vec![SemanticValue::Int(7)];
    assert!(matches!(expect_single(one), Ok(SemanticValue::Int(7))));
    assert!(matches!(
        expect_single(vec![]),
        Err(EngineError::OutputCount(0)),
    ));
    let two = vec![SemanticValue::Int(1), SemanticValue::Int(2)];
    assert!(matches!(
        expect_single(two),
        Err(EngineError::OutputCount(2)),
    ));
}

#[test]
fn to_lang_names_the_file_types() {
    assert_eq!(CliLang::Rust.to_lang().file_type, b"rust".to_vec());
    assert_eq!(CliLang::Php.to_lang().file_type, b"php".to_vec());
}

#[test]
fn session_rejects_a_bad_filter() {
    assert!(QuerySession::new(".kind |").is_err());
    assert!(QuerySession::new("no_such_function_here(1)").is_err());
}

#[test]
fn identity_filter_passes_the_value_through() {
    let session = QuerySession::new(".").unwrap();
    let input = SemanticValue::Rec(vec![
        (key("kind"), SemanticValue::Str(key("identifier"))),
        (key("start_byte"), SemanticValue::Int(4)),
        (key("end_byte"), SemanticValue::Int(5)),
        (key("value"), SemanticValue::Str(key("x"))),
        (key("flag"), SemanticValue::Bool(true)),
        (key("nothing"), SemanticValue::Null),
        (
            key("children"),
            SemanticValue::List(vec![SemanticValue::Int(-3)]),
        ),
    ]);
    let out = session.evaluate(&input).unwrap();
    assert_eq!(out, input);
}

#[test]
fn a_filter_with_two_outputs_breaks_the_contract() {
    let session = QuerySession::new("., .").unwrap();
    let r = session.evaluate(&SemanticValue::Null);
    assert!(matches!(r, Err(EngineError::OutputCount(2))));
}

#[test]
fn replace_constructor_builds_the_directive_shape() {
    let session = QuerySession::new("replace([\"y\"])").unwrap();
    let input = SemanticValue::Rec(vec![
        (key("kind"), SemanticValue::Str(key("identifier"))),
        (key("start_byte"), SemanticValue::Int(4)),
        (key("end_byte"), SemanticValue::Int(5)),
    ]);
    let out = session.evaluate(&input).unwrap();
    let d = treeq::directive::decode(&out).unwrap();
    assert_eq!(
        d,
        treeq::directive::DirectiveNode::Replace {
            start: 4,
            end: 5,
            entries: vec![treeq::directive::ReplaceEntry::Lit(key("y"))],
        },
    );
}

#[test]
fn end_to_end_single_replacement() {
    // Locate the identifier `x` spanning bytes [4, 5) and replace it.
    let source = "let x = 1 + 2;";
    let tree = parse_rust(source);
    let session = QuerySession::new(
        "[.. | objects | select(.kind == \"identifier\")] | first | replace([\"y\"])",
    )
    .unwrap();
    let out = rewrite_source(&session, &tree, source.as_bytes()).unwrap();
    assert_eq!(out, b"let y = 1 + 2;");
}

#[test]
fn end_to_end_two_replacements_in_either_emission_order() {
    let source = "let x = 1 + 2;";
    let tree = parse_rust(source);
    let forward = "{kind: \"wrap\", start_byte: 0, end_byte: 0, children: [\
        ([.. | objects | select(.kind == \"identifier\")] | first | replace([\"y\"])), \
        ([.. | objects | select(.kind == \"integer_literal\")] | first | replace([\"42\"]))]}";
    let backward = "{kind: \"wrap\", start_byte: 0, end_byte: 0, children: [\
        ([.. | objects | select(.kind == \"integer_literal\")] | first | replace([\"42\"])), \
        ([.. | objects | select(.kind == \"identifier\")] | first | replace([\"y\"]))]}";
    for filter in [forward, backward] {
        let session = QuerySession::new(filter).unwrap();
        let out = rewrite_source(&session, &tree, source.as_bytes()).unwrap();
        assert_eq!(out, b"let y = 42 + 2;", "filter: {filter}");
    }
}

#[test]
fn end_to_end_highlight_reports() {
    let source = "let x = 1 + 2;";
    let tree = parse_rust(source);
    let session = QuerySession::new(
        "[.. | objects | select(.kind == \"identifier\")] | first | highlight(\"a name\")",
    )
    .unwrap();
    let rs = report_source(&session, &tree, source.as_bytes()).unwrap();
    assert_eq!(rs.len(), 1);
    assert_eq!((rs[0].start, rs[0].end), (4, 5));
    assert_eq!(rs[0].message, key("a name"));
    assert!(!rs[0].replaces);
}

#[test]
fn parser_leaves_find_their_text() {
    // The converted tree of real source carries leaf text: the span
    // [4, 5) belongs to the identifier `x`.
    let source = "let x = 1 + 2;";
    let tree = parse_rust(source);
    let v = treeq::convert::convert(&tree, source.as_bytes());
    let session = QuerySession::new(
        "[.. | objects | select(.kind == \"identifier\")] | first | {s: .start_byte, e: .end_byte, v: .value}",
    )
    .unwrap();
    let out = session.evaluate(&v).unwrap();
    assert_eq!(
        out,
        SemanticValue::Rec(vec![
            (key("s"), SemanticValue::Int(4)),
            (key("e"), SemanticValue::Int(5)),
            (key("v"), SemanticValue::Str(key("x"))),
        ]),
    );
}

#[test]
fn a_failing_filter_reports_a_runtime_error() {
    let session = QuerySession::new("error(\"boom\")").unwrap();
    let r = session.evaluate(&SemanticValue::Null);
    assert!(matches!(r, Err(EngineError::Runtime(_))));
}

#[test]
fn a_float_producing_filter_has_no_semantic_value() {
    // Numbers that are not machine integers have no place in a
    // semantic value; the conversion back reports the error.
    let session = QuerySession::new("1.5").unwrap();
    let r = session.evaluate(&SemanticValue::Null);
    assert!(matches!(r, Err(EngineError::Runtime(_))));
}

#[test]
fn an_unbounded_filter_fails_fast() {
    // A filter with endless outputs violates the one-output contract as
    // soon as a second output appears; the stream is never drained.
    let session = QuerySession::new("repeat(0)").unwrap();
    let r = session.evaluate(&SemanticValue::Null);
    assert!(matches!(r, Err(EngineError::OutputCount(2))));
}
