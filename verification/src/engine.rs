//! The query engine adapter: compiles a jq-style filter once, linked
//! against the standard library and a small library of directive
//! constructors, and evaluates it against one semantic value per file.
//!
//! The engine itself is an external collaborator. Its calls stand
//! behind trusted wrappers; what the library guarantees is the contract
//! around them: exactly one output value is accepted, and everything
//! downstream (decoding, rewriting, reporting) is verified for every
//! value the engine can hand back.

use vstd::prelude::*;

use crate::convert::{convert, max_offset};
use crate::directive::{decode, decode_spec, DecodeError, DirectiveNode};
use crate::render::{reports, reports_of, Report};
use crate::rewrite::{rewrite, rewrite_ok, rewrite_spec, OffsetError};
use crate::syntax::{node_wf, SyntaxNode};
use crate::value::{sem_model, SemModel, SemanticValue};

verus! {

/// The jq definitions of the directive constructors: `replace` wraps a
/// span (or the node at hand) and an entries list into the replace
/// shape the decoder recognizes, `highlight` wraps the node at hand and
/// a message into the highlight shape.
pub fn directive_defs() -> (r: &'static str) {
    "def replace($s; $e; $es): {kind: \"_treeq_replace\", start_byte: $s, end_byte: $e, entries: $es};\ndef replace($es): {kind: \"_treeq_replace\", start_byte: .start_byte, end_byte: .end_byte, entries: $es};\ndef highlight($m): {kind: \"_treeq_highlight\", start_byte: .start_byte, end_byte: .end_byte, message: $m};\n"
}

/// Declares the engine's value type, opaquely: the wrappers below take
/// it apart and put it together.
#[verifier::external_type_specification]
#[verifier::external_body]
pub struct ExVal(jaq_json::Val);

/// Declares the engine's number type, opaquely.
#[verifier::external_type_specification]
#[verifier::external_body]
pub struct ExNum(jaq_json::Num);

/// Declares the engine's error type, opaquely: it reaches this crate
/// only inside the engine's own value type.
#[verifier::external_type_specification]
#[verifier::external_body]
#[verifier::reject_recursive_types(V)]
pub struct ExError<V>(jaq_core::Error<V>);

/// A filter program compiled once; immutable afterwards and reusable
/// across files. The compiled program is jaq's own type, held opaquely:
/// its type parameters carry a trait bound of the engine's that cannot
/// be declared to the verifier, so the struct is opaque as a whole.
#[verifier::external_body]
pub struct QuerySession {
    filter: jaq_core::Filter<jaq_core::data::JustLut<jaq_json::Val>>,
}

/// Turns a semantic value into the engine's value type, variant by
/// variant.
/// Relies on jaq_json::Val's constructors: strings as UTF-8 bytes,
/// sequences as arrays.
#[verifier::external_body]
fn value_to_val(v: &SemanticValue) -> (r: jaq_json::Val)
{
    match v {
        SemanticValue::Null => jaq_json::Val::Null,
        SemanticValue::Bool(b) => jaq_json::Val::from(*b),
        SemanticValue::Int(i) => jaq_json::Val::from(*i as isize),
        SemanticValue::Str(s) => jaq_json::Val::utf8_str(s.clone()),
        SemanticValue::List(items) => {
            jaq_json::Val::Arr(std::rc::Rc::new(items.iter().map(value_to_val).collect()))
        },
        SemanticValue::Rec(entries) => rec_to_val(entries),
    }
}

/// Turns a record into the engine's object, keeping insertion order.
/// Relies on jaq_json::Val::obj and the order-preserving map behind it.
#[verifier::external_body]
fn rec_to_val(entries: &Vec<(Vec<u8>, SemanticValue)>) -> (r: jaq_json::Val)
{
    let m = entries
        .iter()
        .map(|kv| (jaq_json::Val::utf8_str(kv.0.clone()), value_to_val(&kv.1)))
        .collect();
    jaq_json::Val::obj(m)
}

/// Turns an engine value back into a semantic value, variant by
/// variant.
/// Relies on jaq_json::Val's accessors: strings hand back their bytes,
/// arrays convert element-wise in order.
#[verifier::external_body]
fn val_to_value(v: &jaq_json::Val) -> (r: Result<SemanticValue, String>)
{
    match v {
        jaq_json::Val::Null => Ok(SemanticValue::Null),
        jaq_json::Val::Bool(b) => Ok(SemanticValue::Bool(*b)),
        jaq_json::Val::Num(n) => num_to_value(n),
        jaq_json::Val::TStr(b) | jaq_json::Val::BStr(b) => Ok(SemanticValue::Str(b.to_vec())),
        jaq_json::Val::Arr(a) => {
            Ok(SemanticValue::List(a.iter().map(val_to_value).collect::<Result<_, _>>()?))
        },
        jaq_json::Val::Obj(m) => {
            Ok(SemanticValue::Rec(m.iter().map(entry_to_value).collect::<Result<_, _>>()?))
        },
    }
}

/// Turns an engine number into an integer.
/// Relies on jaq_json::Num::as_isize: a machine integer hands its value
/// back; any other number has no semantic value shape and is an error.
#[verifier::external_body]
fn num_to_value(n: &jaq_json::Num) -> (r: Result<SemanticValue, String>)
{
    match n.as_isize() {
        Some(i) => Ok(SemanticValue::Int(i as i64)),
        None => Err("filter output holds a number that is not a machine integer".to_string()),
    }
}

/// Turns one object entry back into a record entry.
/// Relies on jaq_json::Val's string variants: an object key that is not
/// a string has no record shape and is an error.
#[verifier::external_body]
fn entry_to_value(kv: (&jaq_json::Val, &jaq_json::Val)) -> (r: Result<
    (Vec<u8>, SemanticValue),
    String,
>)
{
    match kv.0 {
        jaq_json::Val::TStr(k) | jaq_json::Val::BStr(k) => Ok((k.to_vec(), val_to_value(kv.1)?)),
        _ => Err("filter output holds an object key that is not a string".to_string()),
    }
}

impl QuerySession {
    /// Compiles a filter program, linked against jaq's core, standard
    /// and JSON definitions and the directive constructors.
    /// Relies on jaq_core's Loader and Compiler: a program that loads
    /// and compiles without errors yields a filter; any load or compile
    /// error is reported as the error string.
    #[verifier::external_body]
    pub fn new(program: &str) -> (r: Result<QuerySession, String>)
    {
        let arena = jaq_core::load::Arena::default();
        let own = jaq_core::load::parse(directive_defs(), |p| p.defs())
            .ok_or_else(|| "the directive constructor definitions did not parse".to_string())?;
        let defs = jaq_core::defs().chain(jaq_std::defs()).chain(jaq_json::defs()).chain(own);
        let loader = jaq_core::load::Loader::new(defs);
        let modules = loader
            .load(&arena, jaq_core::load::File { code: program, path: () })
            .map_err(|es| format!("{es:?}"))?;
        let funs = jaq_core::funs().chain(jaq_std::funs()).chain(jaq_json::funs());
        let filter = jaq_core::Compiler::default()
            .with_funs(funs)
            .compile(modules)
            .map_err(|es| format!("{es:?}"))?;
        Ok(QuerySession { filter })
    }

    /// Runs the compiled filter on one input value with an empty
    /// auxiliary input stream and collects its output values in order,
    /// drawing at most two: one is the contract, and a second already
    /// violates it, so the stream is never drained further and a filter
    /// with endless outputs still fails fast.
    /// Relies on jaq_core's interpreter (`TermId::run`): outputs come
    /// from the compiled program alone; a runtime error or halt is
    /// reported as the error string.
    #[verifier::external_body]
    fn run_outputs(&self, input: &SemanticValue) -> (r: Result<Vec<SemanticValue>, String>)
    {
        let vars = jaq_core::Vars::new([]);
        let ctx = jaq_core::Ctx::<jaq_core::data::JustLut<jaq_json::Val>>::new(&self.filter.lut, vars);
        let mut out: Vec<SemanticValue> = Vec::new();
        for item in self.filter.id.run((ctx, value_to_val(input))).take(2) {
            let v = item.map_err(|e| match e.get_err() {
                Ok(err) => err.to_string(),
                Err(_) => "the filter halted".to_string(),
            })?;
            out.push(val_to_value(&v)?);
        }
        Ok(out)
    }

    /// Evaluates the filter against one semantic value. Exactly one
    /// output value is accepted; zero or several violate the one-output
    /// contract, a usage error of the filter. An output-count error
    /// never reports a count of one.
    pub fn evaluate(&self, input: &SemanticValue) -> (r: Result<SemanticValue, EngineError>)
        ensures
            r matches Err(EngineError::OutputCount(k)) ==> k != 1,
    {
        match self.run_outputs(input) {
            Ok(outputs) => expect_single(outputs),
            Err(msg) => Err(EngineError::Runtime(msg)),
        }
    }
}

/// An evaluation failed: the engine reported an error, or the filter
/// broke the one-output contract.
#[derive(Debug)]
pub enum EngineError {
    /// The engine reported a runtime error, with its message.
    Runtime(String),
    /// The filter did not produce exactly one output value: this many
    /// were drawn (at most two are ever drawn from its output stream).
    OutputCount(usize),
}

/// Enforces the one-output contract: the single output value of an
/// evaluation, or the count that violated it.
pub fn expect_single(outputs: Vec<SemanticValue>) -> (r: Result<SemanticValue, EngineError>)
    ensures
        outputs@.len() == 1 ==> (r matches Ok(v) && v == outputs@[0]),
        outputs@.len() != 1 ==> (r matches Err(e) && e matches EngineError::OutputCount(k)
            && k == outputs@.len()),
{
    let n = outputs.len();
    if n == 1 {
        let mut outputs = outputs;
        match outputs.pop() {
            Some(v) => Ok(v),
            None => Err(EngineError::OutputCount(0)),
        }
    } else {
        Err(EngineError::OutputCount(n))
    }
}

/// What can end a file's processing: evaluation, decoding, or offset
/// bookkeeping.
#[derive(Debug)]
pub enum PipelineError {
    /// The engine failed or broke the one-output contract.
    Engine(EngineError),
    /// The output value fits no directive shape.
    Decode(DecodeError),
    /// A replacement span left the buffer, or two replacements overlap.
    Offset(OffsetError),
}

/// The compute pipeline of the rewriting mode, for one file: convert
/// the tree, evaluate the filter on it, decode the single output value
/// as a directive tree, and apply its replacements to the source. Every
/// step after the engine is verified for every value the engine can
/// return: on success the output is exactly the rewrite of some
/// decodable output value.
pub fn rewrite_source(session: &QuerySession, tree: &SyntaxNode, source: &[u8]) -> (r: Result<
    Vec<u8>,
    PipelineError,
>)
    requires
        node_wf(*tree, source@.len() as int),
        source@.len() <= max_offset(),
    ensures
        r matches Ok(out) ==> exists|v: SemModel|
            {
                &&& (#[trigger] decode_spec(v)) matches Some(d)
                &&& rewrite_ok(d, source@)
                &&& out@ == rewrite_spec(d, source@)
            },
        r matches Err(PipelineError::Engine(EngineError::OutputCount(k))) ==> k != 1,
{
    let value = convert(tree, source);
    let output = match session.evaluate(&value) {
        Ok(v) => v,
        Err(e) => {
            return Err(PipelineError::Engine(e));
        },
    };
    let directive = match decode(&output) {
        Ok(d) => d,
        Err(e) => {
            return Err(PipelineError::Decode(e));
        },
    };
    match rewrite(&directive, source) {
        Ok(out) => {
            proof {
                let v = sem_model(output);
                assert(decode_spec(v) matches Some(d) && rewrite_ok(d, source@) && out@
                    == rewrite_spec(d, source@));
            }
            Ok(out)
        },
        Err(e) => Err(PipelineError::Offset(e)),
    }
}

/// The compute pipeline of the searching mode, for one file: convert,
/// evaluate, decode, and report every directive found, in ascending span
/// order, without touching the source. On success the reports are
/// exactly those of some decodable output value.
pub fn report_source(session: &QuerySession, tree: &SyntaxNode, source: &[u8]) -> (r: Result<
    Vec<Report>,
    PipelineError,
>)
    requires
        node_wf(*tree, source@.len() as int),
        source@.len() <= max_offset(),
    ensures
        r matches Ok(rs) ==> exists|v: SemModel|
            {
                &&& (#[trigger] decode_spec(v)) matches Some(d)
                &&& crate::render::report_models(rs@) == crate::render::sort_reports(
                    reports_of(d),
                )
            },
        r matches Err(PipelineError::Engine(EngineError::OutputCount(k))) ==> k != 1,
{
    let value = convert(tree, source);
    let output = match session.evaluate(&value) {
        Ok(v) => v,
        Err(e) => {
            return Err(PipelineError::Engine(e));
        },
    };
    let directive = match decode(&output) {
        Ok(d) => d,
        Err(e) => {
            return Err(PipelineError::Decode(e));
        },
    };
    let rs = reports(&directive);
    proof {
        let v = sem_model(output);
        assert(decode_spec(v) matches Some(d) && crate::render::report_models(rs@)
            == crate::render::sort_reports(reports_of(d)));
    }
    Ok(rs)
}

} // verus!
