//! JSON texts: what bytes hold, and how values are written.
//!
//! Reading and writing is the work of `serde_json`. Here its values are taken
//! apart and put together.

use super::json;
use super::json::Json;
use super::wire;
use super::wire::{Code, Published};
use super::{Position, Range, Severity};
use crate::text;
use lsp_types::{Diagnostic, DiagnosticSeverity, NumberOrString};
use vstd::prelude::*;
use vstd::string::*;

verus! {

/// Values of `serde_json`.
#[verifier::external_type_specification]
#[verifier::external_body]
pub struct ExValue(serde_json::Value);

/// Errors of `serde_json`.
#[verifier::external_type_specification]
#[verifier::external_body]
pub struct ExJsonError(serde_json::Error);

/// What a value of `serde_json` holds, its tables in the order of their names.
pub uninterp spec fn value_shape(value: serde_json::Value) -> json::Shape;

/// What bytes hold as JSON.
pub uninterp spec fn json_read(bytes: Seq<u8>) -> Option<json::Shape>;

/// What the text of a number is read as.
pub uninterp spec fn number_read(number: Seq<char>) -> json::Shape;

/// A value as it is written.
pub uninterp spec fn value_written(value: json::Shape) -> Seq<char>;

/// What a value that is a diagnostic says.
pub uninterp spec fn diagnostic_read(value: json::Shape) -> Option<wire::Notice>;

// ------------------------------------------------------------------ parts

/// One level of a value.
pub enum Parts {
    Null,
    Bool(bool),
    Number(String),
    Text(String),
    List(Vec<serde_json::Value>),
    Table(Vec<(String, serde_json::Value)>),
}

/// What the items of a list hold.
pub open spec fn item_shapes(items: Seq<serde_json::Value>) -> Seq<json::Shape> {
    items.map_values(|v: serde_json::Value| value_shape(v))
}

/// What the fields of a table hold.
pub open spec fn entry_shapes(fields: Seq<(String, serde_json::Value)>) -> Seq<
    (Seq<char>, json::Shape),
> {
    fields.map_values(|f: (String, serde_json::Value)| (f.0@, value_shape(f.1)))
}

/// What a value of these parts holds.
pub open spec fn parts_shape(parts: Parts) -> json::Shape {
    match parts {
        Parts::Null => json::Shape::Null,
        Parts::Bool(b) => json::Shape::Bool(b),
        Parts::Number(n) => json::Shape::Number(n@),
        Parts::Text(s) => json::Shape::Text(s@),
        Parts::List(items) => json::Shape::List(item_shapes(items@)),
        Parts::Table(fields) => json::Shape::Table(entry_shapes(fields@)),
    }
}

/// The fields of a table, sorted by name, with the value of one of them set.
pub open spec fn put_field(
    fields: Seq<(Seq<char>, json::Shape)>,
    name: Seq<char>,
    value: json::Shape,
) -> Seq<(Seq<char>, json::Shape)>
    decreases fields.len(),
{
    if fields.len() == 0 {
        seq![(name, value)]
    } else if fields.last().0 == name {
        fields.drop_last().push((name, value))
    } else if text::text_le(fields.last().0, name) {
        fields.push((name, value))
    } else {
        put_field(fields.drop_last(), name, value).push(fields.last())
    }
}

/// Fields sorted by name. Where a name occurs twice, the last value counts.
pub open spec fn by_name(fields: Seq<(Seq<char>, json::Shape)>) -> Seq<(Seq<char>, json::Shape)>
    decreases fields.len(),
{
    if fields.len() == 0 {
        Seq::empty()
    } else {
        put_field(by_name(fields.drop_last()), fields.last().0, fields.last().1)
    }
}

/// `serde_json::from_slice` into a value: what the bytes hold is named
/// [`json_read`], and the call fails where they hold no JSON.
#[verifier::external_body]
fn parse_value(bytes: &[u8]) -> (r: Result<serde_json::Value, serde_json::Error>)
    ensures
        match r {
            Ok(v) => json_read(bytes@) == Some(value_shape(v)),
            Err(_) => json_read(bytes@) is None,
        },
{
    serde_json::from_slice(bytes)
}

/// The variants of `serde_json::Value`: one level of a value, with the number in
/// it as `serde_json::Number` writes it and the fields of a table in the order
/// of their names.
#[verifier::external_body]
fn open_value(value: serde_json::Value) -> (r: Parts)
    ensures
        parts_shape(r) == value_shape(value),
{
    match value {
        serde_json::Value::Null => Parts::Null,
        serde_json::Value::Bool(b) => Parts::Bool(b),
        serde_json::Value::Number(n) => Parts::Number(n.to_string()),
        serde_json::Value::String(s) => Parts::Text(s),
        serde_json::Value::Array(items) => Parts::List(items),
        serde_json::Value::Object(fields) => Parts::Table(fields.into_iter().collect()),
    }
}

/// The variants of `serde_json::Value`: the value of these parts. A table is a
/// `serde_json::Map`, which is sorted by name and holds a name once. A number is
/// read by `serde_json` from its text; what it is then is named
/// [`number_read`].
#[verifier::external_body]
fn close_value(parts: Parts) -> (r: serde_json::Value)
    ensures
        match parts {
            Parts::Number(n) => value_shape(r) == number_read(n@),
            Parts::Table(fields) => value_shape(r) == json::Shape::Table(
                by_name(entry_shapes(fields@)),
            ),
            _ => value_shape(r) == parts_shape(parts),
        },
{
    match parts {
        Parts::Null => serde_json::Value::Null,
        Parts::Bool(b) => serde_json::Value::Bool(b),
        Parts::Number(n) => serde_json::from_str(&n)
            .map_or(serde_json::Value::Null, serde_json::Value::Number),
        Parts::Text(s) => serde_json::Value::String(s),
        Parts::List(items) => serde_json::Value::Array(items),
        Parts::Table(fields) => serde_json::Value::Object(fields.into_iter().collect()),
    }
}

/// `serde_json::Value::to_string`: the text is named [`value_written`].
#[verifier::external_body]
fn value_text(value: &serde_json::Value) -> (r: String)
    ensures
        r@ == value_written(value_shape(*value)),
{
    value.to_string()
}

/// `serde_json::from_value` into `lsp_types::Diagnostic`, whose public fields are
/// then moved over: what the value says is named [`diagnostic_read`], and the
/// call fails where it is no diagnostic. Of the severities, the four that have a
/// name are told apart.
#[verifier::external_body]
fn parse_diagnostic(value: serde_json::Value) -> (r: Option<Published>)
    ensures
        match r {
            Some(d) => diagnostic_read(value_shape(value)) == Some(wire::notice(d)),
            None => diagnostic_read(value_shape(value)) is None,
        },
{
    let d: Diagnostic = serde_json::from_value(value).ok()?;
    let at = |p: lsp_types::Position| Position { line: p.line, character: p.character };
    let severity = d.severity.and_then(|s| match s {
        DiagnosticSeverity::ERROR => Some(Severity::Error),
        DiagnosticSeverity::WARNING => Some(Severity::Warning),
        DiagnosticSeverity::INFORMATION => Some(Severity::Information),
        DiagnosticSeverity::HINT => Some(Severity::Hint),
        _ => None,
    });
    let code = d.code.map(|c| match c {
        NumberOrString::Number(n) => Code::Number(n),
        NumberOrString::String(s) => Code::Text(s),
    });
    let range = Range { start: at(d.range.start), end: at(d.range.end) };
    Some(Published { range, severity, message: d.message, code })
}

// ------------------------------------------------------------- conversion

/// A value of `serde_json`, as one of the protocol.
#[verifier::loop_isolation(false)]
fn from_value(value: serde_json::Value) -> (r: Json)
    ensures
        json::shape(r) == value_shape(value),
    decreases value_shape(value),
{
    let ghost whole = value_shape(value);
    match open_value(value) {
        Parts::Null => Json::Null,
        Parts::Bool(b) => Json::Bool(b),
        Parts::Number(n) => Json::Number(n),
        Parts::Text(s) => Json::Text(s),
        Parts::List(items) => {
            let ghost all = items@;
            let mut out: Vec<Json> = Vec::new();
            for item in it: items
                invariant
                    it.seq() == all,
                    whole == json::Shape::List(item_shapes(all)),
                    out@.len() == it.index(),
                    forall|k: int|
                        0 <= k < it.index() ==> json::shape(#[trigger] out@[k]) == value_shape(
                            all[k],
                        ),
            {
                let ghost inside = item_shapes(all);
                assert(inside[it.index() as int] == value_shape(item));
                assert(decreases_to!(whole => whole->List_0));
                assert(decreases_to!(inside => inside[it.index() as int]));
                out.push(from_value(item));
            }
            assert(json::shapes(out@) =~= item_shapes(all));
            Json::List(out)
        },
        Parts::Table(fields) => {
            let ghost all = fields@;
            let mut out: Vec<(String, Json)> = Vec::new();
            for field in it: fields
                invariant
                    it.seq() == all,
                    whole == json::Shape::Table(entry_shapes(all)),
                    out@.len() == it.index(),
                    forall|k: int|
                        0 <= k < it.index() ==> (#[trigger] out@[k]).0@ == all[k].0@ && json::shape(
                            out@[k].1,
                        ) == value_shape(all[k].1),
            {
                let ghost inside = entry_shapes(all);
                assert(inside[it.index() as int] == (field.0@, value_shape(field.1)));
                assert(decreases_to!(whole => whole->Table_0));
                assert(decreases_to!(inside => inside[it.index() as int]));
                let ghost entry = inside[it.index() as int];
                assert(decreases_to!(entry => entry.1));
                out.push((field.0, from_value(field.1)));
            }
            assert(json::field_shapes(out@) =~= entry_shapes(all));
            Json::Table(out)
        },
    }
}

/// What fields hold once `serde_json` has them, before they are sorted.
pub open spec fn ordered_fields(fields: Seq<(Seq<char>, json::Shape)>) -> Seq<
    (Seq<char>, json::Shape),
>
    decreases fields,
{
    Seq::new(
        fields.len(),
        |i: int|
            if 0 <= i < fields.len() {
                (fields[i].0, ordered(fields[i].1))
            } else {
                (Seq::empty(), json::Shape::Null)
            },
    )
}

/// What a value holds once `serde_json` has it.
pub open spec fn ordered(s: json::Shape) -> json::Shape
    decreases s,
{
    match s {
        json::Shape::Number(n) => number_read(n),
        json::Shape::List(items) => json::Shape::List(
            Seq::new(
                items.len(),
                |i: int|
                    if 0 <= i < items.len() {
                        ordered(items[i])
                    } else {
                        json::Shape::Null
                    },
            ),
        ),
        json::Shape::Table(fields) => json::Shape::Table(by_name(ordered_fields(fields))),
        other => other,
    }
}

/// A value of the protocol, as one of `serde_json`.
#[verifier::loop_isolation(false)]
fn to_value(j: &Json) -> (r: serde_json::Value)
    ensures
        value_shape(r) == ordered(json::shape(*j)),
    decreases *j,
{
    match j {
        Json::Null => close_value(Parts::Null),
        Json::Bool(b) => close_value(Parts::Bool(*b)),
        Json::Number(n) => close_value(Parts::Number(n.clone())),
        Json::Text(s) => close_value(Parts::Text(s.clone())),
        Json::List(items) => {
            let mut out: Vec<serde_json::Value> = Vec::new();
            let mut i: usize = 0;
            while i < items.len()
                invariant
                    i <= items@.len(),
                    out@.len() == i,
                    *j == Json::List(*items),
                    forall|k: int|
                        0 <= k < i ==> value_shape(#[trigger] out@[k]) == ordered(
                            json::shape(items@[k]),
                        ),
                decreases items.len() - i,
            {
                assert(decreases_to!(*items => items@[i as int]));
                out.push(to_value(&items[i]));
                i = i + 1;
            }
            let ghost given = json::shapes(items@);
            assert(json::shape(*j) == json::Shape::List(given));
            assert(item_shapes(out@) =~= ordered(json::Shape::List(given))->List_0);
            let r = close_value(Parts::List(out));
            assert(value_shape(r) == ordered(json::Shape::List(given)));
            r
        },
        Json::Table(fields) => {
            let mut out: Vec<(String, serde_json::Value)> = Vec::new();
            let mut i: usize = 0;
            while i < fields.len()
                invariant
                    i <= fields@.len(),
                    out@.len() == i,
                    *j == Json::Table(*fields),
                    forall|k: int|
                        0 <= k < i ==> (#[trigger] out@[k]).0@ == fields@[k].0@ && value_shape(
                            out@[k].1,
                        ) == ordered(json::shape(fields@[k].1)),
                decreases fields.len() - i,
            {
                assert(decreases_to!(*fields => fields@[i as int]));
                out.push((fields[i].0.clone(), to_value(&fields[i].1)));
                i = i + 1;
            }
            let ghost given = json::field_shapes(fields@);
            assert(json::shape(*j) == json::Shape::Table(given));
            assert(entry_shapes(out@) =~= ordered_fields(given));
            let r = close_value(Parts::Table(out));
            assert(value_shape(r) == ordered(json::Shape::Table(given)));
            r
        },
    }
}

/// Reads JSON. Anything else is not read.
pub fn read_json(bytes: &[u8]) -> (r: Option<Json>)
    ensures
        match r {
            Some(j) => json_read(bytes@) == Some(json::shape(j)),
            None => json_read(bytes@) is None,
        },
{
    match parse_value(bytes) {
        Ok(value) => Some(from_value(value)),
        Err(_) => None,
    }
}

/// A value as it is written.
pub open spec fn written(j: Json) -> Seq<char> {
    value_written(ordered(json::shape(j)))
}

/// Writes a value.
pub fn write_json(j: &Json) -> (r: String)
    ensures
        r@ == written(*j),
{
    value_text(&to_value(j))
}

/// The diagnostics that the items of a list are, unless one of them is none.
pub open spec fn diagnostics_read(items: Seq<Json>) -> Option<Seq<wire::Notice>>
    decreases items.len(),
{
    if items.len() == 0 {
        Some(Seq::empty())
    } else {
        match (
            diagnostics_read(items.drop_last()),
            diagnostic_read(ordered(json::shape(items.last()))),
        ) {
            (Some(before), Some(d)) => Some(before.push(d)),
            _ => None,
        }
    }
}

/// The URI and the diagnostics that the parameters of a notification hold: by
/// name, or by place. Diagnostics that are missing are none.
pub open spec fn published_read(params: Json) -> Option<(Seq<char>, Seq<wire::Notice>)> {
    let (uri, found) = match params {
        Json::List(items) => if items@.len() == 1 {
            (Some(items@[0]), None)
        } else if items@.len() == 2 {
            (Some(items@[0]), Some(items@[1]))
        } else {
            (None, None)
        },
        _ => (json::field(params, "uri"@), json::field(params, "diagnostics"@)),
    };
    match (json::text_in(uri), found) {
        (Some(uri), None) => Some((uri, Seq::empty())),
        (Some(uri), Some(Json::List(items))) => match diagnostics_read(items@) {
            Some(found) => Some((uri, found)),
            None => None,
        },
        _ => None,
    }
}

fn read_diagnostics(items: &Vec<Json>) -> (r: Option<Vec<Published>>)
    ensures
        match r {
            Some(v) => diagnostics_read(items@) == Some(wire::notices(v@)),
            None => diagnostics_read(items@) is None,
        },
{
    let mut out: Vec<Published> = Vec::new();
    let mut i: usize = 0;
    assert(items@.take(0) =~= Seq::<Json>::empty());
    assert(wire::notices(out@) =~= Seq::empty());
    while i < items.len()
        invariant
            i <= items@.len(),
            diagnostics_read(items@.take(i as int)) == Some(wire::notices(out@)),
        decreases items.len() - i,
    {
        let ghost before = wire::notices(out@);
        assert(items@.take(i as int + 1).drop_last() =~= items@.take(i as int));
        match parse_diagnostic(to_value(&items[i])) {
            Some(d) => {
                out.push(d);
                assert(wire::notices(out@) =~= before.push(wire::notice(d)));
            },
            None => {
                proof {
                    lemma_unread(items@, i as int + 1);
                }
                return None;
            },
        }
        i = i + 1;
    }
    assert(items@.take(items@.len() as int) =~= items@);
    Some(out)
}

proof fn lemma_unread(items: Seq<Json>, n: int)
    requires
        0 <= n <= items.len(),
        diagnostics_read(items.take(n)) is None,
    ensures
        diagnostics_read(items) is None,
    decreases items.len(),
{
    if n == items.len() {
        assert(items.take(n) =~= items);
    } else {
        assert(items.drop_last().take(n) =~= items.take(n));
        lemma_unread(items.drop_last(), n);
    }
}

/// Reads the URI and the diagnostics that the parameters of a notification hold.
pub fn read_published(params: &Json) -> (r: Option<(String, Vec<Published>)>)
    ensures
        match r {
            Some((uri, v)) => published_read(*params) == Some((uri@, wire::notices(v@))),
            None => published_read(*params) is None,
        },
{
    let (uri, found) = match params {
        Json::List(items) => {
            if items.len() == 1 {
                (Some(&items[0]), None)
            } else if items.len() == 2 {
                (Some(&items[0]), Some(&items[1]))
            } else {
                (None, None)
            }
        },
        _ => (params.get("uri"), params.get("diagnostics")),
    };
    let uri = match uri {
        Some(Json::Text(s)) => s.clone(),
        _ => {
            return None;
        },
    };
    match found {
        None => {
            let none: Vec<Published> = Vec::new();
            assert(wire::notices(none@) =~= Seq::empty());
            Some((uri, none))
        },
        Some(Json::List(items)) => match read_diagnostics(items) {
            Some(v) => Some((uri, v)),
            None => None,
        },
        Some(_) => None,
    }
}

} // verus!
