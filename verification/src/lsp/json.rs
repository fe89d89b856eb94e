//! JSON values, as far as the protocol reads and writes them.

use crate::text;
use vstd::prelude::*;
use vstd::string::*;

verus! {

/// A JSON value. A number is kept as it is written.
#[derive(Debug, PartialEq, Eq)]
pub enum Json {
    Null,
    Bool(bool),
    Number(String),
    Text(String),
    List(Vec<Json>),
    Table(Vec<(String, Json)>),
}

/// A JSON value as mathematics: texts as sequences, a number as it is written.
pub ghost enum Shape {
    Null,
    Bool(bool),
    Number(Seq<char>),
    Text(Seq<char>),
    List(Seq<Shape>),
    Table(Seq<(Seq<char>, Shape)>),
}

/// What a value is.
pub open spec fn shape(j: Json) -> Shape
    decreases j,
{
    match j {
        Json::Null => Shape::Null,
        Json::Bool(b) => Shape::Bool(b),
        Json::Number(n) => Shape::Number(n@),
        Json::Text(s) => Shape::Text(s@),
        Json::List(items) => Shape::List(shapes(items@)),
        Json::Table(fields) => Shape::Table(field_shapes(fields@)),
    }
}

/// What the items of a list are.
pub open spec fn shapes(items: Seq<Json>) -> Seq<Shape>
    decreases items,
{
    Seq::new(
        items.len(),
        |i: int|
            if 0 <= i < items.len() {
                shape(items[i])
            } else {
                Shape::Null
            },
    )
}

/// What the fields of a table are.
pub open spec fn field_shapes(fields: Seq<(String, Json)>) -> Seq<(Seq<char>, Shape)>
    decreases fields,
{
    Seq::new(
        fields.len(),
        |i: int|
            if 0 <= i < fields.len() {
                (fields[i].0@, shape(fields[i].1))
            } else {
                (Seq::empty(), Shape::Null)
            },
    )
}

/// The value under `key` in the fields of a table.
pub open spec fn lookup(fields: Seq<(String, Json)>, key: Seq<char>) -> Option<Json>
    decreases fields.len(),
{
    if fields.len() == 0 {
        None
    } else if fields[0].0@ == key {
        Some(fields[0].1)
    } else {
        lookup(fields.drop_first(), key)
    }
}

/// The value under `key`, if `j` is a table that has it.
pub open spec fn field(j: Json, key: Seq<char>) -> Option<Json> {
    match j {
        Json::Table(fields) => lookup(fields@, key),
        _ => None,
    }
}

/// The text of a text.
pub open spec fn text_in(j: Option<Json>) -> Option<Seq<char>> {
    match j {
        Some(Json::Text(s)) => Some(s@),
        _ => None,
    }
}

/// The number that decimal digits write, if it fits into 64 bits.
pub open spec fn whole_number(s: Seq<char>) -> Option<u64> {
    if s.len() > 0 && text::all_digits(s) && text::digits_value(s) <= u64::MAX {
        Some(text::digits_value(s) as u64)
    } else {
        None
    }
}

/// The number that decimal digits write, if it fits into 64 bits.
pub fn parse_whole(s: &str) -> (r: Option<u64>)
    ensures
        r == whole_number(s@),
{
    text::parse_digits(&text::chars_of(s))
}

/// The number of a number that is not negative and fits into 64 bits.
pub open spec fn unsigned_in(j: Option<Json>) -> Option<u64> {
    match j {
        Some(Json::Number(n)) => whole_number(n@),
        _ => None,
    }
}

/// The items of a list.
pub open spec fn list_in(j: Option<Json>) -> Option<Seq<Json>> {
    match j {
        Some(Json::List(items)) => Some(items@),
        _ => None,
    }
}

impl Json {
    /// The value under `key`.
    pub fn get(&self, key: &str) -> (r: Option<&Json>)
        ensures
            match r {
                Some(j) => field(*self, key@) == Some(*j),
                None => field(*self, key@) is None,
            },
    {
        match self {
            Json::Table(fields) => {
                let mut i: usize = 0;
                assert(fields@.skip(0) =~= fields@);
                while i < fields.len()
                    invariant
                        i <= fields@.len(),
                        field(*self, key@) == lookup(fields@.skip(i as int), key@),
                    decreases fields.len() - i,
                {
                    assert(fields@.skip(i as int)[0] == fields@[i as int]);
                    assert(fields@.skip(i as int).drop_first() =~= fields@.skip(i as int + 1));
                    if text::same(fields[i].0.as_str(), key) {
                        return Some(&fields[i].1);
                    }
                    i = i + 1;
                }
                None
            },
            _ => None,
        }
    }

    /// The text under `key`.
    pub fn text_at(&self, key: &str) -> (r: Option<String>)
        ensures
            match r {
                Some(s) => text_in(field(*self, key@)) == Some(s@),
                None => text_in(field(*self, key@)) is None,
            },
    {
        match self.get(key) {
            Some(Json::Text(s)) => Some(s.clone()),
            _ => None,
        }
    }

    /// The number under `key`.
    pub fn unsigned_at(&self, key: &str) -> (r: Option<u64>)
        ensures
            r == unsigned_in(field(*self, key@)),
    {
        match self.get(key) {
            Some(Json::Number(n)) => parse_whole(n.as_str()),
            _ => None,
        }
    }

    /// The items under `key`.
    pub fn list_at(&self, key: &str) -> (r: Option<&Vec<Json>>)
        ensures
            match r {
                Some(v) => list_in(field(*self, key@)) == Some(v@),
                None => list_in(field(*self, key@)) is None,
            },
    {
        match self.get(key) {
            Some(Json::List(items)) => Some(items),
            _ => None,
        }
    }

    /// A text.
    pub fn text(s: &str) -> (r: Json)
        ensures
            r matches Json::Text(t) && t@ == s@,
            shape(r) == Shape::Text(s@),
    {
        Json::Text(text::string_of(&text::chars_of(s)))
    }

    /// A number.
    pub fn number(n: u64) -> (r: Json)
        ensures
            r matches Json::Number(x) && x@ == text::decimal(n as nat),
            unsigned_in(Some(r)) == Some(n),
            shape(r) == Shape::Number(text::decimal(n as nat)),
    {
        proof {
            text::lemma_decimal_value(n as nat);
        }
        Json::Number(text::string_of(&text::to_decimal(n)))
    }

    /// Takes the value under `key` out.
    pub fn take(self, key: &str) -> (r: Option<Json>)
        ensures
            r == field(self, key@),
    {
        match self {
            Json::Table(fields) => {
                let ghost whole = field(self, key@);
                let mut fields = fields;
                let ghost all = fields@;
                let mut i: usize = 0;
                assert(all.skip(0) =~= all);
                while i < fields.len()
                    invariant
                        i <= fields@.len(),
                        fields@ == all,
                        whole == field(self, key@),
                        whole == lookup(all.skip(i as int), key@),
                    decreases fields.len() - i,
                {
                    assert(all.skip(i as int)[0] == all[i as int]);
                    assert(all.skip(i as int).drop_first() =~= all.skip(i as int + 1));
                    if text::same(fields[i].0.as_str(), key) {
                        let found = fields.swap_remove(i);
                        return Some(found.1);
                    }
                    i = i + 1;
                }
                None
            },
            _ => None,
        }
    }

    /// The same value once more.
    #[verifier::loop_isolation(false)]
    pub fn copy(&self) -> (r: Json)
        ensures
            shape(r) == shape(*self),
        decreases *self,
    {
        match self {
            Json::Null => Json::Null,
            Json::Bool(b) => Json::Bool(*b),
            Json::Number(n) => Json::Number(n.clone()),
            Json::Text(s) => Json::Text(s.clone()),
            Json::List(items) => {
                let mut out: Vec<Json> = Vec::new();
                let mut i: usize = 0;
                while i < items.len()
                    invariant
                        i <= items@.len(),
                        out@.len() == i,
                        *self == Json::List(*items),
                        forall|k: int| 0 <= k < i ==> shape(#[trigger] out@[k]) == shape(items@[k]),
                    decreases items.len() - i,
                {
                    assert(decreases_to!(*items => items@[i as int]));
                    out.push(items[i].copy());
                    i = i + 1;
                }
                assert(shapes(out@) =~= shapes(items@));
                Json::List(out)
            },
            Json::Table(fields) => {
                let mut out: Vec<(String, Json)> = Vec::new();
                let mut i: usize = 0;
                while i < fields.len()
                    invariant
                        i <= fields@.len(),
                        out@.len() == i,
                        *self == Json::Table(*fields),
                        forall|k: int|
                            0 <= k < i ==> (#[trigger] out@[k]).0@ == fields@[k].0@ && shape(
                                out@[k].1,
                            ) == shape(fields@[k].1),
                    decreases fields.len() - i,
                {
                    assert(decreases_to!(*fields => fields@[i as int]));
                    out.push((fields[i].0.clone(), fields[i].1.copy()));
                    i = i + 1;
                }
                assert(field_shapes(out@) =~= field_shapes(fields@));
                Json::Table(out)
            },
        }
    }

    /// The table with one field more.
    pub fn with(self, key: &str, value: Json) -> (r: Json)
        ensures
            self matches Json::Table(f) ==> r is Table && shape(r) == Shape::Table(
                field_shapes(f@).push((key@, shape(value))),
            ),
            !(self is Table) ==> r == self,
    {
        match self {
            Json::Table(fields) => {
                let mut fields = fields;
                let ghost was = fields@;
                let name = text::string_of(&text::chars_of(key));
                let ghost added = (name, value);
                fields.push((name, value));
                assert(fields@ =~= was.push(added));
                assert(field_shapes(fields@) =~= field_shapes(was).push((key@, shape(value))));
                Json::Table(fields)
            },
            other => other,
        }
    }

    /// A table without fields.
    pub fn table() -> (r: Json)
        ensures
            r is Table,
            r matches Json::Table(f) && f@.len() == 0,
            shape(r) == Shape::Table(Seq::empty()),
    {
        let none: Vec<(String, Json)> = Vec::new();
        assert(field_shapes(none@) =~= Seq::empty());
        Json::Table(none)
    }
}

/// A table with one field.
pub fn table1(k: &str, v: Json) -> (r: Json)
    ensures
        r is Table,
        shape(r) == Shape::Table(seq![(k@, shape(v))]),
{
    let ghost field = (k@, shape(v));
    let r = Json::table().with(k, v);
    assert(Seq::<(Seq<char>, Shape)>::empty().push(field) =~= seq![field]);
    r
}

/// A table with two fields.
pub fn table2(k: &str, v: Json, l: &str, w: Json) -> (r: Json)
    ensures
        r is Table,
        shape(r) == Shape::Table(seq![(k@, shape(v)), (l@, shape(w))]),
{
    let ghost first = (k@, shape(v));
    let ghost second = (l@, shape(w));
    let r = table1(k, v).with(l, w);
    assert(seq![first].push(second) =~= seq![first, second]);
    r
}

/// A list with one item.
pub fn list1(v: Json) -> (r: Json)
    ensures
        shape(r) == Shape::List(seq![shape(v)]),
{
    let ghost item = shape(v);
    let mut items: Vec<Json> = Vec::new();
    items.push(v);
    assert(shapes(items@) =~= seq![item]);
    Json::List(items)
}

} // verus!
