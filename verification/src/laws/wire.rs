//! What language servers say, read from JSON.

use crate::laws;
use crate::lsp::json;
use crate::lsp::json::Json;
use crate::lsp::queries;
use crate::lsp::uri;
use crate::lsp::uri::RepoRoot;
use crate::lsp::wire;
use crate::lsp::wire::{Code, Published};
use crate::lsp::{Diagnostic, Location, Position, Range, Severity, TextEdit, WorkspaceEdit};
use crate::text;
use crate::types::RelPath;
use vstd::prelude::*;

verus! {

/// The first field of a table under a key holds the value.
pub open spec fn under(j: Json, key: Seq<char>, v: Json) -> bool {
    j matches Json::Table(fields) && exists|k: int| #[trigger] is_first(fields@, key, k, v)
}

/// The field `k` is the first one under a key, and holds the value.
pub open spec fn is_first(fields: Seq<(String, Json)>, key: Seq<char>, k: int, v: Json) -> bool {
    &&& 0 <= k < fields.len()
    &&& fields[k].0@ == key
    &&& fields[k].1 == v
    &&& forall|i: int| 0 <= i < k ==> (#[trigger] fields[i]).0@ != key
}

/// A value that is no table, or has no field under a key.
pub open spec fn lacks(j: Json, key: Seq<char>) -> bool {
    j matches Json::Table(fields) ==> forall|i: int|
        0 <= i < fields@.len() ==> (#[trigger] fields@[i]).0@ != key
}

proof fn lemma_lookup(fields: Seq<(String, Json)>, key: Seq<char>, v: Json)
    ensures
        json::lookup(fields, key) == Some(v) <==> exists|k: int| #[trigger]
            is_first(fields, key, k, v),
        json::lookup(fields, key) is None <==> forall|i: int|
            0 <= i < fields.len() ==> (#[trigger] fields[i]).0@ != key,
    decreases fields.len(),
{
    if fields.len() > 0 {
        let rest = fields.drop_first();
        lemma_lookup(rest, key, v);
        if fields[0].0@ == key {
            if fields[0].1 == v {
                assert(is_first(fields, key, 0, v));
            }
        } else {
            if exists|k: int| #[trigger] is_first(rest, key, k, v) {
                let k = choose|k: int| #[trigger] is_first(rest, key, k, v);
                assert(fields[k + 1] == rest[k]);
                assert forall|i: int| 0 <= i < k + 1 implies (#[trigger] fields[i]).0@ != key by {
                    if i > 0 {
                        assert(fields[i] == rest[i - 1]);
                    }
                }
                assert(is_first(fields, key, k + 1, v));
            }
            if exists|k: int| #[trigger] is_first(fields, key, k, v) {
                let k = choose|k: int| #[trigger] is_first(fields, key, k, v);
                assert(fields[k] == rest[k - 1]);
                assert forall|i: int| 0 <= i < k - 1 implies (#[trigger] rest[i]).0@ != key by {
                    assert(fields[i + 1] == rest[i]);
                }
                assert(is_first(rest, key, k - 1, v));
            }
            if json::lookup(rest, key) is None {
                assert forall|i: int| 0 <= i < fields.len() implies (#[trigger] fields[i]).0@
                    != key by {
                    if i > 0 {
                        assert(fields[i] == rest[i - 1]);
                    }
                }
            } else {
                if forall|i: int| 0 <= i < fields.len() ==> (#[trigger] fields[i]).0@ != key {
                    assert forall|i: int| 0 <= i < rest.len() implies (#[trigger] rest[i]).0@
                        != key by {
                        assert(fields[i + 1] == rest[i]);
                    }
                }
            }
        }
    }
}

pub(crate) proof fn lemma_field(j: Json, key: Seq<char>, v: Json)
    ensures
        under(j, key, v) <==> json::field(j, key) == Some(v),
        lacks(j, key) <==> json::field(j, key) is None,
{
    if let Json::Table(fields) = j {
        lemma_lookup(fields@, key, v);
    }
}

/// A table gives the value of its first field under a key, and nothing where it
/// has none; what is no table gives nothing.
pub proof fn law_tables_give_their_first_field(j: &Json, key: &str, r: Option<&Json>)
    requires
        call_ensures(Json::get, (j, key), r),
    ensures
        match r {
            Some(v) => under(*j, key@, *v),
            None => lacks(*j, key@),
        },
{
    lemma_field(*j, key@, Json::Null);
    if let Some(v) = r {
        lemma_field(*j, key@, *v);
    }
}

/// A text of decimal digits is the number that they write; anything else is none.
pub proof fn law_digits_write_numbers(s: &str, r: Option<u64>, n: u64)
    requires
        call_ensures(json::parse_whole, (s,), r),
    ensures
        s@ == text::decimal(n as nat) ==> r == Some(n),
        r is Some ==> s@.len() > 0 && forall|k: int|
            0 <= k < s@.len() ==> '0' <= #[trigger] s@[k] && s@[k] <= '9',
{
    laws::text::law_numbers_read_back(n as nat);
    if r is Some {
        assert forall|k: int| 0 <= k < s@.len() implies '0' <= #[trigger] s@[k] && s@[k]
            <= '9' by {
            assert(text::is_digit(s@[k]));
        }
    }
}

/// A position is read as the line and the character that it holds, and not at all
/// without one of them.
pub proof fn law_positions_are_read(
    j: &Json,
    r: Option<Position>,
    line: u32,
    character: u32,
    a: String,
    b: String,
)
    requires
        call_ensures(wire::position_from_value, (j,), r),
        a@ == text::decimal(line as nat),
        b@ == text::decimal(character as nat),
    ensures
        under(*j, "line"@, Json::Number(a)) && under(*j, "character"@, Json::Number(b)) ==> r
            == Some(Position { line, character }),
        lacks(*j, "line"@) || lacks(*j, "character"@) ==> r is None,
{
    lemma_field(*j, "line"@, Json::Number(a));
    lemma_field(*j, "character"@, Json::Number(b));
    laws::text::law_numbers_read_back(line as nat);
    laws::text::law_numbers_read_back(character as nat);
}

/// A range is read as the positions under its start and its end, and not at all
/// without one of them.
pub proof fn law_ranges_are_read(
    j: &Json,
    r: Option<Range>,
    start: &Json,
    end: &Json,
    a: Option<Position>,
    b: Option<Position>,
)
    requires
        call_ensures(wire::range_from_value, (j,), r),
        call_ensures(wire::position_from_value, (start,), a),
        call_ensures(wire::position_from_value, (end,), b),
    ensures
        under(*j, "start"@, *start) && under(*j, "end"@, *end) ==> match (a, b) {
            (Some(from), Some(to)) => r == Some(Range { start: from, end: to }),
            _ => r is None,
        },
        lacks(*j, "start"@) || lacks(*j, "end"@) ==> r is None,
{
    lemma_field(*j, "start"@, *start);
    lemma_field(*j, "end"@, *end);
}

/// A location is read as the file that its URI leads to and its range: `uri` and
/// `range` of a place, and of a link the target and what is selected in it.
pub proof fn law_locations_are_read(
    j: &Json,
    root: &RepoRoot,
    r: Option<Location>,
    given: &str,
    owned: String,
    range: &Json,
    path: Option<RelPath>,
    at: Option<Range>,
)
    requires
        call_ensures(wire::location_from_value, (j, root), r),
        call_ensures(wire::uri_to_rel, (given, root), path),
        call_ensures(wire::range_from_value, (range,), at),
        owned@ == given@,
        (under(*j, "uri"@, Json::Text(owned)) && under(*j, "range"@, *range)) || (lacks(
            *j,
            "uri"@,
        ) && lacks(*j, "range"@) && under(*j, "targetUri"@, Json::Text(owned)) && under(
            *j,
            "targetSelectionRange"@,
            *range,
        )),
    ensures
        r is Some <==> path is Some && at is Some,
        r matches Some(l) ==> l.path@ == path.unwrap()@ && l.range == at.unwrap(),
{
    lemma_field(*j, "uri"@, Json::Text(owned));
    lemma_field(*j, "range"@, *range);
    lemma_field(*j, "targetUri"@, Json::Text(owned));
    lemma_field(*j, "targetSelectionRange"@, *range);
    if let Some(l) = r {
        assert(queries::key_of(l) == (l.path@, l.range));
    }
}

/// A list of locations is read location by location, in its order, and what is no
/// location is left out. A location that stands alone is read like a list of it.
pub proof fn law_location_lists_are_read_one_by_one(
    shorter: Vec<Json>,
    longer: Vec<Json>,
    last: &Json,
    root: &RepoRoot,
    a: Vec<Location>,
    b: Vec<Location>,
    c: Vec<Location>,
    one: Option<Location>,
)
    requires
        call_ensures(wire::locations_from_value, (&Json::List(shorter), root), a),
        call_ensures(wire::locations_from_value, (&Json::List(longer), root), b),
        call_ensures(wire::locations_from_value, (last, root), c),
        call_ensures(wire::location_from_value, (last, root), one),
        longer@ == shorter@.push(*last),
    ensures
        shorter@.len() == 0 ==> a@.len() == 0,
        queries::keys_of(b@) == (match one {
            Some(l) => queries::keys_of(a@).push((l.path@, l.range)),
            None => queries::keys_of(a@),
        }),
        last is Table && one is Some ==> c@.len() == 1 && c@[0].path@ == one.unwrap().path@
            && c@[0].range == one.unwrap().range,
        last is Table && one is None ==> c@.len() == 0,
{
    assert(longer@.drop_last() =~= shorter@);
    assert(queries::keys_of(a@).len() == a@.len());
    assert(queries::keys_of(c@).len() == c@.len());
    if last is Table && one is Some {
        assert(queries::keys_of(c@)[0] == queries::key_of(c@[0]));
    }
}

/// Severities go by the numbers of the protocol: 1 to 4 from errors to hints. Any
/// other number, and none, is an information.
pub proof fn law_severities_go_by_number(n: Option<u64>, r: Severity)
    requires
        call_ensures(wire::severity_from_u64, (n,), r),
    ensures
        r is Error <==> n == Some(1u64),
        r is Warning <==> n == Some(2u64),
        r is Hint <==> n == Some(4u64),
{
}

/// A list of diagnostics is read one by one, and so is one under `items`: each with
/// its range, its message, its severity and its code, and none without a range or
/// a message.
pub proof fn law_diagnostics_are_read_one_by_one(
    shorter: Vec<Json>,
    longer: Vec<Json>,
    last: &Json,
    whole: &Json,
    path: &RelPath,
    a: Vec<Diagnostic>,
    b: Vec<Diagnostic>,
    c: Vec<Diagnostic>,
    range: &Json,
    at: Option<Range>,
    message: String,
)
    requires
        call_ensures(wire::diagnostics_from_pull, (&Json::List(shorter), path), a),
        call_ensures(wire::diagnostics_from_pull, (&Json::List(longer), path), b),
        call_ensures(wire::diagnostics_from_pull, (whole, path), c),
        call_ensures(wire::range_from_value, (range,), at),
        under(*whole, "items"@, Json::List(longer)),
        longer@ == shorter@.push(*last),
    ensures
        shorter@.len() == 0 ==> a@.len() == 0,
        wire::findings(c@) == wire::findings(b@),
        lacks(*last, "range"@) || lacks(*last, "message"@) ==> wire::findings(b@)
            == wire::findings(a@),
        under(*last, "range"@, *range) && at is None ==> wire::findings(b@) == wire::findings(a@),
        under(*last, "range"@, *range) && at is Some && under(
            *last,
            "message"@,
            Json::Text(message),
        ) ==> b@.len() == a@.len() + 1 && wire::findings(b@).drop_last() == wire::findings(a@)
            && ({
            let d = b@.last();
            &&& d.path@ == path@
            &&& d.range == at.unwrap()
            &&& d.message@ == message@
            &&& lacks(*last, "code"@) ==> d.code is None
            &&& forall|s: String| #[trigger]
                under(*last, "code"@, Json::Text(s)) ==> (d.code matches Some(x) && x@ == s@)
            &&& forall|s: String| #[trigger]
                under(*last, "code"@, Json::Number(s)) ==> (d.code matches Some(x) && x@ == s@)
            &&& lacks(*last, "severity"@) ==> d.severity is Information
            &&& forall|s: String, n: u64| #[trigger]
                under(*last, "severity"@, Json::Number(s)) && s@ == #[trigger] text::decimal(
                    n as nat,
                ) ==> ((d.severity is Error <==> n == 1) && (d.severity is Warning <==> n == 2)
                    && (d.severity is Hint <==> n == 4))
        }),
{
    assert(longer@.drop_last() =~= shorter@);
    lemma_field(*whole, "items"@, Json::List(longer));
    lemma_field(Json::List(longer), "items"@, Json::Null);
    lemma_field(Json::List(shorter), "items"@, Json::Null);
    lemma_field(*last, "range"@, *range);
    lemma_field(*last, "message"@, Json::Text(message));
    lemma_field(*last, "code"@, Json::Null);
    lemma_field(*last, "severity"@, Json::Null);
    assert(wire::findings(a@).len() == a@.len());
    assert(wire::findings(b@).len() == b@.len());
    if under(*last, "range"@, *range) && at is Some && under(
        *last,
        "message"@,
        Json::Text(message),
    ) {
        let d = b@.last();
        let f = wire::finding(d);
        assert(wire::findings(b@).last() == f);
        assert(Some(f) == wire::finding_in(*last, path@));
        assert(wire::findings(b@).drop_last() =~= wire::findings(a@));
        assert forall|s: String| #[trigger] under(*last, "code"@, Json::Text(s)) implies (
        d.code matches Some(x) && x@ == s@) by {
            lemma_field(*last, "code"@, Json::Text(s));
            assert(f.code == Some(s@));
        }
        assert forall|s: String| #[trigger] under(*last, "code"@, Json::Number(s)) implies (
        d.code matches Some(x) && x@ == s@) by {
            lemma_field(*last, "code"@, Json::Number(s));
            assert(f.code == Some(s@));
        }
        assert forall|s: String, n: u64| #[trigger]
            under(*last, "severity"@, Json::Number(s)) && s@ == #[trigger] text::decimal(
                n as nat,
            ) implies ((d.severity is Error <==> n == 1) && (d.severity is Warning <==> n == 2)
            && (d.severity is Hint <==> n == 4)) by {
            lemma_field(*last, "severity"@, Json::Number(s));
            laws::text::law_numbers_read_back(n as nat);
            assert(f.severity == wire::severity_of(Some(n)));
        }
    }
}

/// A published diagnostic keeps its place, its message and its code; its severity
/// too, and counts as an information where it has none.
pub proof fn law_published_diagnostics_are_kept(path: &RelPath, d: &Published, r: Diagnostic)
    requires
        call_ensures(wire::diagnostic_from_lsp, (path, d), r),
    ensures
        r.path@ == path@,
        r.range == d.range,
        r.message@ == d.message@,
        d.severity matches Some(s) ==> r.severity == s,
        d.severity is None ==> r.severity == Severity::Information,
        r.code is Some <==> d.code is Some,
        d.code matches Some(Code::Text(s)) ==> r.code.unwrap()@ == s@,
        d.code matches Some(Code::Number(n)) ==> text::signed_value(r.code.unwrap()@) == Some(
            n as int,
        ),
{
    let f = wire::finding(r);
    assert(f.path == path@ && f.message == d.message@);
    if let Some(Code::Number(n)) = d.code {
        laws::text::law_numbers_read_back(
            if n < 0 {
                (-n) as nat
            } else {
                n as nat
            },
        );
        assert(f.code == Some(wire::signed_decimal(n as int)));
    }
    if let Some(Code::Text(s)) = d.code {
        assert(f.code == Some(s@));
    }
}

// ------------------------------------------------------------------- edits

/// An edit is read as its range and its new text, and not at all without one of
/// them.
pub proof fn law_edits_are_read(
    j: &Json,
    r: Option<TextEdit>,
    range: &Json,
    at: Option<Range>,
    new_text: String,
)
    requires
        call_ensures(wire::text_edit_from_value, (j,), r),
        call_ensures(wire::range_from_value, (range,), at),
    ensures
        under(*j, "range"@, *range) && under(*j, "newText"@, Json::Text(new_text)) ==> match at {
            Some(range) => r matches Some(e) && e.range == range && e.new_text@ == new_text@,
            None => r is None,
        },
        lacks(*j, "range"@) || lacks(*j, "newText"@) ==> r is None,
{
    lemma_field(*j, "range"@, *range);
    lemma_field(*j, "newText"@, Json::Text(new_text));
    if let Some(e) = r {
        assert(wire::edit_key(e) == (e.range, e.new_text@));
    }
}

/// The edits that the items of a list are, read one by one.
pub proof fn law_edit_lists_are_read_one_by_one(
    items: Seq<Json>,
    last: &Json,
    one: Option<TextEdit>,
)
    requires
        call_ensures(wire::text_edit_from_value, (last,), one),
    ensures
        wire::edits_in(Seq::empty()).len() == 0,
        wire::edits_in(items.push(*last)) == (match one {
            Some(e) => wire::edits_in(items).push((e.range, e.new_text@)),
            None => wire::edits_in(items),
        }),
{
    assert(items.push(*last).drop_last() =~= items);
}

/// The changes of a reply are read one by one: each gives its file, if that lies
/// below the root, and its edits, if it has any.
pub proof fn law_document_changes_are_read_one_by_one(
    shorter: Vec<Json>,
    longer: Vec<Json>,
    less: &Json,
    more: &Json,
    root: &RepoRoot,
    a: WorkspaceEdit,
    b: WorkspaceEdit,
    doc: &Json,
    given: &str,
    owned: String,
    items: Vec<Json>,
    path: Option<RelPath>,
)
    requires
        call_ensures(wire::workspace_edit_from_value, (less, root), a),
        call_ensures(wire::workspace_edit_from_value, (more, root), b),
        call_ensures(wire::uri_to_rel, (given, root), path),
        under(*less, "documentChanges"@, Json::List(shorter)),
        under(*more, "documentChanges"@, Json::List(longer)),
        shorter@.len() > 0,
        longer@.len() == shorter@.len() + 1,
        longer@.drop_last() == shorter@,
        under(longer@.last(), "textDocument"@, *doc),
        under(*doc, "uri"@, Json::Text(owned)),
        owned@ == given@,
        under(longer@.last(), "edits"@, Json::List(items)),
    ensures
        wire::file_edits(b.edits@) == (if path is Some && wire::edits_in(items@).len() > 0 {
            wire::file_edits(a.edits@).push((path.unwrap()@, wire::edits_in(items@)))
        } else {
            wire::file_edits(a.edits@)
        }),
{
    lemma_field(*less, "documentChanges"@, Json::List(shorter));
    lemma_field(*more, "documentChanges"@, Json::List(longer));
    lemma_field(longer@.last(), "textDocument"@, *doc);
    lemma_field(*doc, "uri"@, Json::Text(owned));
    lemma_field(longer@.last(), "edits"@, Json::List(items));
}

/// Where a reply holds no list of changes with anything in it, its table of changes
/// is read, file by file; a reply without either holds no edits.
pub proof fn law_tables_of_changes_are_read_file_by_file(
    shorter: Vec<(String, Json)>,
    longer: Vec<(String, Json)>,
    less: &Json,
    more: &Json,
    root: &RepoRoot,
    a: WorkspaceEdit,
    b: WorkspaceEdit,
    given: &str,
    items: Vec<Json>,
    path: Option<RelPath>,
)
    requires
        call_ensures(wire::workspace_edit_from_value, (less, root), a),
        call_ensures(wire::workspace_edit_from_value, (more, root), b),
        call_ensures(wire::uri_to_rel, (given, root), path),
        lacks(*less, "documentChanges"@),
        lacks(*more, "documentChanges"@),
        under(*more, "changes"@, Json::Table(longer)),
        longer@.len() == shorter@.len() + 1,
        longer@.drop_last() == shorter@,
        longer@.last().0@ == given@,
        longer@.last().1 == Json::List(items),
    ensures
        lacks(*less, "changes"@) ==> a.edits@.len() == 0,
        under(*less, "changes"@, Json::Table(shorter)) ==> wire::file_edits(b.edits@) == (
        if path is Some && wire::edits_in(items@).len() > 0 {
            wire::file_edits(a.edits@).push((path.unwrap()@, wire::edits_in(items@)))
        } else {
            wire::file_edits(a.edits@)
        }),
{
    lemma_field(*less, "documentChanges"@, Json::Null);
    lemma_field(*more, "documentChanges"@, Json::Null);
    lemma_field(*less, "changes"@, Json::Table(shorter));
    lemma_field(*more, "changes"@, Json::Table(longer));
    assert(wire::file_edits(a.edits@).len() == a.edits@.len());
}

// -------------------------------------------------------------------- URIs

/// A percent sign and two hexadecimal digits stand for the byte that they write;
/// any other byte stands for itself.
pub proof fn law_escapes_stand_for_bytes(b: u8, rest: Seq<u8>)
    ensures
        b != 37 ==> wire::loosely_unescaped(seq![b] + rest) == seq![b] + wire::loosely_unescaped(
            rest,
        ),
        ({
            let high = hex_byte((b / 16) as u8);
            let low = hex_byte((b % 16) as u8);
            wire::loosely_unescaped(seq![37u8, high, low] + rest) == seq![b]
                + wire::loosely_unescaped(rest)
        }),
        wire::loosely_unescaped(Seq::empty()).len() == 0,
        wire::loosely_unescaped(seq![37u8]) == seq![37u8],
{
    let one = seq![b] + rest;
    assert(one.drop_first() =~= rest);
    let high = hex_byte((b / 16) as u8);
    let low = hex_byte((b % 16) as u8);
    let three = seq![37u8, high, low] + rest;
    assert(three.skip(3) =~= rest);
    assert(three[0] == 37 && three[1] == high && three[2] == low);
    lemma_hex_byte((b / 16) as u8);
    lemma_hex_byte((b % 16) as u8);
    assert((b / 16) * 16 + b % 16 == b);
    let sign = seq![37u8];
    assert(sign.drop_first() =~= Seq::<u8>::empty());
    assert(seq![37u8] + wire::loosely_unescaped(Seq::empty()) =~= sign);
}

/// The byte of a hexadecimal digit.
pub open spec fn hex_byte(v: u8) -> u8 {
    if v < 10 {
        (48 + v) as u8
    } else {
        (55 + v) as u8
    }
}

proof fn lemma_hex_byte(v: u8)
    requires
        v < 16,
    ensures
        uri::hex_value(hex_byte(v)) == Some(v),
{
}

/// A character that stands for itself in a URI.
pub open spec fn stands_for_itself(c: char) -> bool {
    'a' <= c <= 'z' || 'A' <= c <= 'Z' || '0' <= c <= '9' || c == '/' || c == '-' || c == '_' || c
        == '.' || c == '~' || c == ':'
}

/// Letters, digits and `/-_.~:` stand for themselves in a URI, and every other
/// byte is written as a percent sign and two digits.
pub proof fn law_plain_bytes_are_not_escaped(bytes: Seq<u8>, b: u8)
    ensures
        wire::escaped(Seq::empty()).len() == 0,
        b < 128 && stands_for_itself(b as char) ==> wire::escaped(bytes.push(b)) == wire::escaped(
            bytes,
        ).push(b as char),
        b >= 128 || !stands_for_itself(b as char) ==> wire::escaped(bytes.push(b))
            == wire::escaped(bytes) + seq![
            '%',
            hex_byte((b / 16) as u8) as char,
            hex_byte((b % 16) as u8) as char,
        ],
{
    assert(bytes.push(b).drop_last() =~= bytes);
}

} // verus!
