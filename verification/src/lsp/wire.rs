//! What language servers say, read from JSON, and what they are asked.

use super::json;
use super::json::Json;
use super::queries;
use super::uri;
use super::uri::RepoRoot;
use super::{Diagnostic, Location, Position, Range, Severity, TextEdit, WorkspaceEdit};
use crate::paths;
use crate::text;
use crate::types;
use crate::types::RelPath;
use vstd::prelude::*;
use vstd::string::*;

verus! {

// -------------------------------------------------------------- decoding

/// The byte that two characters after a percent sign stand for. A plus sign
/// may take the place of the first digit.
pub open spec fn escaped_byte(a: u8, b: u8) -> Option<u8> {
    match (uri::hex_value(a), uri::hex_value(b)) {
        (Some(high), Some(low)) => Some((high * 16 + low) as u8),
        (None, Some(low)) => if a == 43 {
            Some(low)
        } else {
            None
        },
        _ => None,
    }
}

/// Bytes with the percent escapes among them decoded. What is no escape stays
/// as it is.
pub open spec fn loosely_unescaped(bytes: Seq<u8>) -> Seq<u8>
    decreases bytes.len(),
{
    if bytes.len() == 0 {
        Seq::empty()
    } else if bytes[0] == 37 && bytes.len() > 2 && escaped_byte(bytes[1], bytes[2]) is Some {
        seq![escaped_byte(bytes[1], bytes[2]).unwrap()] + loosely_unescaped(bytes.skip(3))
    } else {
        seq![bytes[0]] + loosely_unescaped(bytes.drop_first())
    }
}

/// What `String::from_utf8_lossy` makes of bytes.
pub uninterp spec fn lossy_text(bytes: Seq<u8>) -> Seq<char>;

/// `String::from_utf8_lossy`: the text is named [`lossy_text`]. Of bytes that
/// are UTF-8 it is their text.
#[verifier::external_body]
pub(crate) fn lossy(bytes: &Vec<u8>) -> (r: String)
    ensures
        r@ == lossy_text(bytes@),
        vstd::utf8::valid_utf8(bytes@) ==> r@ == vstd::utf8::decode_utf8(bytes@),
{
    String::from_utf8_lossy(bytes).into_owned()
}

fn unescape(bytes: &[u8]) -> (out: Vec<u8>)
    ensures
        out@ == loosely_unescaped(bytes@),
{
    let n: usize = bytes.len();
    let mut out: Vec<u8> = Vec::new();
    let mut i: usize = 0;
    assert(bytes@.skip(0) =~= bytes@);
    assert(out@ + loosely_unescaped(bytes@) =~= loosely_unescaped(bytes@));
    while i < n
        invariant
            i <= n,
            n == bytes@.len(),
            loosely_unescaped(bytes@) == out@ + loosely_unescaped(bytes@.skip(i as int)),
        decreases n - i,
    {
        let ghost tail = bytes@.skip(i as int);
        let ghost was = out@;
        let mut found: Option<u8> = None;
        if bytes[i] == 37 && n - i > 2 {
            assert(tail[1] == bytes@[i + 1] && tail[2] == bytes@[i + 2]);
            match (uri::from_hex(bytes[i + 1]), uri::from_hex(bytes[i + 2])) {
                (Some(high), Some(low)) => {
                    found = Some(high * 16 + low);
                },
                (None, Some(low)) => {
                    if bytes[i + 1] == 43 {
                        found = Some(low);
                    }
                },
                _ => {},
            }
            assert(found == escaped_byte(tail[1], tail[2]));
        }
        match found {
            Some(b) => {
                out.push(b);
                assert(tail.skip(3) =~= bytes@.skip(i + 3));
                i = i + 3;
                assert(out@ + loosely_unescaped(bytes@.skip(i as int)) =~= was + (seq![b]
                    + loosely_unescaped(bytes@.skip(i as int))));
            },
            None => {
                out.push(bytes[i]);
                assert(tail.drop_first() =~= bytes@.skip(i + 1));
                i = i + 1;
                assert(out@ + loosely_unescaped(bytes@.skip(i as int)) =~= was + (seq![tail[0]]
                    + loosely_unescaped(bytes@.skip(i as int))));
            },
        }
    }
    assert(bytes@.skip(n as int) =~= Seq::<u8>::empty());
    assert(out@ + Seq::<u8>::empty() =~= out@);
    out
}

/// A text with the percent escapes in it decoded.
pub fn percent_decode(input: &str) -> (r: String)
    ensures
        r@ == lossy_text(loosely_unescaped(vstd::utf8::encode_utf8(input@))),
        vstd::utf8::valid_utf8(loosely_unescaped(vstd::utf8::encode_utf8(input@))) ==> r@
            == vstd::utf8::decode_utf8(loosely_unescaped(vstd::utf8::encode_utf8(input@))),
{
    let bytes = input.as_bytes();
    lossy(&unescape(bytes))
}

// ------------------------------------------------------------------ paths

/// What stands behind the scheme of a file URI; any other text as it is.
pub open spec fn without_scheme(given: Seq<char>) -> Seq<char> {
    if text::stands_at(given, "file://"@, 0) {
        given.skip(7)
    } else {
        given
    }
}

/// What stands below `base` of a path, as it is written: nothing for a path that
/// does not start with the parts of `base`.
pub open spec fn text_below(path: Seq<char>, base: Seq<char>, windows: bool) -> Option<Seq<char>> {
    let stem = paths::parts_of(paths::behind_drive(base, windows));
    let rest = paths::behind_drive(path, windows);
    if base.len() == 0 {
        Some(paths::to_last_name(paths::slashed(path, windows)))
    } else if paths::drive_part(path, windows) == paths::drive_part(base, windows)
        && paths::is_absolute(rest) == paths::starts_at_root(base, windows) && stem.is_prefix_of(
        paths::parts_of(rest),
    ) {
        Some(paths::to_last_name(paths::after_names(rest, stem.len())))
    } else {
        None
    }
}

/// What stands below `base` of a path.
fn strip_base(path: &[char], base: &[char], windows: bool) -> (r: Option<Vec<char>>)
    ensures
        match r {
            Some(t) => text_below(path@, base@, windows) == Some(t@),
            None => text_below(path@, base@, windows) is None,
        },
{
    if base.len() == 0 {
        return Some(paths::cut_to_last_name(&paths::to_slashed(path, windows)));
    }
    let (path_drive, rest) = paths::split_drive(path, windows);
    let (base_drive, below) = paths::split_drive(base, windows);
    let stem = paths::components(&below);
    let parts = paths::components(&rest);
    assert(text::rows(stem@).len() == stem@.len());
    let path_lower = text::lower_chars(&path_drive);
    let base_lower = text::lower_chars(&base_drive);
    proof {
        lemma_same_drive(path@, base@, windows);
    }
    if !text::same_chars(&path_lower, &base_lower) || (rest.len() > 0 && rest[0] == '/') != (
    below.len() > 0 && below[0] == '/') || !uri::same_rows(&parts, &stem) {
        return None;
    }
    Some(paths::cut_to_last_name(&paths::skip_names(&rest, stem.len())))
}

proof fn lemma_same_drive(path: Seq<char>, base: Seq<char>, windows: bool)
    ensures
        paths::drive_part(path, windows) == paths::drive_part(base, windows) <==> text::ascii_lower(
            paths::drive_text(path, windows),
        ) == text::ascii_lower(paths::drive_text(base, windows)),
{
    let a = paths::drive_text(path, windows);
    let b = paths::drive_text(base, windows);
    assert(text::ascii_lower(a).len() == a.len());
    assert(text::ascii_lower(b).len() == b.len());
    if a.len() > 0 && b.len() > 0 {
        assert(paths::drive_part(path, windows)[0] == text::ascii_lower(a));
        assert(paths::drive_part(base, windows)[0] == text::ascii_lower(b));
    } else if a.len() == 0 && b.len() == 0 {
        assert(a =~= b);
    } else {
        assert(paths::drive_part(path, windows).len() != paths::drive_part(base, windows).len());
    }
}

/// A decoded path as a path below the root. A relative path is taken for one;
/// an absolute path, and the root, are first taken for what the file system
/// knows them as.
pub open spec fn rel_of_decoded(decoded: Seq<char>, root: RepoRoot) -> Option<Seq<char>> {
    if !paths::is_full(decoded, root.windows) {
        Some(types::rel_text(decoded))
    } else {
        let abs = match text::entry(root.resolved@, decoded) {
            Some(known) => known,
            None => decoded,
        };
        let base = match root.canonical {
            Some(c) => c@,
            None => root.text@,
        };
        match text_below(abs, base, root.windows) {
            Some(rel) => Some(types::rel_text(rel)),
            None => None,
        }
    }
}

/// A decoded path as a path below the root.
pub fn decoded_to_rel(decoded: &str, root: &RepoRoot) -> (r: Option<RelPath>)
    ensures
        match r {
            Some(p) => rel_of_decoded(decoded@, *root) == Some(p@),
            None => rel_of_decoded(decoded@, *root) is None,
        },
{
    let given = text::chars_of(decoded);
    if !paths::is_full_path(&given, root.windows) {
        return Some(RelPath::new(decoded));
    }
    let abs = match root.resolve(decoded) {
        Some(known) => text::chars_of(known.as_str()),
        None => given,
    };
    let base = match &root.canonical {
        Some(c) => text::chars_of(c.as_str()),
        None => text::chars_of(root.text.as_str()),
    };
    match strip_base(&abs, &base, root.windows) {
        Some(rel) => Some(RelPath::new(text::string_of(&rel).as_str())),
        None => None,
    }
}

/// A URI as a path below the root.
pub open spec fn rel_of_uri(given: Seq<char>, root: RepoRoot) -> Option<Seq<char>> {
    rel_of_decoded(lossy_text(uri_bytes(given)), root)
}

/// The bytes that the escapes of a URI stand for.
pub open spec fn uri_bytes(given: Seq<char>) -> Seq<u8> {
    loosely_unescaped(vstd::utf8::encode_utf8(without_scheme(given)))
}

/// A URI as a path below the root. One whose escapes stand for UTF-8 is taken
/// for the path that they write.
pub fn uri_to_rel(given: &str, root: &RepoRoot) -> (r: Option<RelPath>)
    ensures
        match r {
            Some(p) => rel_of_uri(given@, *root) == Some(p@),
            None => rel_of_uri(given@, *root) is None,
        },
        vstd::utf8::valid_utf8(uri_bytes(given@)) ==> match r {
            Some(p) => rel_of_decoded(vstd::utf8::decode_utf8(uri_bytes(given@)), *root) == Some(
                p@,
            ),
            None => rel_of_decoded(vstd::utf8::decode_utf8(uri_bytes(given@)), *root) is None,
        },
{
    proof {
        reveal_strlit("file://");
    }
    let chars = text::chars_of(given);
    let decoded = if text::starts_with(&chars, &text::chars_of("file://")) {
        let rest = text::slice_of(&chars, 7, chars.len());
        assert(rest@ =~= given@.skip(7));
        percent_decode(text::string_of(&rest).as_str())
    } else {
        percent_decode(given)
    };
    decoded_to_rel(decoded.as_str(), root)
}

/// The path that the file system has to be asked about before a URI can be
/// placed below a root: none for a relative one.
pub fn uri_to_resolve(given: &str, windows: bool) -> (r: Option<String>)
    ensures
        ({
            let decoded = lossy_text(uri_bytes(given@));
            match r {
                Some(p) => paths::is_full(decoded, windows) && p@ == decoded,
                None => !paths::is_full(decoded, windows),
            }
        }),
{
    proof {
        reveal_strlit("file://");
    }
    let chars = text::chars_of(given);
    let decoded = if text::starts_with(&chars, &text::chars_of("file://")) {
        let rest = text::slice_of(&chars, 7, chars.len());
        assert(rest@ =~= given@.skip(7));
        percent_decode(text::string_of(&rest).as_str())
    } else {
        percent_decode(given)
    };
    if paths::is_full_path(&text::chars_of(decoded.as_str()), windows) {
        Some(decoded)
    } else {
        None
    }
}

/// A byte that stands for itself in a URI.
pub open spec fn plain_byte(b: u8) -> bool {
    65 <= b <= 90 || 97 <= b <= 122 || 48 <= b <= 57 || b == 47 || b == 45 || b == 95 || b == 46
        || b == 126 || b == 58
}

/// A hexadecimal digit in upper case.
pub open spec fn hex_digit(v: u8) -> char {
    if v < 10 {
        (48 + v) as u8 as char
    } else {
        (55 + v) as u8 as char
    }
}

/// Bytes with those that cannot stand for themselves escaped.
pub open spec fn escaped(bytes: Seq<u8>) -> Seq<char>
    decreases bytes.len(),
{
    if bytes.len() == 0 {
        Seq::empty()
    } else {
        let before = escaped(bytes.drop_last());
        let b = bytes.last();
        if plain_byte(b) {
            before.push(b as char)
        } else {
            before + seq!['%', hex_digit(b / 16), hex_digit(b % 16)]
        }
    }
}

fn to_hex_digit(v: u8) -> (r: char)
    requires
        v < 16,
    ensures
        r == hex_digit(v),
{
    if v < 10 {
        (48 + v) as char
    } else {
        (55 + v) as char
    }
}

/// The file URI of a path. On Windows a drive stands behind a slash.
pub open spec fn file_uri_of(path: Seq<char>, cwd: Seq<char>, windows: bool) -> Seq<char> {
    let whole = paths::forward(
        if paths::is_full(path, windows) {
            path
        } else {
            paths::below_on(cwd, path, windows)
        },
    );
    let lead = if windows && !paths::is_absolute(whole) {
        "file:///"@
    } else {
        "file://"@
    };
    lead + escaped(vstd::utf8::encode_utf8(whole))
}

/// The file URI of a path. A relative one is taken from `cwd` on.
pub fn path_to_file_uri(path: &str, cwd: &str, windows: bool) -> (r: String)
    ensures
        r@ == file_uri_of(path@, cwd@, windows),
{
    let chars = text::chars_of(path);
    let whole = if paths::is_full_path(&chars, windows) {
        chars
    } else {
        text::chars_of(paths::join_on(cwd, path, windows).as_str())
    };
    let rendered = paths::to_forward(&whole);
    let lead = if windows && !(rendered.len() > 0 && rendered[0] == '/') {
        "file:///"
    } else {
        "file://"
    };
    let shown = text::string_of(&rendered);
    let bytes = shown.as_str().as_bytes();
    let n: usize = bytes.len();
    let mut out: Vec<char> = Vec::new();
    let mut i: usize = 0;
    assert(out@ =~= escaped(bytes@.take(0)));
    while i < n
        invariant
            i <= n,
            n == bytes@.len(),
            out@ == escaped(bytes@.take(i as int)),
        decreases n - i,
    {
        let b = bytes[i];
        let ghost was = out@;
        assert(bytes@.take(i as int + 1).drop_last() =~= bytes@.take(i as int));
        if (65 <= b && b <= 90) || (97 <= b && b <= 122) || (48 <= b && b <= 57) || b == 47 || b
            == 45 || b == 95 || b == 46 || b == 126 || b == 58 {
            out.push(b as char);
        } else {
            out.push('%');
            out.push(to_hex_digit(b / 16));
            out.push(to_hex_digit(b % 16));
            assert(out@ =~= was + seq!['%', hex_digit(b / 16), hex_digit(b % 16)]);
        }
        i = i + 1;
    }
    assert(bytes@.take(n as int) =~= bytes@);
    String::from_str(lead).concat(text::string_of(&out).as_str())
}

// ------------------------------------------------------------------ values

/// The low 32 bits of a number.
pub open spec fn low_half(n: u64) -> u32 {
    (n % 0x1_0000_0000) as u32
}

/// The position that a value is.
pub open spec fn position_in(j: Json) -> Option<Position> {
    match (
        json::unsigned_in(json::field(j, "line"@)),
        json::unsigned_in(json::field(j, "character"@)),
    ) {
        (Some(line), Some(character)) => Some(
            Position { line: low_half(line), character: low_half(character) },
        ),
        _ => None,
    }
}

/// The position that a value is.
pub fn position_from_value(value: &Json) -> (r: Option<Position>)
    ensures
        r == position_in(*value),
{
    match (value.unsigned_at("line"), value.unsigned_at("character")) {
        (Some(line), Some(character)) => Some(
            Position {
                line: (line % 0x1_0000_0000) as u32,
                character: (character % 0x1_0000_0000) as u32,
            },
        ),
        _ => None,
    }
}

/// The position that the value under a key is.
pub open spec fn position_at(j: Option<Json>) -> Option<Position> {
    match j {
        Some(p) => position_in(p),
        None => None,
    }
}

/// The range that a value is.
pub open spec fn range_in(j: Json) -> Option<Range> {
    match (
        position_at(json::field(j, "start"@)),
        position_at(json::field(j, "end"@)),
    ) {
        (Some(start), Some(end)) => Some(Range { start, end }),
        _ => None,
    }
}

/// The range that a value is.
pub fn range_from_value(value: &Json) -> (r: Option<Range>)
    ensures
        r == range_in(*value),
{
    let start = match value.get("start") {
        Some(p) => position_from_value(p),
        None => None,
    };
    let end = match value.get("end") {
        Some(p) => position_from_value(p),
        None => None,
    };
    match (start, end) {
        (Some(start), Some(end)) => Some(Range { start, end }),
        _ => None,
    }
}

/// The range that the value under a key is.
pub open spec fn range_at(j: Option<Json>) -> Option<Range> {
    match j {
        Some(p) => range_in(p),
        None => None,
    }
}

/// The value under the first of two keys that is there.
pub open spec fn either_field(j: Json, a: Seq<char>, b: Seq<char>) -> Option<Json> {
    match json::field(j, a) {
        Some(v) => Some(v),
        None => json::field(j, b),
    }
}

/// The location that a value is, by its path and range. A link counts by its
/// target.
pub open spec fn location_in(j: Json, root: RepoRoot) -> Option<(Seq<char>, Range)> {
    match (
        json::text_in(either_field(j, "uri"@, "targetUri"@)),
        range_at(either_field(j, "range"@, "targetSelectionRange"@)),
    ) {
        (Some(u), Some(range)) => match rel_of_uri(u, root) {
            Some(path) => Some((path, range)),
            None => None,
        },
        _ => None,
    }
}

/// The location that a value is.
pub fn location_from_value(value: &Json, root: &RepoRoot) -> (r: Option<Location>)
    ensures
        match r {
            Some(l) => location_in(*value, *root) == Some(queries::key_of(l)),
            None => location_in(*value, *root) is None,
        },
{
    let named = match value.get("uri") {
        Some(v) => Some(v),
        None => value.get("targetUri"),
    };
    let given = match named {
        Some(Json::Text(s)) => s,
        _ => {
            return None;
        },
    };
    let placed = match value.get("range") {
        Some(v) => Some(v),
        None => value.get("targetSelectionRange"),
    };
    let range = match placed {
        Some(v) => match range_from_value(v) {
            Some(range) => range,
            None => {
                return None;
            },
        },
        None => {
            return None;
        },
    };
    match uri_to_rel(given.as_str(), root) {
        Some(path) => Some(Location { path, range }),
        None => None,
    }
}

/// The locations that the items of a list are.
pub open spec fn locations_in(items: Seq<Json>, root: RepoRoot) -> Seq<(Seq<char>, Range)>
    decreases items.len(),
{
    if items.len() == 0 {
        Seq::empty()
    } else {
        let before = locations_in(items.drop_last(), root);
        match location_in(items.last(), root) {
            Some(l) => before.push(l),
            None => before,
        }
    }
}

/// The locations that a reply holds: one, or a list of them.
pub open spec fn reply_locations(j: Json, root: RepoRoot) -> Seq<(Seq<char>, Range)> {
    match j {
        Json::List(items) => locations_in(items@, root),
        Json::Table(_) => match location_in(j, root) {
            Some(l) => seq![l],
            None => Seq::empty(),
        },
        _ => Seq::empty(),
    }
}

/// The locations that a reply holds.
pub fn locations_from_value(value: &Json, root: &RepoRoot) -> (out: Vec<Location>)
    ensures
        queries::keys_of(out@) == reply_locations(*value, *root),
{
    let mut out: Vec<Location> = Vec::new();
    match value {
        Json::List(items) => {
            let mut i: usize = 0;
            assert(queries::keys_of(out@) =~= locations_in(items@.take(0), *root));
            while i < items.len()
                invariant
                    i <= items@.len(),
                    queries::keys_of(out@) == locations_in(items@.take(i as int), *root),
                decreases items.len() - i,
            {
                let ghost was = queries::keys_of(out@);
                assert(items@.take(i as int + 1).drop_last() =~= items@.take(i as int));
                if let Some(l) = location_from_value(&items[i], root) {
                    let ghost key = queries::key_of(l);
                    out.push(l);
                    assert(queries::keys_of(out@) =~= was.push(key));
                }
                i = i + 1;
            }
            assert(items@.take(items@.len() as int) =~= items@);
        },
        Json::Table(_) => {
            if let Some(l) = location_from_value(value, root) {
                let ghost key = queries::key_of(l);
                out.push(l);
                assert(queries::keys_of(out@) =~= seq![key]);
            } else {
                assert(queries::keys_of(out@) =~= Seq::empty());
            }
        },
        _ => {
            assert(queries::keys_of(out@) =~= Seq::empty());
        },
    }
    out
}

// ------------------------------------------------------------- diagnostics

/// A diagnostic as mathematics.
pub ghost struct Finding {
    pub path: Seq<char>,
    pub range: Range,
    pub severity: Severity,
    pub message: Seq<char>,
    pub code: Option<Seq<char>>,
}

/// What a diagnostic says.
pub open spec fn finding(d: Diagnostic) -> Finding {
    Finding {
        path: d.path@,
        range: d.range,
        severity: d.severity,
        message: d.message@,
        code: match d.code {
            Some(c) => Some(c@),
            None => None,
        },
    }
}

/// What diagnostics say.
pub open spec fn findings(v: Seq<Diagnostic>) -> Seq<Finding> {
    v.map_values(|d: Diagnostic| finding(d))
}

/// A severity by its number. What has none is an information.
pub open spec fn severity_of(n: Option<u64>) -> Severity {
    match n {
        Some(k) => if k == 1 {
            Severity::Error
        } else if k == 2 {
            Severity::Warning
        } else if k == 4 {
            Severity::Hint
        } else {
            Severity::Information
        },
        None => Severity::Information,
    }
}

/// A severity by its number.
pub fn severity_from_u64(n: Option<u64>) -> (r: Severity)
    ensures
        r == severity_of(n),
{
    match n {
        Some(1) => Severity::Error,
        Some(2) => Severity::Warning,
        Some(3) => Severity::Information,
        Some(4) => Severity::Hint,
        _ => Severity::Information,
    }
}

/// The code that a value is: a text, or a number as it is written.
pub open spec fn code_in(j: Option<Json>) -> Option<Seq<char>> {
    match j {
        Some(Json::Text(s)) => Some(s@),
        Some(Json::Number(n)) => Some(n@),
        _ => None,
    }
}

/// The diagnostic that a value is.
pub open spec fn finding_in(j: Json, path: Seq<char>) -> Option<Finding> {
    match (range_at(json::field(j, "range"@)), json::text_in(json::field(j, "message"@))) {
        (Some(range), Some(message)) => Some(
            Finding {
                path,
                range,
                severity: severity_of(json::unsigned_in(json::field(j, "severity"@))),
                message,
                code: code_in(json::field(j, "code"@)),
            },
        ),
        _ => None,
    }
}

/// The diagnostics that the items of a list are.
pub open spec fn findings_in(items: Seq<Json>, path: Seq<char>) -> Seq<Finding>
    decreases items.len(),
{
    if items.len() == 0 {
        Seq::empty()
    } else {
        let before = findings_in(items.drop_last(), path);
        match finding_in(items.last(), path) {
            Some(d) => before.push(d),
            None => before,
        }
    }
}

/// The diagnostics that a report holds, under `items` or by itself.
pub open spec fn report_findings(j: Json, path: Seq<char>) -> Seq<Finding> {
    match json::list_in(json::field(j, "items"@)) {
        Some(items) => findings_in(items, path),
        None => match j {
            Json::List(items) => findings_in(items@, path),
            _ => Seq::empty(),
        },
    }
}

fn diagnostic_from_value(item: &Json, path: &RelPath) -> (r: Option<Diagnostic>)
    ensures
        match r {
            Some(d) => finding_in(*item, path@) == Some(finding(d)),
            None => finding_in(*item, path@) is None,
        },
{
    let range = match item.get("range") {
        Some(v) => match range_from_value(v) {
            Some(range) => range,
            None => {
                return None;
            },
        },
        None => {
            return None;
        },
    };
    let message = match item.text_at("message") {
        Some(m) => m,
        None => {
            return None;
        },
    };
    let severity = severity_from_u64(item.unsigned_at("severity"));
    let code = match item.get("code") {
        Some(Json::Text(s)) => Some(s.clone()),
        Some(Json::Number(n)) => Some(n.clone()),
        _ => None,
    };
    Some(Diagnostic { path: path.clone(), range, severity, message, code })
}

fn diagnostics_from_items(items: &Vec<Json>, path: &RelPath) -> (out: Vec<Diagnostic>)
    ensures
        findings(out@) == findings_in(items@, path@),
{
    let mut out: Vec<Diagnostic> = Vec::new();
    let mut i: usize = 0;
    assert(findings(out@) =~= findings_in(items@.take(0), path@));
    while i < items.len()
        invariant
            i <= items@.len(),
            findings(out@) == findings_in(items@.take(i as int), path@),
        decreases items.len() - i,
    {
        let ghost was = findings(out@);
        assert(items@.take(i as int + 1).drop_last() =~= items@.take(i as int));
        if let Some(d) = diagnostic_from_value(&items[i], path) {
            let ghost key = finding(d);
            out.push(d);
            assert(findings(out@) =~= was.push(key));
        }
        i = i + 1;
    }
    assert(items@.take(items@.len() as int) =~= items@);
    out
}

/// The diagnostics that a report holds.
pub fn diagnostics_from_pull(value: &Json, path: &RelPath) -> (out: Vec<Diagnostic>)
    ensures
        findings(out@) == report_findings(*value, path@),
{
    if let Some(items) = value.list_at("items") {
        return diagnostics_from_items(items, path);
    }
    match value {
        Json::List(items) => diagnostics_from_items(items, path),
        _ => {
            let none: Vec<Diagnostic> = Vec::new();
            assert(findings(none@) =~= Seq::empty());
            none
        },
    }
}

/// The code of a diagnostic, as a server publishes it.
#[derive(Debug, PartialEq, Eq)]
pub enum Code {
    Number(i32),
    Text(String),
}

/// A diagnostic as a server publishes it.
#[derive(Debug, PartialEq, Eq)]
pub struct Published {
    pub range: Range,
    /// The severity, where it is one of the four.
    pub severity: Option<Severity>,
    pub message: String,
    pub code: Option<Code>,
}

/// The code of a diagnostic, as mathematics.
pub ghost enum NoticeCode {
    Number(i32),
    Text(Seq<char>),
}

/// A published diagnostic, as mathematics.
pub ghost struct Notice {
    pub range: Range,
    pub severity: Option<Severity>,
    pub message: Seq<char>,
    pub code: Option<NoticeCode>,
}

/// What a published diagnostic is.
pub open spec fn notice(d: Published) -> Notice {
    Notice {
        range: d.range,
        severity: d.severity,
        message: d.message@,
        code: match d.code {
            Some(Code::Number(n)) => Some(NoticeCode::Number(n)),
            Some(Code::Text(s)) => Some(NoticeCode::Text(s@)),
            None => None,
        },
    }
}

/// What published diagnostics are.
pub open spec fn notices(v: Seq<Published>) -> Seq<Notice> {
    v.map_values(|d: Published| notice(d))
}

/// A whole number in decimal digits.
pub open spec fn signed_decimal(n: int) -> Seq<char> {
    if n < 0 {
        seq!['-'] + text::decimal((-n) as nat)
    } else {
        text::decimal(n as nat)
    }
}

fn to_signed_decimal(n: i32) -> (r: String)
    ensures
        r@ == signed_decimal(n as int),
{
    if n < 0 {
        let mut out: Vec<char> = Vec::new();
        out.push('-');
        let mut digits = text::to_decimal((-(n as i64)) as u64);
        out.append(&mut digits);
        assert(out@ =~= signed_decimal(n as int));
        text::string_of(&out)
    } else {
        text::string_of(&text::to_decimal(n as u64))
    }
}

/// What a published diagnostic says of a file.
pub open spec fn published_finding(path: Seq<char>, d: Notice) -> Finding {
    Finding {
        path,
        range: d.range,
        severity: match d.severity {
            Some(s) => s,
            None => Severity::Information,
        },
        message: d.message,
        code: match d.code {
            Some(NoticeCode::Number(n)) => Some(signed_decimal(n as int)),
            Some(NoticeCode::Text(s)) => Some(s),
            None => None,
        },
    }
}

/// A published diagnostic, as one of a file.
pub fn diagnostic_from_lsp(path: &RelPath, d: &Published) -> (r: Diagnostic)
    ensures
        finding(r) == published_finding(path@, notice(*d)),
{
    Diagnostic {
        path: path.clone(),
        range: d.range,
        severity: match d.severity {
            Some(s) => s,
            None => Severity::Information,
        },
        message: d.message.clone(),
        code: match &d.code {
            Some(Code::Number(n)) => Some(to_signed_decimal(*n)),
            Some(Code::Text(s)) => Some(s.clone()),
            None => None,
        },
    }
}

// ------------------------------------------------------------------- edits

/// The edit that a value is, by its range and text.
pub open spec fn edit_in(j: Json) -> Option<(Range, Seq<char>)> {
    match (range_at(json::field(j, "range"@)), json::text_in(json::field(j, "newText"@))) {
        (Some(range), Some(new_text)) => Some((range, new_text)),
        _ => None,
    }
}

/// An edit by its range and text.
pub open spec fn edit_key(e: TextEdit) -> (Range, Seq<char>) {
    (e.range, e.new_text@)
}

/// Edits by their ranges and texts.
pub open spec fn edit_keys(v: Seq<TextEdit>) -> Seq<(Range, Seq<char>)> {
    v.map_values(|e: TextEdit| edit_key(e))
}

/// The edits of files, each file by its path.
pub open spec fn file_edits(v: Seq<(RelPath, Vec<TextEdit>)>) -> Seq<
    (Seq<char>, Seq<(Range, Seq<char>)>),
> {
    v.map_values(|f: (RelPath, Vec<TextEdit>)| (f.0@, edit_keys(f.1@)))
}

/// The edits that the items of a list are.
pub open spec fn edits_in(items: Seq<Json>) -> Seq<(Range, Seq<char>)>
    decreases items.len(),
{
    if items.len() == 0 {
        Seq::empty()
    } else {
        let before = edits_in(items.drop_last());
        match edit_in(items.last()) {
            Some(e) => before.push(e),
            None => before,
        }
    }
}

/// The edits of one file, where its URI lies below the root and it has any.
pub open spec fn edits_of_file(given: Option<Seq<char>>, items: Option<Seq<Json>>, root: RepoRoot) -> Option<
    (Seq<char>, Seq<(Range, Seq<char>)>),
> {
    match (given, items) {
        (Some(u), Some(list)) => match rel_of_uri(u, root) {
            Some(path) => if edits_in(list).len() > 0 {
                Some((path, edits_in(list)))
            } else {
                None
            },
            None => None,
        },
        _ => None,
    }
}

/// The URI of the document of a change.
pub open spec fn document_uri(change: Json) -> Option<Seq<char>> {
    match json::field(change, "textDocument"@) {
        Some(doc) => json::text_in(json::field(doc, "uri"@)),
        None => None,
    }
}

/// The edits of changes, in their order.
pub open spec fn change_edits(changes: Seq<Json>, root: RepoRoot) -> Seq<
    (Seq<char>, Seq<(Range, Seq<char>)>),
>
    decreases changes.len(),
{
    if changes.len() == 0 {
        Seq::empty()
    } else {
        let before = change_edits(changes.drop_last(), root);
        let change = changes.last();
        match edits_of_file(
            document_uri(change),
            json::list_in(json::field(change, "edits"@)),
            root,
        ) {
            Some(f) => before.push(f),
            None => before,
        }
    }
}

/// The edits of a table from URIs to lists, in its order.
pub open spec fn table_edits(fields: Seq<(String, Json)>, root: RepoRoot) -> Seq<
    (Seq<char>, Seq<(Range, Seq<char>)>),
>
    decreases fields.len(),
{
    if fields.len() == 0 {
        Seq::empty()
    } else {
        let before = table_edits(fields.drop_last(), root);
        let entry = fields.last();
        match edits_of_file(Some(entry.0@), json::list_in(Some(entry.1)), root) {
            Some(f) => before.push(f),
            None => before,
        }
    }
}

/// The edits of a reply: those under `documentChanges`, if it is a list with
/// anything in it, or else those under `changes`.
pub open spec fn reply_edits(j: Json, root: RepoRoot) -> Seq<(Seq<char>, Seq<(Range, Seq<char>)>)> {
    match json::list_in(json::field(j, "documentChanges"@)) {
        Some(changes) if changes.len() > 0 => change_edits(changes, root),
        _ => match json::field(j, "changes"@) {
            Some(Json::Table(fields)) => table_edits(fields@, root),
            _ => Seq::empty(),
        },
    }
}

/// The edit that a value is.
pub fn text_edit_from_value(value: &Json) -> (r: Option<TextEdit>)
    ensures
        match r {
            Some(e) => edit_in(*value) == Some(edit_key(e)),
            None => edit_in(*value) is None,
        },
{
    let range = match value.get("range") {
        Some(v) => range_from_value(v),
        None => None,
    };
    match (range, value.text_at("newText")) {
        (Some(range), Some(new_text)) => Some(TextEdit { range, new_text }),
        _ => None,
    }
}

fn text_edits_from_items(items: &Vec<Json>) -> (out: Vec<TextEdit>)
    ensures
        edit_keys(out@) == edits_in(items@),
{
    let mut out: Vec<TextEdit> = Vec::new();
    let mut i: usize = 0;
    assert(edit_keys(out@) =~= edits_in(items@.take(0)));
    while i < items.len()
        invariant
            i <= items@.len(),
            edit_keys(out@) == edits_in(items@.take(i as int)),
        decreases items.len() - i,
    {
        let ghost was = edit_keys(out@);
        assert(items@.take(i as int + 1).drop_last() =~= items@.take(i as int));
        if let Some(e) = text_edit_from_value(&items[i]) {
            let ghost key = edit_key(e);
            out.push(e);
            assert(edit_keys(out@) =~= was.push(key));
        }
        i = i + 1;
    }
    assert(items@.take(items@.len() as int) =~= items@);
    out
}

fn file_edits_from(given: &str, items: &Vec<Json>, root: &RepoRoot) -> (r: Option<
    (RelPath, Vec<TextEdit>),
>)
    ensures
        match r {
            Some(f) => edits_of_file(Some(given@), Some(items@), *root) == Some(
                (f.0@, edit_keys(f.1@)),
            ),
            None => edits_of_file(Some(given@), Some(items@), *root) is None,
        },
{
    match uri_to_rel(given, root) {
        Some(path) => {
            let edits = text_edits_from_items(items);
            assert(edit_keys(edits@).len() == edits@.len());
            if edits.len() > 0 {
                Some((path, edits))
            } else {
                None
            }
        },
        None => None,
    }
}

fn edits_from_changes(changes: &Vec<Json>, root: &RepoRoot) -> (out: Vec<(RelPath, Vec<TextEdit>)>)
    ensures
        file_edits(out@) == change_edits(changes@, *root),
{
    let mut out: Vec<(RelPath, Vec<TextEdit>)> = Vec::new();
    let mut i: usize = 0;
    assert(file_edits(out@) =~= change_edits(changes@.take(0), *root));
    while i < changes.len()
        invariant
            i <= changes@.len(),
            file_edits(out@) == change_edits(changes@.take(i as int), *root),
        decreases changes.len() - i,
    {
        let ghost was = file_edits(out@);
        assert(changes@.take(i as int + 1).drop_last() =~= changes@.take(i as int));
        let change = &changes[i];
        let given = match change.get("textDocument") {
            Some(doc) => doc.text_at("uri"),
            None => None,
        };
        if let (Some(u), Some(items)) = (given, change.list_at("edits")) {
            if let Some(f) = file_edits_from(u.as_str(), items, root) {
                let ghost key = (f.0@, edit_keys(f.1@));
                out.push(f);
                assert(file_edits(out@) =~= was.push(key));
            }
        }
        i = i + 1;
    }
    assert(changes@.take(changes@.len() as int) =~= changes@);
    out
}

fn edits_from_table(fields: &Vec<(String, Json)>, root: &RepoRoot) -> (out: Vec<
    (RelPath, Vec<TextEdit>),
>)
    ensures
        file_edits(out@) == table_edits(fields@, *root),
{
    let mut out: Vec<(RelPath, Vec<TextEdit>)> = Vec::new();
    let mut i: usize = 0;
    assert(file_edits(out@) =~= table_edits(fields@.take(0), *root));
    while i < fields.len()
        invariant
            i <= fields@.len(),
            file_edits(out@) == table_edits(fields@.take(i as int), *root),
        decreases fields.len() - i,
    {
        let ghost was = file_edits(out@);
        assert(fields@.take(i as int + 1).drop_last() =~= fields@.take(i as int));
        if let Json::List(items) = &fields[i].1 {
            if let Some(f) = file_edits_from(fields[i].0.as_str(), items, root) {
                let ghost key = (f.0@, edit_keys(f.1@));
                out.push(f);
                assert(file_edits(out@) =~= was.push(key));
            }
        }
        i = i + 1;
    }
    assert(fields@.take(fields@.len() as int) =~= fields@);
    out
}

/// The edits of a reply, grouped by file.
pub fn workspace_edit_from_value(value: &Json, root: &RepoRoot) -> (r: WorkspaceEdit)
    ensures
        file_edits(r.edits@) == reply_edits(*value, *root),
{
    if let Some(changes) = value.list_at("documentChanges") {
        if changes.len() > 0 {
            return WorkspaceEdit { edits: edits_from_changes(changes, root) };
        }
    }
    if let Some(Json::Table(fields)) = value.get("changes") {
        return WorkspaceEdit { edits: edits_from_table(fields, root) };
    }
    let none: Vec<(RelPath, Vec<TextEdit>)> = Vec::new();
    assert(file_edits(none@) =~= Seq::empty());
    WorkspaceEdit { edits: none }
}

// -------------------------------------------------------------------- laws

/// What one byte is written as in a URI.
pub(crate) open spec fn byte_shown(b: u8) -> Seq<char> {
    if plain_byte(b) {
        seq![b as char]
    } else {
        seq!['%', hex_digit(b / 16), hex_digit(b % 16)]
    }
}

pub(crate) proof fn lemma_escaped_front(bytes: Seq<u8>)
    requires
        bytes.len() > 0,
    ensures
        escaped(bytes) == byte_shown(bytes[0]) + escaped(bytes.drop_first()),
    decreases bytes.len(),
{
    reveal_with_fuel(escaped, 2);
    if bytes.len() == 1 {
        assert(bytes.drop_last() =~= Seq::<u8>::empty());
        assert(bytes.drop_first() =~= Seq::<u8>::empty());
        assert(escaped(bytes) =~= byte_shown(bytes[0]) + escaped(bytes.drop_first()));
    } else {
        lemma_escaped_front(bytes.drop_last());
        assert(bytes.drop_last().drop_first() =~= bytes.drop_first().drop_last());
        assert(escaped(bytes) =~= escaped(bytes.drop_last()) + byte_shown(bytes.last()));
        assert(escaped(bytes.drop_first()) =~= escaped(bytes.drop_first().drop_last())
            + byte_shown(bytes.last()));
        assert(escaped(bytes) =~= byte_shown(bytes[0]) + escaped(bytes.drop_first()));
    }
}

pub(crate) proof fn lemma_encode_ascii(c: char, rest: Seq<char>)
    requires
        (c as u32) < 128,
    ensures
        vstd::utf8::encode_utf8(seq![c] + rest) == seq![c as u8] + vstd::utf8::encode_utf8(rest),
{
    let whole = seq![c] + rest;
    let u = c as u32;
    assert((u & 0x7f) as u8 == u as u8) by (bit_vector)
        requires
            u < 128,
    ;
    assert(whole.drop_first() =~= rest);
    assert(vstd::utf8::encode_scalar(u) =~= seq![u as u8]);
}

proof fn lemma_escapes_undone(bytes: Seq<u8>)
    ensures
        loosely_unescaped(vstd::utf8::encode_utf8(escaped(bytes))) == bytes,
    decreases bytes.len(),
{
    if bytes.len() == 0 {
        assert(escaped(bytes) =~= Seq::<char>::empty());
        assert(vstd::utf8::encode_utf8(escaped(bytes)) =~= Seq::<u8>::empty());
        assert(bytes =~= Seq::<u8>::empty());
    } else {
        let b = bytes[0];
        let rest = bytes.drop_first();
        lemma_escaped_front(bytes);
        lemma_escapes_undone(rest);
        let tail = vstd::utf8::encode_utf8(escaped(rest));
        if plain_byte(b) {
            lemma_encode_ascii(b as char, escaped(rest));
            let whole = seq![b] + tail;
            assert(whole.drop_first() =~= tail);
            assert(loosely_unescaped(whole) =~= seq![b] + rest);
        } else {
            let h = hex_digit(b / 16);
            let l = hex_digit(b % 16);
            let two = seq![l] + escaped(rest);
            let three = seq![h] + two;
            assert(byte_shown(b) + escaped(rest) =~= seq!['%'] + three);
            lemma_encode_ascii(l, escaped(rest));
            lemma_encode_ascii(h, two);
            lemma_encode_ascii('%', three);
            let whole = seq![37u8] + (seq![h as u8] + (seq![l as u8] + tail));
            assert(vstd::utf8::encode_utf8(escaped(bytes)) =~= whole);
            assert(whole[1] == h as u8 && whole[2] == l as u8);
            assert(uri::hex_value(h as u8) == Some((b / 16) as u8));
            assert(uri::hex_value(l as u8) == Some((b % 16) as u8));
            assert(whole.skip(3) =~= tail);
            assert(loosely_unescaped(whole) =~= seq![b] + rest);
        }
        assert(seq![b] + rest =~= bytes);
    }
}

/// The file URI of a path stands for the path: what a server is told of a file
/// and sends back unchanged is taken for the same path. This goes for absolute
/// paths without backslashes, where Windows does not put a slash before a drive.
pub proof fn law_file_uris_round_trip(path: Seq<char>, cwd: Seq<char>)
    requires
        paths::is_absolute(path),
        !path.contains('\\'),
    ensures
        uri_bytes(file_uri_of(path, cwd, false)) == vstd::utf8::encode_utf8(path),
        vstd::utf8::valid_utf8(uri_bytes(file_uri_of(path, cwd, false))),
        vstd::utf8::decode_utf8(uri_bytes(file_uri_of(path, cwd, false))) == path,
{
    broadcast use {vstd::utf8::encode_utf8_valid_utf8, vstd::utf8::encode_utf8_decode_utf8};

    reveal_strlit("file://");
    lemma_forward_already(path);
    let shown = escaped(vstd::utf8::encode_utf8(path));
    let whole = "file://"@ + shown;
    assert(whole.subrange(0, 7) =~= "file://"@);
    assert(whole.skip(7) =~= shown);
    lemma_escapes_undone(vstd::utf8::encode_utf8(path));
}

pub(crate) proof fn lemma_forward_already(path: Seq<char>)
    requires
        !path.contains('\\'),
    ensures
        paths::forward(path) == path,
{
    assert forall|i: int| 0 <= i < path.len() implies paths::forward(path)[i] == path[i] by {
        assert(path.contains(path[i]));
    }
    assert(paths::forward(path) =~= path);
}

/// The same on Windows: the file URI of a path on a drive stands for the path
/// behind a slash.
pub proof fn law_drive_uris_round_trip(path: Seq<char>, cwd: Seq<char>)
    requires
        paths::has_drive(path),
        paths::is_absolute(path.skip(2)),
        !path.contains('\\'),
    ensures
        uri_bytes(file_uri_of(path, cwd, true)) == vstd::utf8::encode_utf8(seq!['/'] + path),
        vstd::utf8::decode_utf8(uri_bytes(file_uri_of(path, cwd, true))) == seq!['/'] + path,
        uri::without_drive_slash(seq!['/'] + path, true) == path,
{
    broadcast use {vstd::utf8::encode_utf8_valid_utf8, vstd::utf8::encode_utf8_decode_utf8};

    reveal_strlit("file://");
    reveal_strlit("file:///");
    lemma_forward_already(path);
    let given = seq!['/'] + path;
    let bytes = vstd::utf8::encode_utf8(path);
    lemma_encode_ascii('/', path);
    assert(vstd::utf8::encode_utf8(given) == seq![47u8] + bytes);
    let shown = escaped(bytes);
    let whole = "file:///"@ + shown;
    assert(paths::is_full(path, true));
    assert(file_uri_of(path, cwd, true) == whole);
    assert(whole.subrange(0, 7) =~= "file://"@);
    assert(whole.skip(7) =~= seq!['/'] + shown);
    lemma_escapes_undone(bytes);
    lemma_encode_ascii('/', shown);
    let tail = vstd::utf8::encode_utf8(shown);
    assert((seq![47u8] + tail).drop_first() =~= tail);
    assert(loosely_unescaped(seq![47u8] + tail) =~= seq![47u8] + bytes);
    assert(given.skip(1) =~= path);
}

/// The URI of a file below the root leads back to the path of the file as it is
/// written, if the path starts and ends with a name and the file system knows
/// neither it nor the root by another name.
pub proof fn law_own_files_come_back(rel: Seq<char>, root: RepoRoot, cwd: Seq<char>)
    requires
        !root.windows,
        paths::is_absolute(root.text@),
        root.text@.last() != '/',
        !root.text@.contains('\\'),
        !rel.contains('\\'),
        !paths::starts_idly(rel),
        !paths::ends_idly(rel),
        root.canonical is None,
        text::entry(root.resolved@, paths::below(root.text@, rel)) is None,
    ensures
        rel_of_decoded(
            vstd::utf8::decode_utf8(
                uri_bytes(file_uri_of(paths::below(root.text@, rel), cwd, false)),
            ),
            root,
        ) == Some(rel),
{
    let base = root.text@;
    let path = paths::below(base, rel);
    assert(path == base.push('/') + rel);
    assert forall|i: int| 0 <= i < path.len() implies path[i] != '\\' by {
        if i < base.len() {
            assert(base.contains(base[i]));
        } else if i > base.len() {
            assert(rel.contains(rel[i - base.len() - 1]));
        }
    }
    law_file_uris_round_trip(path, cwd);
    paths::lemma_parts_join(base, rel);
    paths::lemma_after_names(base, rel);
    assert(paths::behind_drive(path, false) =~= path);
    assert(paths::behind_drive(base, false) =~= base);
    assert(paths::drive_part(path, false) =~= paths::drive_part(base, false));
    let stem = paths::parts_of(base);
    assert(stem.is_prefix_of(paths::parts_of(path))) by {
        assert(paths::parts_of(path).subrange(0, stem.len() as int) =~= stem);
    }
}

} // verus!
