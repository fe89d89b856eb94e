//! References, definitions and hover texts, asked of a language server.
//!
//! A query goes in steps. Each function here takes what has come back so far
//! and says what to ask next, or gives the answer. The caller reads files, asks
//! the server and looks paths up.

use super::json;
use super::json::Json;
use super::uri;
use super::uri::RepoRoot;
use super::{Location, LspError, Position, Precise, Range};
use crate::order;
use crate::paths;
use crate::text;
use crate::types;
use crate::types::{Confidence, Language, RelPath};
use vstd::prelude::*;
use vstd::string::*;

verus! {

/// What a query is about.
///
/// By a name, it is about the first place in the file where the name stands as
/// a whole word, or about the one definition that this place leads to.
#[derive(Clone, Copy, Debug, PartialEq, Eq)]
pub enum SymbolAt<'a> {
    Position(Position),
    Name(&'a str),
}

/// What a query does next.
#[derive(Debug)]
pub enum Ask {
    /// The answer.
    Answer(Precise<Vec<Location>>),
    /// Read the file.
    Source,
    /// Ask for the definitions at this place of the file.
    Definition(Position),
    /// Ask for the references to what is at this place.
    References(RelPath, Position),
}

/// What a query for a hover text does next.
#[derive(Debug)]
pub enum AskHover {
    /// The answer.
    Answer(Precise<Option<String>>),
    /// Read the file.
    Source,
    /// Ask for the definitions at this place of the file.
    Definition(Position),
    /// Ask for the hover text at this place.
    Hover(RelPath, Position),
}

/// An answer whose value is empty because it could not be found out.
pub open spec fn is_unknown<T>(r: Precise<Vec<T>>, note: Seq<char>) -> bool {
    &&& r.value@.len() == 0
    &&& r.confidence == Confidence::Unknown
    &&& r.note matches Some(n)
    &&& n@ == note
}

/// A hover answer that could not be found out.
pub open spec fn is_unknown_hover(r: Precise<Option<String>>, note: Seq<char>) -> bool {
    &&& r.value is None
    &&& r.confidence == Confidence::Unknown
    &&& r.note matches Some(n)
    &&& n@ == note
}

// ---------------------------------------------------------------- labels

/// The server that a language is usually served by.
pub open spec fn label_of(language: Option<Language>) -> Seq<char> {
    match language {
        Some(Language::Go) => "gopls"@,
        Some(Language::Rust) => "rust-analyzer"@,
        Some(Language::Python) => "pyright"@,
        Some(Language::Java) => "jdtls"@,
        Some(Language::TypeScript) | Some(Language::Tsx) | Some(Language::JavaScript) =>
        "typescript-language-server"@,
        _ => "language server"@,
    }
}

/// The server that a language is usually served by.
pub fn server_label(language: Option<Language>) -> (r: &'static str)
    ensures
        r@ == label_of(language),
{
    match language {
        Some(Language::Go) => "gopls",
        Some(Language::Rust) => "rust-analyzer",
        Some(Language::Python) => "pyright",
        Some(Language::Java) => "jdtls",
        Some(Language::TypeScript) | Some(Language::Tsx) | Some(Language::JavaScript) =>
        "typescript-language-server",
        _ => "language server",
    }
}

fn no_locations(note: String) -> (r: Precise<Vec<Location>>)
    ensures
        is_unknown(r, note@),
{
    let none: Vec<Location> = Vec::new();
    Precise::unknown(none, note)
}

/// The note of a query that no server answers.
pub open spec fn not_installed(path: Seq<char>, what: Seq<char>, hint: Seq<char>) -> Seq<char> {
    label_of(types::language_of_path(path)) + " is not installed; cannot provide precise "@ + what
        + ". "@ + hint
}

/// The note of a query that a server failed to answer.
pub open spec fn failed_note(error: Seq<char>, what: Seq<char>, hint: Seq<char>) -> Seq<char> {
    error + "; cannot provide precise "@ + what + ". "@ + hint
}

/// What to do without references or definitions.
pub open spec fn search_hint() -> Seq<char> {
    "search_code can fall back to a text search but will have false positives"@
}

/// What to do without a hover text.
pub open spec fn anchor_hint() -> Seq<char> {
    "callers can fall back to a plain symbol-name anchor"@
}

fn not_installed_note(path: &RelPath, what: &str, hint: &str) -> (r: String)
    ensures
        r@ == not_installed(path@, what@, hint@),
{
    String::from_str(server_label(Language::from_path(path))).concat(
        " is not installed; cannot provide precise ",
    ).concat(what).concat(". ").concat(hint)
}

fn failure_note(err: &LspError, what: &str, hint: &str) -> (r: String)
    ensures
        r@ == failed_note(super::error_text(*err), what@, hint@),
{
    err.message().concat("; cannot provide precise ").concat(what).concat(". ").concat(hint)
}

/// The answer of a server that failed to find references.
pub fn degrade(err: &LspError) -> (r: Precise<Vec<Location>>)
    ensures
        is_unknown(r, failed_note(super::error_text(*err), "references"@, search_hint())),
{
    no_locations(
        failure_note(
            err,
            "references",
            "search_code can fall back to a text search but will have false positives",
        ),
    )
}

/// The answer of a server that failed to find definitions.
pub fn degrade_definition(err: &LspError) -> (r: Precise<Vec<Location>>)
    ensures
        is_unknown(r, failed_note(super::error_text(*err), "definitions"@, search_hint())),
{
    no_locations(
        failure_note(
            err,
            "definitions",
            "search_code can fall back to a text search but will have false positives",
        ),
    )
}

/// The answer of a server that failed to give a hover text.
pub fn degrade_hover(err: &LspError) -> (r: Precise<Option<String>>)
    ensures
        is_unknown_hover(
            r,
            failed_note(super::error_text(*err), "hover information"@, anchor_hint()),
        ),
{
    Precise::unknown(
        None,
        failure_note(
            err,
            "hover information",
            "callers can fall back to a plain symbol-name anchor",
        ),
    )
}

/// The answer for references without a server.
pub fn unavailable_without_server(path: &RelPath) -> (r: Precise<Vec<Location>>)
    ensures
        is_unknown(r, not_installed(path@, "references"@, search_hint())),
{
    no_locations(
        not_installed_note(
            path,
            "references",
            "search_code can fall back to a text search but will have false positives",
        ),
    )
}

/// The answer for definitions without a server.
pub fn unavailable_definition_without_server(path: &RelPath) -> (r: Precise<Vec<Location>>)
    ensures
        is_unknown(r, not_installed(path@, "definitions"@, search_hint())),
{
    no_locations(
        not_installed_note(
            path,
            "definitions",
            "search_code can fall back to a text search but will have false positives",
        ),
    )
}

/// The answer for a hover text without a server.
pub fn unavailable_hover_without_server(path: &RelPath) -> (r: Precise<Option<String>>)
    ensures
        is_unknown_hover(r, not_installed(path@, "hover information"@, anchor_hint())),
{
    Precise::unknown(
        None,
        not_installed_note(
            path,
            "hover information",
            "callers can fall back to a plain symbol-name anchor",
        ),
    )
}

// ----------------------------------------------------------- identifiers

/// A character of a word in source text.
pub open spec fn is_word_char(c: char) -> bool {
    text::char_alphanumeric(c) || c == '_'
}

/// Whether a character belongs to a word in source text.
pub fn is_ident_char(ch: char) -> (r: bool)
    ensures
        r == is_word_char(ch),
{
    ch.is_alphanumeric() || ch == '_'
}

/// How many UTF-16 units a text takes.
pub open spec fn utf16_len(s: Seq<char>) -> nat
    decreases s.len(),
{
    if s.len() == 0 {
        0
    } else {
        utf16_len(s.drop_last()) + (if s.last() >= '\u{10000}' {
            2nat
        } else {
            1nat
        })
    }
}

/// The characters `a .. b` do not touch word characters on either side.
pub open spec fn stands_alone(word: Seq<bool>, a: int, b: int) -> bool {
    (a == 0 || !word[a - 1]) && (b == word.len() || !word[b])
}

/// The first place at or after `from` where `needle` stands in `hay`.
pub open spec fn first_text(hay: Seq<char>, needle: Seq<char>, from: nat) -> Option<nat>
    decreases hay.len() - from,
{
    if from + needle.len() > hay.len() {
        None
    } else if text::stands_at(hay, needle, from as int) {
        Some(from)
    } else if from >= hay.len() {
        None
    } else {
        first_text(hay, needle, from + 1)
    }
}

pub(crate) proof fn lemma_first_text(hay: Seq<char>, needle: Seq<char>, from: nat)
    ensures
        match first_text(hay, needle, from) {
            Some(i) => from <= i && text::stands_at(hay, needle, i as int) && forall|k: int|
                from <= k < i ==> !text::stands_at(hay, needle, k),
            None => forall|k: int| from <= k ==> !text::stands_at(hay, needle, k),
        },
    decreases hay.len() - from,
{
    if from + needle.len() <= hay.len() && !text::stands_at(hay, needle, from as int) && from
        < hay.len() {
        lemma_first_text(hay, needle, from + 1);
    }
}

/// Where `name` stands in `line` as a whole word, counting occurrences from
/// `from` on that do not overlap. `word` says which characters belong to words.
pub open spec fn whole_word(
    line: Seq<char>,
    word: Seq<bool>,
    name: Seq<char>,
    from: nat,
) -> Option<nat>
    decreases line.len() - from,
{
    match first_text(line, name, from) {
        None => None,
        Some(i) => if stands_alone(word, i as int, (i + name.len()) as int) {
            Some(i)
        } else if name.len() == 0 || i < from || i + name.len() > line.len() {
            None
        } else {
            whole_word(line, word, name, i + name.len())
        },
    }
}

/// Which characters of a text belong to words.
pub open spec fn word_flags(s: Seq<char>) -> Seq<bool> {
    s.map_values(|c: char| is_word_char(c))
}

/// Where `name` stands in `line` as a whole word.
pub fn word_in_line(line: &[char], word: &[bool], name: &[char]) -> (r: Option<usize>)
    requires
        name@.len() > 0,
        word@.len() == line@.len(),
    ensures
        match r {
            Some(i) => whole_word(line@, word@, name@, 0) == Some(i as nat) && i <= line@.len(),
            None => whole_word(line@, word@, name@, 0) is None,
        },
{
    let mut from: usize = 0;
    loop
        invariant
            from <= line@.len(),
            name@.len() > 0,
            word@.len() == line@.len(),
            whole_word(line@, word@, name@, 0) == whole_word(line@, word@, name@, from as nat),
        decreases line@.len() - from,
    {
        proof {
            lemma_first_text(line@, name@, from as nat);
        }
        match text::find_from(line, name, from) {
            None => {
                proof {
                    if let Some(i) = first_text(line@, name@, from as nat) {
                        assert(!text::stands_at(line@, name@, i as int));
                    }
                }
                return None;
            },
            Some(i) => {
                proof {
                    match first_text(line@, name@, from as nat) {
                        Some(k) => {
                            if k < i {
                                assert(!text::stands_at(line@, name@, k as int));
                            }
                            if i < k {
                                assert(!text::stands_at(line@, name@, i as int));
                            }
                        },
                        None => {
                            assert(!text::stands_at(line@, name@, i as int));
                        },
                    }
                    assert(first_text(line@, name@, from as nat) == Some(i as nat));
                }
                let total: usize = line.len();
                let end: usize = i + name.len();
                let before_ok = i == 0 || !word[i - 1];
                let after_ok = end == total || !word[end];
                if before_ok && after_ok {
                    return Some(i);
                }
                from = end;
            },
        }
    }
}

fn flags_of(line: &[char]) -> (out: Vec<bool>)
    ensures
        out@ == word_flags(line@),
{
    let mut out: Vec<bool> = Vec::new();
    let mut i: usize = 0;
    while i < line.len()
        invariant
            i <= line@.len(),
            out@ == word_flags(line@.take(i as int)),
        decreases line.len() - i,
    {
        out.push(is_ident_char(line[i]));
        assert(out@ =~= word_flags(line@.take(i as int + 1)));
        i = i + 1;
    }
    assert(line@.take(line@.len() as int) =~= line@);
    out
}

/// The UTF-16 column at which `name` stands in `line` as a whole word.
pub open spec fn column_of(line: Seq<char>, name: Seq<char>) -> Option<u32> {
    match whole_word(line, word_flags(line), name, 0) {
        Some(i) => Some(utf16_len(line.take(i as int)) as u32),
        None => None,
    }
}

/// The UTF-16 column at which `name` stands in `line` as a whole word.
pub fn identifier_column(line: &[char], name: &[char]) -> (r: Option<u32>)
    requires
        name@.len() > 0,
    ensures
        r == column_of(line@, name@),
{
    let flags = flags_of(line);
    match word_in_line(line, &flags, name) {
        None => None,
        Some(at) => {
            let mut units: u128 = 0;
            let mut i: usize = 0;
            assert(line@.take(0) =~= Seq::<char>::empty());
            while i < at
                invariant
                    i <= at <= line@.len(),
                    units == utf16_len(line@.take(i as int)),
                    units <= 2 * i,
                decreases at - i,
            {
                assert(line@.take(i as int + 1).drop_last() =~= line@.take(i as int));
                if line[i] >= '\u{10000}' {
                    units = units + 2;
                } else {
                    units = units + 1;
                }
                i = i + 1;
            }
            Some(units as u32)
        },
    }
}

/// The lines of a source: what stands between line feeds, without a carriage
/// return at its end.
pub open spec fn source_lines(source: Seq<char>) -> Seq<Seq<char>> {
    text::pieces(source, '\n').map_values(|l: Seq<char>| text::without_return(l))
}

/// The first place, at or after line `from`, where `name` stands as a word.
pub open spec fn place_from(lines: Seq<Seq<char>>, name: Seq<char>, from: nat) -> Option<Position>
    decreases lines.len() - from,
{
    if from >= lines.len() {
        None
    } else {
        match column_of(lines[from as int], name) {
            Some(character) => Some(Position { line: from as u32, character }),
            None => place_from(lines, name, from + 1),
        }
    }
}

/// The first place where `name` stands in a source as a whole word.
pub open spec fn first_place(source: Seq<char>, name: Seq<char>) -> Option<Position> {
    if name.len() == 0 {
        None
    } else {
        place_from(source_lines(source), name, 0)
    }
}

/// The first place where `name` stands in a source as a whole word.
pub fn first_identifier_position(source: &str, name: &str) -> (r: Option<Position>)
    ensures
        r == first_place(source@, name@),
{
    let wanted = text::chars_of(name);
    if wanted.len() == 0 {
        return None;
    }
    let parts = text::split_on(&text::chars_of(source), '\n');
    let ghost given = text::rows(parts@);
    let ghost lines = source_lines(source@);
    assert(lines.len() == parts@.len());
    let mut i: usize = 0;
    while i < parts.len()
        invariant
            i <= parts@.len(),
            wanted@ == name@,
            name@.len() > 0,
            given == text::rows(parts@),
            given == text::pieces(source@, '\n'),
            lines == source_lines(source@),
            lines.len() == parts@.len(),
            first_place(source@, name@) == place_from(lines, name@, i as nat),
        decreases parts.len() - i,
    {
        let part = &parts[i];
        let n: usize = part.len();
        assert(given[i as int] == part@);
        let line = if n > 0 && part[n - 1] == '\r' {
            text::slice_of(part, 0, n - 1)
        } else {
            text::slice_of(part, 0, n)
        };
        proof {
            assert(line@ =~= text::without_return(part@));
            assert(lines[i as int] == line@);
        }
        if let Some(character) = identifier_column(&line, &wanted) {
            return Some(Position { line: i as u32, character });
        }
        i = i + 1;
    }
    None
}

// ------------------------------------------------------------- locations

/// A location by its path and range.
pub open spec fn key_of(l: Location) -> (Seq<char>, Range) {
    (l.path@, l.range)
}

/// The keys of locations.
pub open spec fn keys_of(locs: Seq<Location>) -> Seq<(Seq<char>, Range)> {
    locs.map_values(|l: Location| key_of(l))
}

/// By line, then by character.
pub open spec fn position_le(a: Position, b: Position) -> bool {
    a.line < b.line || (a.line == b.line && a.character <= b.character)
}

/// By start, then by end.
pub open spec fn range_le(a: Range, b: Range) -> bool {
    if a.start != b.start {
        position_le(a.start, b.start)
    } else {
        position_le(a.end, b.end)
    }
}

/// Locations of the file `origin`, if there is one, first, then by path, then by
/// range.
pub open spec fn location_le(
    origin: Option<Seq<char>>,
    a: (Seq<char>, Range),
    b: (Seq<char>, Range),
) -> bool {
    if (Some(a.0) == origin) != (Some(b.0) == origin) {
        Some(a.0) == origin
    } else if a.0 != b.0 {
        text::text_le(a.0, b.0)
    } else {
        range_le(a.1, b.1)
    }
}

spec fn location_order(origin: Option<Seq<char>>) -> spec_fn(Location, Location) -> bool {
    |a: Location, b: Location| location_le(origin, key_of(a), key_of(b))
}

proof fn lemma_location_le(
    origin: Option<Seq<char>>,
    a: (Seq<char>, Range),
    b: (Seq<char>, Range),
    c: (Seq<char>, Range),
)
    ensures
        location_le(origin, a, b) || location_le(origin, b, a),
        location_le(origin, a, b) && location_le(origin, b, c) ==> location_le(origin, a, c),
        location_le(origin, a, b) && location_le(origin, b, a) ==> a == b,
{
    text::lemma_text_le_total(a.0, b.0);
    if text::text_le(a.0, b.0) && text::text_le(b.0, a.0) {
        text::lemma_text_le_antisymmetric(a.0, b.0);
    }
    if text::text_le(a.0, b.0) && text::text_le(b.0, c.0) {
        text::lemma_text_le_transitive(a.0, b.0, c.0);
        if a.0 == c.0 {
            text::lemma_text_le_antisymmetric(a.0, b.0);
        }
    }
}

fn position_at_most(a: Position, b: Position) -> (r: bool)
    ensures
        r == position_le(a, b),
{
    a.line < b.line || (a.line == b.line && a.character <= b.character)
}

fn same_position(a: Position, b: Position) -> (r: bool)
    ensures
        r == (a == b),
{
    a.line == b.line && a.character == b.character
}

/// Whether `a` may stand before `b`.
pub fn range_at_most(a: Range, b: Range) -> (r: bool)
    ensures
        r == range_le(a, b),
{
    if !same_position(a.start, b.start) {
        position_at_most(a.start, b.start)
    } else {
        position_at_most(a.end, b.end)
    }
}

pub fn same_range(a: Range, b: Range) -> (r: bool)
    ensures
        r == (a == b),
{
    same_position(a.start, b.start) && same_position(a.end, b.end)
}

/// `out` holds the locations of `given`, each once, those of `origin` first.
pub open spec fn are_sorted_locations(
    out: Seq<(Seq<char>, Range)>,
    given: Seq<(Seq<char>, Range)>,
    origin: Option<Seq<char>>,
) -> bool {
    &&& forall|i: int, j: int|
        0 <= i < j < out.len() ==> location_le(origin, #[trigger] out[i], #[trigger] out[j])
            && out[i] != out[j]
    &&& forall|x: (Seq<char>, Range)| #[trigger] out.contains(x) <==> given.contains(x)
}

/// The path that locations come first of, if there is one.
pub open spec fn origin_text(origin: Option<&RelPath>) -> Option<Seq<char>> {
    match origin {
        Some(p) => Some(p@),
        None => None,
    }
}

fn is_own(path: &RelPath, origin: Option<&RelPath>) -> (r: bool)
    ensures
        r == (Some(path@) == origin_text(origin)),
{
    match origin {
        Some(p) => text::same(path.as_str(), p.as_str()),
        None => false,
    }
}

/// Sorts locations, those of `origin` first, and drops repetitions.
pub fn sort_locations(locs: Vec<Location>, origin: Option<&RelPath>) -> (out: Vec<Location>)
    ensures
        are_sorted_locations(keys_of(out@), keys_of(locs@), origin_text(origin)),
{
    let ghost given = locs@;
    let ghost le = location_order(origin_text(origin));
    proof {
        assert forall|a: Location, b: Location| #[trigger] le(a, b) || le(b, a) by {
            lemma_location_le(origin_text(origin), key_of(a), key_of(b), key_of(b));
        }
        assert forall|a: Location, b: Location, c: Location| #[trigger]
            le(a, b) && #[trigger] le(b, c) implies le(a, c) by {
            lemma_location_le(origin_text(origin), key_of(a), key_of(b), key_of(c));
        }
    }
    let f = |a: &Location, b: &Location| -> (r: bool)
        ensures
            r == location_order(origin_text(origin))(*a, *b),
        {
            let a_own = is_own(&a.path, origin);
            let b_own = is_own(&b.path, origin);
            if a_own != b_own {
                return a_own;
            }
            match text::rank(a.path.as_str(), b.path.as_str()) {
                text::Rank::Before => true,
                text::Rank::After => false,
                text::Rank::Same => range_at_most(a.range, b.range),
            }
        };
    let sorted = order::sort_by(locs, &f, Ghost(le));
    proof {
        order::lemma_arranged(given, le);
    }
    let mut out: Vec<Location> = Vec::new();
    let mut i: usize = 0;
    assert(keys_of(sorted@.take(0)) =~= keys_of(out@));
    while i < sorted.len()
        invariant
            i <= sorted@.len(),
            le == location_order(origin_text(origin)),
            order::is_sorted(sorted@, le),
            out@.len() > 0 <==> i > 0,
            out@.len() > 0 ==> key_of(out@.last()) == key_of(sorted@[i - 1]),
            are_sorted_locations(keys_of(out@), keys_of(sorted@.take(i as int)), origin_text(origin)),
        decreases sorted.len() - i,
    {
        let ghost was = keys_of(out@);
        let ghost head = keys_of(sorted@.take(i as int));
        let ghost more = keys_of(sorted@.take(i as int + 1));
        let ghost k = key_of(sorted@[i as int]);
        let n: usize = out.len();
        let repeated = n > 0 && text::same(out[n - 1].path.as_str(), sorted[i].path.as_str())
            && same_range(out[n - 1].range, sorted[i].range);
        if !repeated {
            out.push(sorted[i].clone());
        }
        proof {
            let now = keys_of(out@);
            assert(more =~= head.push(k));
            if n > 0 {
                assert(was[n - 1] == key_of(sorted@[i - 1]));
                assert(le(sorted@[i - 1], sorted@[i as int]));
            }
            if repeated {
                assert(now =~= was);
                assert(was[n - 1] == k);
            } else {
                assert(now =~= was.push(k));
                assert forall|a: int, b: int| 0 <= a < b < now.len() implies location_le(
                    origin_text(origin),
                    #[trigger] now[a],
                    #[trigger] now[b],
                ) && now[a] != now[b] by {
                    assert(now[a] == was[a]);
                    if b < was.len() {
                        assert(now[b] == was[b]);
                    } else {
                        let last = was[n - 1];
                        assert(location_le(origin_text(origin), last, k) && last != k);
                        if a < n - 1 {
                            assert(location_le(origin_text(origin), was[a], was[n - 1]));
                            lemma_location_le(origin_text(origin), was[a], last, k);
                            lemma_location_le(origin_text(origin), last, k, k);
                        }
                    }
                }
            }
            assert forall|x: (Seq<char>, Range)| #[trigger] now.contains(x) <==> more.contains(x) by {
                assert(was.contains(x) <==> head.contains(x));
                if was.contains(x) {
                    let m = choose|m: int| 0 <= m < was.len() && was[m] == x;
                    assert(now[m] == x);
                }
                if head.contains(x) {
                    let m = choose|m: int| 0 <= m < head.len() && head[m] == x;
                    assert(more[m] == x);
                }
                if x == k {
                    assert(now[now.len() - 1] == x);
                    assert(more[head.len() as int] == x);
                }
                if now.contains(x) {
                    let m = choose|m: int| 0 <= m < now.len() && now[m] == x;
                    if m < was.len() {
                        assert(was[m] == x);
                    }
                }
                if more.contains(x) {
                    let m = choose|m: int| 0 <= m < more.len() && more[m] == x;
                    if m < head.len() {
                        assert(head[m] == x);
                    }
                }
            }
        }
        i = i + 1;
    }
    proof {
        assert(sorted@.take(sorted@.len() as int) =~= sorted@);
        let x = keys_of(sorted@);
        let y = keys_of(given);
        assert forall|k: (Seq<char>, Range)| #[trigger] keys_of(out@).contains(k) <==> y.contains(k) by {
            assert(keys_of(out@).contains(k) <==> x.contains(k));
            if x.contains(k) {
                let m = choose|m: int| 0 <= m < x.len() && x[m] == k;
                assert(sorted@.contains(sorted@[m]));
                let j = choose|j: int| 0 <= j < given.len() && given[j] == sorted@[m];
                assert(y[j] == k);
            }
            if y.contains(k) {
                let m = choose|m: int| 0 <= m < y.len() && y[m] == k;
                assert(given.contains(given[m]));
                assert(sorted@.contains(given[m]));
                let j = choose|j: int| 0 <= j < sorted@.len() && sorted@[j] == given[m];
                assert(x[j] == k);
            }
        }
    }
    out
}

/// The hits inside the repository, by their paths below its root.
pub open spec fn inside(hits: Seq<Location>, root: RepoRoot) -> Seq<(Seq<char>, Range)>
    decreases hits.len(),
{
    if hits.len() == 0 {
        Seq::empty()
    } else {
        let before = inside(hits.drop_last(), root);
        match uri::rel_from_server(hits.last().path@, root) {
            Some(rel) => before.push((rel, hits.last().range)),
            None => before,
        }
    }
}

/// How a path outside the repository is shown: as the system writes it.
pub open spec fn shown_path(raw: Seq<char>, windows: bool) -> Seq<char> {
    match uri::absolute_path(raw, windows) {
        Some(path) => if windows {
            paths::backward(path)
        } else {
            path
        },
        None => raw,
    }
}

/// The hits outside the repository, as they are shown.
pub open spec fn outside(hits: Seq<Location>, root: RepoRoot) -> Seq<Seq<char>>
    decreases hits.len(),
{
    if hits.len() == 0 {
        Seq::empty()
    } else {
        let before = outside(hits.drop_last(), root);
        match uri::rel_from_server(hits.last().path@, root) {
            Some(_) => before,
            None => before.push(shown_path(hits.last().path@, root.windows)),
        }
    }
}

/// Hits, parted into those inside and outside the repository.
#[derive(Debug)]
pub struct Classified {
    pub in_repo: Vec<Location>,
    pub external: Vec<String>,
}

/// How a path outside the repository is shown.
pub fn display_external(raw: &str, windows: bool) -> (out: String)
    ensures
        out@ == shown_path(raw@, windows),
{
    let cs = text::chars_of(raw);
    match uri::abs_path_from_lsp(&cs, windows) {
        Some(path) => {
            if windows {
                text::string_of(&paths::to_backward(&path))
            } else {
                text::string_of(&path)
            }
        },
        None => text::string_of(&cs),
    }
}

/// Parts hits into those inside and outside the repository.
pub fn classify_all(hits: &Vec<Location>, root: &RepoRoot) -> (out: Classified)
    ensures
        keys_of(out.in_repo@) == inside(hits@, *root),
        text::texts(out.external@) == outside(hits@, *root),
{
    let mut in_repo: Vec<Location> = Vec::new();
    let mut external: Vec<String> = Vec::new();
    let mut i: usize = 0;
    assert(keys_of(in_repo@) =~= inside(hits@.take(0), *root));
    assert(text::texts(external@) =~= outside(hits@.take(0), *root));
    while i < hits.len()
        invariant
            i <= hits@.len(),
            keys_of(in_repo@) == inside(hits@.take(i as int), *root),
            text::texts(external@) == outside(hits@.take(i as int), *root),
        decreases hits.len() - i,
    {
        let ghost had = keys_of(in_repo@);
        let ghost shown = text::texts(external@);
        let hit = &hits[i];
        assert(hits@.take(i as int + 1).drop_last() =~= hits@.take(i as int));
        match uri::lsp_path_to_rel(hit.path.as_str(), root) {
            Some(path) => {
                let ghost rel = path@;
                in_repo.push(Location { path, range: hit.range });
                assert(keys_of(in_repo@) =~= had.push((rel, hit.range)));
            },
            None => {
                let raw = display_external(hit.path.as_str(), root.windows);
                let ghost t = raw@;
                external.push(raw);
                assert(text::texts(external@) =~= shown.push(t));
            },
        }
        i = i + 1;
    }
    assert(hits@.take(hits@.len() as int) =~= hits@);
    Classified { in_repo, external }
}

// ----------------------------------------------------------------- notes

/// Texts joined by `sep`.
pub open spec fn joined_by(parts: Seq<Seq<char>>, sep: Seq<char>) -> Seq<char>
    decreases parts.len(),
{
    if parts.len() == 0 {
        Seq::empty()
    } else if parts.len() == 1 {
        parts[0]
    } else {
        joined_by(parts.drop_last(), sep) + sep + parts.last()
    }
}

/// The first `n` texts, joined by `sep`.
pub fn join_strings(parts: &Vec<String>, n: usize, sep: &str) -> (out: String)
    requires
        n <= parts@.len(),
    ensures
        out@ == joined_by(text::texts(parts@).take(n as int), sep@),
{
    let ghost given = text::texts(parts@);
    let mut out = String::new();
    let mut i: usize = 0;
    assert(out@ =~= joined_by(given.take(0), sep@));
    while i < n
        invariant
            i <= n <= parts@.len(),
            given == text::texts(parts@),
            out@ == joined_by(given.take(i as int), sep@),
        decreases n - i,
    {
        assert(given[i as int] == parts@[i as int]@);
        assert(given.take(i as int + 1).drop_last() =~= given.take(i as int));
        if i > 0 {
            out.append(sep);
        } else {
            assert(given.take(1) =~= seq![given[0]]);
            assert(given.take(0) =~= Seq::<Seq<char>>::empty());
        }
        out.append(parts[i].as_str());
        assert(out@ =~= joined_by(given.take(i as int + 1), sep@));
        i = i + 1;
    }
    out
}

/// Paths outside the repository: up to three, and how many there are.
pub open spec fn external_list(external: Seq<Seq<char>>) -> Seq<char> {
    if external.len() <= 3 {
        joined_by(external, ", "@)
    } else {
        joined_by(external.take(3), ", "@) + ", … ("@ + text::decimal(external.len()) + " total)"@
    }
}

/// Paths outside the repository: up to three, and how many there are.
pub fn format_external_list(external: &Vec<String>) -> (out: String)
    ensures
        out@ == external_list(text::texts(external@)),
{
    let n: usize = external.len();
    assert(text::texts(external@).take(n as int) =~= text::texts(external@));
    if n <= 3 {
        return join_strings(external, n, ", ");
    }
    let count = text::string_of(&text::to_decimal(n as u64));
    join_strings(external, 3, ", ").concat(", … (").concat(count.as_str()).concat(" total)")
}

/// The note on hits outside the repository.
pub open spec fn outside_note(inside: nat, external: Seq<Seq<char>>) -> Option<Seq<char>> {
    if external.len() == 0 {
        None
    } else if inside == 0 {
        Some(
            "all "@ + text::decimal(external.len())
                + " result(s) sit outside the repository (stdlib or dependencies) and were omitted: "@
                + external_list(external),
        )
    } else {
        Some(
            "omitted "@ + text::decimal(external.len())
                + " reference(s) outside the repository (stdlib or dependencies): "@
                + external_list(external),
        )
    }
}

/// The note on hits outside the repository.
pub fn external_note(inside: usize, external: &Vec<String>) -> (r: Option<String>)
    ensures
        match r {
            Some(s) => outside_note(inside as nat, text::texts(external@)) == Some(s@),
            None => outside_note(inside as nat, text::texts(external@)) is None,
        },
{
    assert(text::texts(external@).len() == external@.len());
    if external.len() == 0 {
        return None;
    }
    let shown = format_external_list(external);
    let count = text::string_of(&text::to_decimal(external.len() as u64));
    if inside == 0 {
        Some(
            String::from_str("all ").concat(count.as_str()).concat(
                " result(s) sit outside the repository (stdlib or dependencies) and were omitted: ",
            ).concat(shown.as_str()),
        )
    } else {
        Some(
            String::from_str("omitted ").concat(count.as_str()).concat(
                " reference(s) outside the repository (stdlib or dependencies): ",
            ).concat(shown.as_str()),
        )
    }
}

/// A note has this text.
pub open spec fn notes(note: Option<String>, t: Option<Seq<char>>) -> bool {
    match t {
        Some(s) => note matches Some(n) && n@ == s,
        None => note is None,
    }
}

/// The answer of a server that is ready: the hits inside the repository, each
/// once, those of the queried file first, and a note on the others.
pub open spec fn is_final(
    r: Precise<Vec<Location>>,
    hits: Seq<Location>,
    root: RepoRoot,
    origin: Seq<char>,
) -> bool {
    &&& are_sorted_locations(keys_of(r.value@), inside(hits, root), Some(origin))
    &&& r.confidence == Confidence::Exact
    &&& notes(r.note, outside_note(r.value@.len(), outside(hits, root)))
}

/// The answer of a server that is ready.
pub fn finalize_hits(hits: &Vec<Location>, root: &RepoRoot, origin: &RelPath) -> (r: Precise<
    Vec<Location>,
>)
    ensures
        is_final(r, hits@, *root, origin@),
{
    let classified = classify_all(hits, root);
    let in_repo = sort_locations(classified.in_repo, Some(origin));
    let note = external_note(in_repo.len(), &classified.external);
    Precise { value: in_repo, confidence: Confidence::Exact, note }
}

/// The note on an empty answer of a server that is still indexing.
pub open spec fn cold_note() -> Seq<char> {
    "语言服务器仍在建立索引，返回的空结果不可信。请在索引完成后重试。"@
}

/// `r` as the answer of a server that may be busy: an empty answer of a busy
/// server is not to be relied on.
pub open spec fn is_guarded<T>(
    out: Precise<Vec<T>>,
    r: Precise<Vec<T>>,
    busy: bool,
) -> bool {
    if r.value@.len() > 0 || !busy {
        out == r
    } else {
        is_unknown(
            out,
            match r.note {
                Some(n) => if n@.len() > 0 {
                    n@ + "; "@ + cold_note()
                } else {
                    cold_note()
                },
                None => cold_note(),
            },
        )
    }
}

/// Takes the certainty off an empty answer of a server that is still indexing.
pub fn guard_cold_index<T>(result: Precise<Vec<T>>, busy: bool) -> (out: Precise<Vec<T>>)
    ensures
        is_guarded(out, result, busy),
{
    if result.value.len() > 0 || !busy {
        return result;
    }
    let cold = "语言服务器仍在建立索引，返回的空结果不可信。请在索引完成后重试。";
    let note = match result.note {
        Some(existing) => {
            if existing.as_str().unicode_len() > 0 {
                existing.concat("; ").concat(cold)
            } else {
                String::from_str(cold)
            }
        },
        None => String::from_str(cold),
    };
    Precise::unknown(result.value, note)
}

/// Takes the certainty off an empty hover text of a server that is still
/// indexing.
pub fn guard_cold_hover(result: Precise<Option<String>>, busy: bool) -> (out: Precise<
    Option<String>,
>)
    ensures
        if result.value is Some || !busy {
            out == result
        } else {
            is_unknown_hover(out, cold_note())
        },
{
    if result.value.is_some() || !busy {
        return result;
    }
    Precise::unknown(
        None,
        String::from_str("语言服务器仍在建立索引，返回的空结果不可信。请在索引完成后重试。"),
    )
}

// ------------------------------------------------------------ references

/// The note of a query by a name that is empty.
pub open spec fn empty_name_note(what: Seq<char>) -> Seq<char> {
    "empty symbol name; cannot provide precise "@ + what
}

/// The note of a query by a name in a file that cannot be read.
pub open spec fn unreadable_note(
    path: Seq<char>,
    name: Seq<char>,
    why: Seq<char>,
    what: Seq<char>,
) -> Seq<char> {
    "could not read "@ + path + " to locate `"@ + name + "` ("@ + why
        + "); cannot provide precise "@ + what
}

/// The note of a query by a name that is not in the file.
pub open spec fn missing_note(path: Seq<char>, name: Seq<char>, what: Seq<char>) -> Seq<char> {
    "symbol `"@ + name + "` not found in "@ + path + "; cannot provide precise "@ + what
}

fn empty_name(what: &str) -> (r: String)
    ensures
        r@ == empty_name_note(what@),
{
    String::from_str("empty symbol name; cannot provide precise ").concat(what)
}

fn unreadable(path: &RelPath, name: &str, why: &str, what: &str) -> (r: String)
    ensures
        r@ == unreadable_note(path@, name@, why@, what@),
{
    String::from_str("could not read ").concat(path.as_str()).concat(" to locate `").concat(
        name,
    ).concat("` (").concat(why).concat("); cannot provide precise ").concat(what)
}

fn missing(path: &RelPath, name: &str, what: &str) -> (r: String)
    ensures
        r@ == missing_note(path@, name@, what@),
{
    String::from_str("symbol `").concat(name).concat("` not found in ").concat(
        path.as_str(),
    ).concat("; cannot provide precise ").concat(what)
}

/// Starts a query for every reference to a symbol, its declaration included.
pub fn find_references(has_server: bool, path: &RelPath, target: SymbolAt<'_>) -> (r: Ask)
    ensures
        if !has_server {
            r matches Ask::Answer(a) && is_unknown(
                a,
                not_installed(path@, "references"@, search_hint()),
            )
        } else {
            match target {
                SymbolAt::Position(position) => r matches Ask::References(p, at) && p@ == path@
                    && at == position,
                SymbolAt::Name(name) => if name@.len() == 0 {
                    r matches Ask::Answer(a) && is_unknown(a, empty_name_note("references"@))
                } else {
                    r is Source
                },
            }
        },
{
    if !has_server {
        return Ask::Answer(unavailable_without_server(path));
    }
    match target {
        SymbolAt::Position(position) => Ask::References(path.clone(), position),
        SymbolAt::Name(name) => {
            if name.is_empty() {
                Ask::Answer(no_locations(empty_name("references")))
            } else {
                Ask::Source
            }
        },
    }
}

/// Goes on with a query for references by name: `source` is the text of the
/// file, or why it could not be read.
pub fn resolve_named_site(path: &RelPath, name: &str, source: Result<&str, &str>) -> (r: Ask)
    ensures
        match source {
            Err(why) => r matches Ask::Answer(a) && is_unknown(
                a,
                unreadable_note(path@, name@, why@, "references"@),
            ),
            Ok(text) => match first_place(text@, name@) {
                Some(position) => r == Ask::Definition(position),
                None => r matches Ask::Answer(a) && is_unknown(
                    a,
                    missing_note(path@, name@, "references"@),
                ),
            },
        },
{
    match source {
        Err(why) => Ask::Answer(no_locations(unreadable(path, name, why, "references"))),
        Ok(text) => match first_identifier_position(text, name) {
            Some(position) => Ask::Definition(position),
            None => Ask::Answer(no_locations(missing(path, name, "references"))),
        },
    }
}

/// Goes on with a query for references by name: `reply` is what the server said
/// of the definitions at `position`. One definition inside the repository is
/// what the query is about; otherwise it is about the place that was found.
pub fn site_from_definition(
    path: &RelPath,
    position: Position,
    reply: &Result<Vec<Location>, LspError>,
    root: &RepoRoot,
) -> (r: Ask)
    ensures
        match reply {
            Err(err) => r matches Ask::Answer(a) && is_unknown(
                a,
                failed_note(super::error_text(*err), "references"@, search_hint()),
            ),
            Ok(defs) => r matches Ask::References(p, at) && (if inside(defs@, *root).len() == 1 {
                p@ == inside(defs@, *root)[0].0 && at == inside(defs@, *root)[0].1.start
            } else {
                p@ == path@ && at == position
            }),
        },
{
    match reply {
        Err(err) => Ask::Answer(degrade(err)),
        Ok(defs) => {
            let found = classify_all(defs, root).in_repo;
            assert(keys_of(found@).len() == found@.len());
            if found.len() == 1 {
                assert(keys_of(found@)[0] == key_of(found@[0]));
                Ask::References(found[0].path.clone(), found[0].range.start)
            } else {
                Ask::References(path.clone(), position)
            }
        },
    }
}

/// The answer that a server's hits give: the hits, or a note where they are
/// none and the server is still busy.
pub open spec fn is_hits_answer(
    r: Precise<Vec<Location>>,
    hits: Seq<Location>,
    busy: bool,
    root: RepoRoot,
    origin: Seq<char>,
) -> bool {
    if inside(hits, root).len() > 0 || !busy {
        is_final(r, hits, root, origin)
    } else {
        is_unknown(
            r,
            match outside_note(0, outside(hits, root)) {
                Some(n) => n + "; "@ + cold_note(),
                None => cold_note(),
            },
        )
    }
}

fn hits_answer(hits: &Vec<Location>, busy: bool, root: &RepoRoot, origin: &RelPath) -> (r: Precise<
    Vec<Location>,
>)
    ensures
        is_hits_answer(r, hits@, busy, *root, origin@),
{
    let done = finalize_hits(hits, root, origin);
    proof {
        let x = keys_of(done.value@);
        let y = inside(hits@, *root);
        assert(x.len() == done.value@.len());
        if x.len() > 0 {
            assert(x.contains(x[0]));
            assert(y.contains(x[0]));
        }
        if y.len() > 0 {
            assert(y.contains(y[0]));
            assert(x.contains(y[0]));
        }
        if outside_note(0, outside(hits@, *root)) is Some {
            reveal_strlit("all ");
            assert("all "@.len() > 0);
        }
    }
    guard_cold_index(done, busy)
}

/// `r` ends a query for `what`, where `reply` is what the server found.
pub open spec fn is_final_answer(
    r: Precise<Vec<Location>>,
    reply: Result<Vec<Location>, LspError>,
    what: Seq<char>,
    busy: bool,
    root: RepoRoot,
    origin: Seq<char>,
) -> bool {
    match reply {
        Err(err) => is_unknown(r, failed_note(super::error_text(err), what, search_hint())),
        Ok(hits) => is_hits_answer(r, hits@, busy, root, origin),
    }
}

/// Ends a query for references: `reply` is what the server found.
pub fn references_answer(
    reply: &Result<Vec<Location>, LspError>,
    busy: bool,
    root: &RepoRoot,
    origin: &RelPath,
) -> (r: Precise<Vec<Location>>)
    ensures
        is_final_answer(r, *reply, "references"@, busy, *root, origin@),
{
    match reply {
        Err(err) => degrade(err),
        Ok(hits) => hits_answer(hits, busy, root, origin),
    }
}

// ----------------------------------------------------------- definitions

/// Starts a query for the definitions of a symbol.
pub fn goto_definition(has_server: bool, path: &RelPath, target: SymbolAt<'_>) -> (r: Ask)
    ensures
        if !has_server {
            r matches Ask::Answer(a) && is_unknown(
                a,
                not_installed(path@, "definitions"@, search_hint()),
            )
        } else {
            match target {
                SymbolAt::Position(position) => r == Ask::Definition(position),
                SymbolAt::Name(name) => if name@.len() == 0 {
                    r matches Ask::Answer(a) && is_unknown(a, empty_name_note("definitions"@))
                } else {
                    r is Source
                },
            }
        },
{
    if !has_server {
        return Ask::Answer(unavailable_definition_without_server(path));
    }
    match target {
        SymbolAt::Position(position) => Ask::Definition(position),
        SymbolAt::Name(name) => {
            if name.is_empty() {
                Ask::Answer(no_locations(empty_name("definitions")))
            } else {
                Ask::Source
            }
        },
    }
}

/// Goes on with a query for definitions by name: `source` is the text of the
/// file, or why it could not be read.
pub fn resolve_definition_position(path: &RelPath, name: &str, source: Result<&str, &str>) -> (r:
    Ask)
    ensures
        match source {
            Err(why) => r matches Ask::Answer(a) && is_unknown(
                a,
                unreadable_note(path@, name@, why@, "definitions"@),
            ),
            Ok(text) => match first_place(text@, name@) {
                Some(position) => r == Ask::Definition(position),
                None => r matches Ask::Answer(a) && is_unknown(
                    a,
                    missing_note(path@, name@, "definitions"@),
                ),
            },
        },
{
    match source {
        Err(why) => Ask::Answer(no_locations(unreadable(path, name, why, "definitions"))),
        Ok(text) => match first_identifier_position(text, name) {
            Some(position) => Ask::Definition(position),
            None => Ask::Answer(no_locations(missing(path, name, "definitions"))),
        },
    }
}

/// Ends a query for definitions: `reply` is what the server found.
pub fn definition_answer(
    reply: &Result<Vec<Location>, LspError>,
    busy: bool,
    root: &RepoRoot,
    origin: &RelPath,
) -> (r: Precise<Vec<Location>>)
    ensures
        is_final_answer(r, *reply, "definitions"@, busy, *root, origin@),
{
    match reply {
        Err(err) => degrade_definition(err),
        Ok(hits) => hits_answer(hits, busy, root, origin),
    }
}

// ----------------------------------------------------------------- hover

/// The method that a hover text is asked for by.
pub const HOVER_METHOD: &'static str = "textDocument/hover";

/// `s` with every `pat` replaced by `with`, from left to right.
pub open spec fn replaced(s: Seq<char>, pat: Seq<char>, with: Seq<char>) -> Seq<char>
    decreases s.len(),
{
    if s.len() == 0 || pat.len() == 0 {
        s
    } else if text::stands_at(s, pat, 0) {
        with + replaced(s.skip(pat.len() as int), pat, with)
    } else {
        seq![s[0]] + replaced(s.drop_first(), pat, with)
    }
}

fn replace_all(s: &[char], pat: &[char], with: &[char]) -> (out: Vec<char>)
    requires
        pat@.len() > 0,
    ensures
        out@ == replaced(s@, pat@, with@),
{
    let n: usize = s.len();
    let mut out: Vec<char> = Vec::new();
    let mut i: usize = 0;
    assert(s@.skip(0) =~= s@);
    assert(out@ + replaced(s@, pat@, with@) =~= replaced(s@, pat@, with@));
    while i < n
        invariant
            i <= n,
            n == s@.len(),
            pat@.len() > 0,
            replaced(s@, pat@, with@) == out@ + replaced(s@.skip(i as int), pat@, with@),
        decreases n - i,
    {
        let ghost tail = s@.skip(i as int);
        let ghost was = out@;
        if text::stands_here(s, pat, i) {
            proof {
                assert(tail.subrange(0, pat@.len() as int) =~= s@.subrange(
                    i as int,
                    i + pat@.len(),
                ));
                assert(text::stands_at(tail, pat@, 0));
                assert(tail.skip(pat@.len() as int) =~= s@.skip(i + pat@.len()));
            }
            let mut copy = text::slice_of(with, 0, with.len());
            assert(copy@ =~= with@);
            out.append(&mut copy);
            i = i + pat.len();
            assert(out@ + replaced(s@.skip(i as int), pat@, with@) =~= was + (with@ + replaced(
                s@.skip(i as int),
                pat@,
                with@,
            )));
        } else {
            proof {
                if text::stands_at(tail, pat@, 0) {
                    assert(tail.subrange(0, pat@.len() as int) =~= s@.subrange(
                        i as int,
                        i + pat@.len(),
                    ));
                }
                assert(tail[0] == s@[i as int]);
                assert(tail.drop_first() =~= s@.skip(i + 1));
            }
            out.push(s[i]);
            i = i + 1;
            assert(out@ + replaced(s@.skip(i as int), pat@, with@) =~= was + (seq![tail[0]]
                + replaced(s@.skip(i as int), pat@, with@)));
        }
    }
    assert(s@.skip(n as int) =~= Seq::<char>::empty());
    assert(out@ + Seq::<char>::empty() =~= out@);
    out
}

/// `s` with every run of blanks made one blank.
pub open spec fn single_spaced(s: Seq<char>) -> Seq<char>
    decreases s.len(),
{
    if s.len() == 0 {
        s
    } else {
        let before = single_spaced(s.drop_last());
        if s.last() == ' ' && s.len() > 1 && s[s.len() - 2] == ' ' {
            before
        } else {
            before.push(s.last())
        }
    }
}

fn squeeze(s: &[char]) -> (out: Vec<char>)
    ensures
        out@ == single_spaced(s@),
{
    let mut out: Vec<char> = Vec::new();
    let mut i: usize = 0;
    assert(s@.take(0) =~= Seq::<char>::empty());
    while i < s.len()
        invariant
            i <= s@.len(),
            out@ == single_spaced(s@.take(i as int)),
        decreases s.len() - i,
    {
        assert(s@.take(i as int + 1).drop_last() =~= s@.take(i as int));
        if !(s[i] == ' ' && i > 0 && s[i - 1] == ' ') {
            out.push(s[i]);
        }
        i = i + 1;
    }
    assert(s@.take(s@.len() as int) =~= s@);
    out
}

/// `s` without dots, semicolons and white space at its end.
pub open spec fn without_stops(s: Seq<char>) -> Seq<char>
    decreases s.len(),
{
    if s.len() > 0 && (s.last() == '.' || s.last() == ';' || text::is_white_space(s.last())) {
        without_stops(s.drop_last())
    } else {
        s
    }
}

/// A reason without what speaks of references and of searching.
pub open spec fn hover_reason(reason: Seq<char>) -> Seq<char> {
    let a = replaced(reason, search_hint(), Seq::empty());
    let b = replaced(
        a,
        "cannot provide precise references"@,
        "cannot provide precise hover information"@,
    );
    let c = replaced(single_spaced(b), " ."@, "."@);
    let d = replaced(c, ";;"@, ";"@);
    without_stops(text::trimmed(d))
}

/// Takes what speaks of references and of searching out of a reason.
pub fn sanitize_hover_site_reason(reason: &str) -> (out: String)
    ensures
        out@ == hover_reason(reason@),
{
    proof {
        reveal_strlit("search_code can fall back to a text search but will have false positives");
        reveal_strlit("cannot provide precise references");
        reveal_strlit(" .");
        reveal_strlit(";;");
    }
    let none: Vec<char> = Vec::new();
    assert(none@ =~= Seq::<char>::empty());
    let a = replace_all(
        &text::chars_of(reason),
        &text::chars_of("search_code can fall back to a text search but will have false positives"),
        &none,
    );
    let b = replace_all(
        &a,
        &text::chars_of("cannot provide precise references"),
        &text::chars_of("cannot provide precise hover information"),
    );
    let c = replace_all(&squeeze(&b), &text::chars_of(" ."), &text::chars_of("."));
    let d = replace_all(&c, &text::chars_of(";;"), &text::chars_of(";"));
    let t = text::trim(&d);
    let mut to: usize = t.len();
    assert(t@.take(to as int) =~= t@);
    while to > 0 && (t[to - 1] == '.' || t[to - 1] == ';' || text::white_space(t[to - 1]))
        invariant
            to <= t@.len(),
            without_stops(t@) == without_stops(t@.take(to as int)),
        decreases to,
    {
        assert(t@.take(to as int).drop_last() =~= t@.take(to as int - 1));
        to = to - 1;
    }
    let out = text::slice_of(&t, 0, to);
    assert(out@ =~= t@.take(to as int));
    text::string_of(&out)
}

/// The note of a hover query that found no place to ask at.
pub open spec fn no_site_note(reason: Seq<char>) -> Seq<char> {
    hover_reason(reason) + ". "@ + anchor_hint()
}

/// The answer of a hover query that found no place to ask at.
pub fn hover_locate_failed(reason: &str) -> (r: Precise<Option<String>>)
    ensures
        is_unknown_hover(r, no_site_note(reason@)),
{
    let own = sanitize_hover_site_reason(reason);
    Precise::unknown(
        None,
        own.concat(". ").concat("callers can fall back to a plain symbol-name anchor"),
    )
}

/// A failed search for a place, as an answer to a hover query.
pub fn hover_site_failed(failed: Precise<Vec<Location>>) -> (r: Precise<Option<String>>)
    ensures
        is_unknown_hover(
            r,
            no_site_note(
                match failed.note {
                    Some(n) => n@,
                    None => "could not locate the symbol to hover"@,
                },
            ),
        ),
{
    match failed.note {
        Some(n) => hover_locate_failed(n.as_str()),
        None => hover_locate_failed("could not locate the symbol to hover"),
    }
}

/// Starts a query for the documentation, type or signature of a symbol.
pub fn hover(has_server: bool, path: &RelPath, target: SymbolAt<'_>) -> (r: AskHover)
    ensures
        if !has_server {
            r matches AskHover::Answer(a) && is_unknown_hover(
                a,
                not_installed(path@, "hover information"@, anchor_hint()),
            )
        } else {
            match target {
                SymbolAt::Position(position) => r matches AskHover::Hover(p, at) && p@ == path@
                    && at == position,
                SymbolAt::Name(name) => if name@.len() == 0 {
                    r matches AskHover::Answer(a) && is_unknown_hover(
                        a,
                        no_site_note(empty_name_note("hover information"@)),
                    )
                } else {
                    r is Source
                },
            }
        },
{
    if !has_server {
        return AskHover::Answer(unavailable_hover_without_server(path));
    }
    match target {
        SymbolAt::Position(position) => AskHover::Hover(path.clone(), position),
        SymbolAt::Name(name) => {
            if name.is_empty() {
                let note = empty_name("hover information");
                AskHover::Answer(hover_locate_failed(note.as_str()))
            } else {
                AskHover::Source
            }
        },
    }
}

/// Goes on with a hover query by name: `source` is the text of the file, or why
/// it could not be read.
pub fn resolve_named_hover_site(path: &RelPath, name: &str, source: Result<&str, &str>) -> (r:
    AskHover)
    ensures
        match source {
            Err(why) => r matches AskHover::Answer(a) && is_unknown_hover(
                a,
                no_site_note(unreadable_note(path@, name@, why@, "hover information"@)),
            ),
            Ok(text) => match first_place(text@, name@) {
                Some(position) => r == AskHover::Definition(position),
                None => r matches AskHover::Answer(a) && is_unknown_hover(
                    a,
                    no_site_note(missing_note(path@, name@, "hover information"@)),
                ),
            },
        },
{
    match source {
        Err(why) => {
            let note = unreadable(path, name, why, "hover information");
            AskHover::Answer(hover_locate_failed(note.as_str()))
        },
        Ok(text) => match first_identifier_position(text, name) {
            Some(position) => AskHover::Definition(position),
            None => {
                let note = missing(path, name, "hover information");
                AskHover::Answer(hover_locate_failed(note.as_str()))
            },
        },
    }
}

/// Goes on with a hover query by name: `reply` is what the server said of the
/// definitions at `position`. One definition inside the repository is asked
/// about, unless the server is busy; otherwise the place that was found is, and
/// so it is where the server failed to answer.
pub fn resolve_hover_site(
    path: &RelPath,
    position: Position,
    reply: &Result<Vec<Location>, LspError>,
    busy: bool,
    root: &RepoRoot,
) -> (r: AskHover)
    ensures
        r matches AskHover::Hover(p, at) && (match reply {
            Ok(defs) => if inside(defs@, *root).len() == 1 && !busy {
                p@ == inside(defs@, *root)[0].0 && at == inside(defs@, *root)[0].1.start
            } else {
                p@ == path@ && at == position
            },
            Err(_) => p@ == path@ && at == position,
        }),
{
    match reply {
        Err(_) => AskHover::Hover(path.clone(), position),
        Ok(defs) => {
            let found = classify_all(defs, root).in_repo;
            assert(keys_of(found@).len() == found@.len());
            if found.len() == 1 && !busy {
                assert(keys_of(found@)[0] == key_of(found@[0]));
                AskHover::Hover(found[0].path.clone(), found[0].range.start)
            } else {
                AskHover::Hover(path.clone(), position)
            }
        },
    }
}

/// The text of one marked part of a hover text.
pub open spec fn marked_text(j: Json) -> Option<Seq<char>> {
    match j {
        Json::Text(s) => Some(s@),
        Json::Table(_) => json::text_in(json::field(j, "value"@)),
        _ => None,
    }
}

/// The texts of the parts that have one.
pub open spec fn marked_texts(items: Seq<Json>) -> Seq<Seq<char>>
    decreases items.len(),
{
    if items.len() == 0 {
        Seq::empty()
    } else {
        let before = marked_texts(items.drop_last());
        match marked_text(items.last()) {
            Some(t) => before.push(t),
            None => before,
        }
    }
}

/// The texts of the contents of a hover.
pub open spec fn hover_parts(contents: Json) -> Seq<Seq<char>> {
    match contents {
        Json::List(items) => marked_texts(items@),
        single => match marked_text(single) {
            Some(t) => seq![t],
            None => Seq::empty(),
        },
    }
}

/// The text of a hover: its parts with blank lines between them, trimmed. A
/// hover without contents, and one whose contents are blank, has none.
pub open spec fn hover_text(result: Json) -> Option<Seq<char>> {
    match json::field(result, "contents"@) {
        None => None,
        Some(contents) => {
            let t = text::trimmed(joined_by(hover_parts(contents), "\n\n"@));
            if t.len() == 0 {
                None
            } else {
                Some(t)
            }
        },
    }
}

/// The text of one marked part of a hover text.
pub fn marked_string_text(value: &Json) -> (r: Option<String>)
    ensures
        match r {
            Some(s) => marked_text(*value) == Some(s@),
            None => marked_text(*value) is None,
        },
{
    match value {
        Json::Text(s) => Some(s.clone()),
        Json::Table(_) => value.text_at("value"),
        _ => None,
    }
}

/// The text of a hover reply.
pub fn parse_hover(result: &Json) -> (r: Option<String>)
    ensures
        match r {
            Some(s) => hover_text(*result) == Some(s@),
            None => hover_text(*result) is None,
        },
{
    let contents = match result.get("contents") {
        None => {
            return None;
        },
        Some(c) => c,
    };
    let mut parts: Vec<String> = Vec::new();
    match contents {
        Json::List(items) => {
            let mut i: usize = 0;
            assert(text::texts(parts@) =~= marked_texts(items@.take(0)));
            while i < items.len()
                invariant
                    i <= items@.len(),
                    text::texts(parts@) == marked_texts(items@.take(i as int)),
                decreases items.len() - i,
            {
                let ghost was = text::texts(parts@);
                assert(items@.take(i as int + 1).drop_last() =~= items@.take(i as int));
                if let Some(t) = marked_string_text(&items[i]) {
                    let ghost added = t@;
                    parts.push(t);
                    assert(text::texts(parts@) =~= was.push(added));
                }
                i = i + 1;
            }
            assert(items@.take(items@.len() as int) =~= items@);
        },
        single => {
            if let Some(t) = marked_string_text(single) {
                let ghost added = t@;
                parts.push(t);
                assert(text::texts(parts@) =~= seq![added]);
            } else {
                assert(text::texts(parts@) =~= Seq::<Seq<char>>::empty());
            }
        },
    }
    assert(text::texts(parts@) == hover_parts(*contents));
    assert(text::texts(parts@).take(parts@.len() as int) =~= text::texts(parts@));
    let joined = join_strings(&parts, parts.len(), "\n\n");
    let trimmed = text::trim(&text::chars_of(joined.as_str()));
    if trimmed.len() == 0 {
        None
    } else {
        Some(text::string_of(&trimmed))
    }
}

/// `r` ends a hover query, where `reply` is what the server said.
pub open spec fn is_hover_answer(
    r: Precise<Option<String>>,
    reply: Result<Json, LspError>,
    busy: bool,
) -> bool {
    match reply {
        Err(err) => is_unknown_hover(
            r,
            failed_note(super::error_text(err), "hover information"@, anchor_hint()),
        ),
        Ok(result) => match hover_text(result) {
            Some(t) => r.value matches Some(s) && s@ == t && r.confidence == Confidence::Exact
                && r.note is None,
            None => if busy {
                is_unknown_hover(r, cold_note())
            } else {
                r.value is None && r.confidence == Confidence::Exact && r.note is None
            },
        },
    }
}

/// Ends a hover query: `reply` is what the server said.
pub fn hover_answer(reply: &Result<Json, LspError>, busy: bool) -> (r: Precise<Option<String>>)
    ensures
        is_hover_answer(r, *reply, busy),
{
    match reply {
        Err(err) => degrade_hover(err),
        Ok(result) => guard_cold_hover(Precise::exact(parse_hover(result)), busy),
    }
}

/// A place in a document, as a request names it.
pub open spec fn place_shape(uri: Seq<char>, position: Position) -> Seq<(Seq<char>, json::Shape)> {
    seq![
        ("textDocument"@, json::Shape::Table(seq![("uri"@, json::Shape::Text(uri))])),
        (
            "position"@,
            json::Shape::Table(
                seq![
                    ("line"@, json::Shape::Number(text::decimal(position.line as nat))),
                    ("character"@, json::Shape::Number(text::decimal(position.character as nat))),
                ],
            ),
        ),
    ]
}

/// The parameters of a hover request: the place in the document.
pub fn hover_params(uri: &str, position: Position) -> (r: Json)
    ensures
        r is Table,
        json::shape(r) == json::Shape::Table(place_shape(uri@, position)),
{
    let document = json::table1("uri", Json::text(uri));
    let place = json::table2(
        "line",
        Json::number(position.line as u64),
        "character",
        Json::number(position.character as u64),
    );
    json::table2("textDocument", document, "position", place)
}

// ------------------------------------------------------------------ laws

/// An answer is exact only where the server answered and either found something
/// or was not busy: failing, and an empty answer while indexing, are told apart
/// from finding nothing, and always come with a note.
pub proof fn law_unanswered_is_not_empty(
    r: Precise<Vec<Location>>,
    reply: Result<Vec<Location>, LspError>,
    what: Seq<char>,
    busy: bool,
    root: RepoRoot,
    origin: Seq<char>,
)
    requires
        is_final_answer(r, reply, what, busy, root, origin),
    ensures
        r.confidence == Confidence::Exact <==> (reply matches Ok(hits) && (inside(
            hits@,
            root,
        ).len() > 0 || !busy)),
        r.confidence == Confidence::Exact || r.confidence == Confidence::Unknown,
        r.confidence == Confidence::Unknown ==> r.value@.len() == 0 && r.note is Some
            && r.note.unwrap()@.len() > 0,
{
    reveal_strlit("语言服务器仍在建立索引，返回的空结果不可信。请在索引完成后重试。");
    reveal_strlit("; cannot provide precise ");
}

/// The same of hover texts: that there is nothing to say is the word of a server
/// that answered and was not busy.
pub proof fn law_unanswered_hover_is_not_silence(
    r: Precise<Option<String>>,
    reply: Result<Json, LspError>,
    busy: bool,
)
    requires
        is_hover_answer(r, reply, busy),
    ensures
        r.confidence == Confidence::Exact <==> (reply matches Ok(result) && (hover_text(
            result,
        ) is Some || !busy)),
        r.confidence == Confidence::Exact || r.confidence == Confidence::Unknown,
        r.confidence == Confidence::Unknown ==> r.value is None && r.note is Some
            && r.note.unwrap()@.len() > 0,
{
    reveal_strlit("语言服务器仍在建立索引，返回的空结果不可信。请在索引完成后重试。");
    reveal_strlit("; cannot provide precise ");
}

} // verus!
