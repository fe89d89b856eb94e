//! Assembly of the graph from parsed files.
//!
//! Every number in the graph follows from the contents of the repository: files
//! are numbered in the order of their paths, symbols in the order of files and
//! of their place in them, and edges are merged and sorted.

use crate::graph::CodeGraph;
use crate::order;
use crate::paths;
use crate::text;
use crate::types::{
    CodeEdge, CodeFile, CodeSymbol, Confidence, EdgeKind, FileId, Language, RelPath, SymbolId,
};
use std::collections::HashMap;
use vstd::prelude::*;
use vstd::string::*;

verus! {

broadcast use vstd::std_specs::hash::group_hash_axioms;

/// A name with more targets than this joins no calls: common names would
/// otherwise join everything with everything.
pub const MAX_SYNTACTIC_CALL_TARGETS: usize = 50;

/// What to index.
#[derive(Clone, Copy, Debug, PartialEq, Eq, Structural)]
pub struct IndexOptions {
    /// Add call edges, which are matched by name alone.
    pub call_edges: bool,
    /// Keep parse results on disk.
    pub persist: bool,
}

impl Default for IndexOptions {
    fn default() -> (r: IndexOptions)
        ensures
            !r.call_edges,
            r.persist,
    {
        IndexOptions { call_edges: false, persist: true }
    }
}

/// Where the results for a repository are kept on disk.
pub fn store_path(root: &str) -> (r: String)
    ensures
        r@ == paths::below(paths::below(root@, ".astrolabe"@), "index.redb"@),
{
    let dir = paths::join(root, ".astrolabe");
    paths::join(dir.as_str(), "index.redb")
}

/// What came of an index run. Every file that failed is named.
#[derive(Debug)]
pub struct IndexReport {
    pub files_scanned: usize,
    pub files_parsed: usize,
    /// Path and reason for every file that could not be parsed.
    pub parse_failures: Vec<(RelPath, String)>,
    /// Path and specifier for every import that pointed inside the repository
    /// and led nowhere.
    pub unresolved_imports: Vec<(RelPath, String)>,
    pub import_edges: usize,
    pub symbols: usize,
}

impl IndexReport {
    /// How many imports inside the repository were resolved, and how many there
    /// are. The share of the two is the resolution rate; without any import it
    /// is one.
    pub fn resolution_counts(&self) -> (r: (usize, usize))
        requires
            self.import_edges + self.unresolved_imports@.len() <= usize::MAX,
        ensures
            r.0 == self.import_edges,
            r.1 == self.import_edges + self.unresolved_imports@.len(),
    {
        (self.import_edges, self.import_edges + self.unresolved_imports.len())
    }
}

/// An import as written, and the file that it was resolved to.
#[derive(Debug)]
pub struct Import {
    pub spec: String,
    pub target: Option<RelPath>,
}

/// A call by the name that is called, and its line.
#[derive(Debug)]
pub struct Call {
    pub callee: String,
    pub line: u32,
}

/// A parsed file. The numbers in its symbols are not yet those of a graph.
#[derive(Debug)]
pub struct ParsedSource {
    pub path: RelPath,
    pub language: Language,
    pub sha: String,
    pub loc: u32,
    pub symbols: Vec<CodeSymbol>,
    pub imports: Vec<Import>,
    pub calls: Vec<Call>,
}

// ---------------------------------------------------------------- digest

/// The FNV-1a hash of bytes.
pub open spec fn fnv1a(bytes: Seq<u8>) -> u64
    decreases bytes.len(),
{
    if bytes.len() == 0 {
        0xcbf2_9ce4_8422_2325
    } else {
        vstd::wrapping::u64_specs::wrapping_mul(
            fnv1a(bytes.drop_last()) ^ (bytes.last() as u64),
            0x100_0000_01b3,
        )
    }
}

/// A hexadecimal digit.
pub open spec fn hex_char(d: int) -> char {
    if d < 10 {
        ('0' as u32 + d) as char
    } else {
        ('a' as u32 + (d - 10)) as char
    }
}

/// The last `n` hexadecimal digits of a number.
pub open spec fn hex_digits(h: nat, n: nat) -> Seq<char>
    decreases n,
{
    if n == 0 {
        Seq::empty()
    } else {
        hex_digits(h / 16, (n - 1) as nat).push(hex_char((h % 16) as int))
    }
}

fn to_hex(h: u64, n: usize) -> (out: Vec<char>)
    ensures
        out@ == hex_digits(h as nat, n as nat),
    decreases n,
{
    if n == 0 {
        return Vec::new();
    }
    let mut out = to_hex(h / 16, n - 1);
    let d: u8 = (h % 16) as u8;
    let c = if d < 10 {
        (48 + d) as char
    } else {
        (87 + d) as char
    };
    out.push(c);
    out
}

/// A key for the contents of a file, and how many lines it has.
pub fn digest(source: &str) -> (r: (String, u32))
    ensures
        r.0@ == hex_digits(fnv1a(vstd::utf8::encode_utf8(source@)) as nat, 16),
        r.1 == text::lines_of(source@).len() as u32,
{
    let bytes = source.as_bytes();
    let mut h: u64 = 0xcbf2_9ce4_8422_2325;
    let mut i: usize = 0;
    assert(bytes@.take(0) =~= Seq::<u8>::empty());
    while i < bytes.len()
        invariant
            i <= bytes@.len(),
            h == fnv1a(bytes@.take(i as int)),
        decreases bytes.len() - i,
    {
        assert(bytes@.take(i as int + 1).drop_last() =~= bytes@.take(i as int));
        h = h ^ (bytes[i] as u64);
        h = h.wrapping_mul(0x100_0000_01b3);
        i = i + 1;
    }
    assert(bytes@.take(bytes@.len() as int) =~= bytes@);
    let lines = text::split_lines(&text::chars_of(source));
    assert(text::rows(lines@).len() == lines@.len());
    (text::string_of(&to_hex(h, 16)), lines.len() as u32)
}

/// An import specifier that was meant to lead to a file of the repository.
pub open spec fn is_internal(spec: Seq<char>) -> bool {
    ||| "."@.is_prefix_of(spec)
    ||| "crate::"@.is_prefix_of(spec)
    ||| "self::"@.is_prefix_of(spec)
}

/// Whether an import specifier was meant to lead to a file of the repository.
/// It says no when in doubt: that only leaves out a note.
pub fn looks_internal(spec: &str) -> (r: bool)
    ensures
        r == is_internal(spec@),
{
    let cs = text::chars_of(spec);
    text::starts_with(&cs, &text::chars_of(".")) || text::starts_with(
        &cs,
        &text::chars_of("crate::"),
    ) || text::starts_with(&cs, &text::chars_of("self::"))
}

/// The last part of a dotted or colon-separated name that is not empty; of a
/// name without one the name itself.
pub open spec fn short_name(callee: Seq<char>) -> Seq<char> {
    let short = last_part(callee);
    if short.len() == 0 {
        callee
    } else {
        short
    }
}

/// The last run of characters other than dots and colons.
pub open spec fn last_part(s: Seq<char>) -> Seq<char>
    decreases s.len(),
{
    if s.len() == 0 {
        s
    } else if s.last() == '.' || s.last() == ':' {
        last_part(s.drop_last())
    } else {
        run_at_end(s)
    }
}

/// The longest run of characters other than dots and colons at the end.
pub open spec fn run_at_end(s: Seq<char>) -> Seq<char>
    decreases s.len(),
{
    if s.len() == 0 || s.last() == '.' || s.last() == ':' {
        Seq::empty()
    } else {
        run_at_end(s.drop_last()).push(s.last())
    }
}

proof fn lemma_run_at_end(s: Seq<char>, from: int)
    requires
        0 <= from <= s.len(),
        from == 0 || s[from - 1] == '.' || s[from - 1] == ':',
        forall|k: int| from <= k < s.len() ==> s[k] != '.' && #[trigger] s[k] != ':',
    ensures
        run_at_end(s) == s.skip(from),
    decreases s.len(),
{
    if from < s.len() {
        assert(s[s.len() - 1] != ':');
        lemma_run_at_end(s.drop_last(), from);
        assert(s.skip(from) =~= s.drop_last().skip(from).push(s.last()));
    } else {
        assert(s.skip(from) =~= Seq::<char>::empty());
    }
}

/// The name that a call names its target by.
pub fn short_callee(callee: &str) -> (out: String)
    ensures
        out@ == short_name(callee@),
{
    let cs = text::chars_of(callee);
    let mut to: usize = cs.len();
    assert(cs@.take(to as int) =~= cs@);
    while to > 0 && (cs[to - 1] == '.' || cs[to - 1] == ':')
        invariant
            to <= cs@.len(),
            last_part(cs@) == last_part(cs@.take(to as int)),
        decreases to,
    {
        assert(cs@.take(to as int).drop_last() =~= cs@.take(to as int - 1));
        to = to - 1;
    }
    if to == 0 {
        return text::string_of(&cs);
    }
    let mut from: usize = to;
    while from > 0 && cs[from - 1] != '.' && cs[from - 1] != ':'
        invariant
            from <= to <= cs@.len(),
            forall|k: int| from <= k < to ==> cs@[k] != '.' && #[trigger] cs@[k] != ':',
        decreases from,
    {
        from = from - 1;
    }
    let part = text::slice_of(&cs, from, to);
    proof {
        let head = cs@.take(to as int);
        assert(head.last() == cs@[to - 1]);
        assert(from < to) by {
            assert(cs@[to - 1] != '.' && cs@[to - 1] != ':');
        }
        lemma_run_at_end(head, from as int);
        assert(part@ =~= head.skip(from as int));
    }
    text::string_of(&part)
}

// ----------------------------------------------------------------- order

/// Files in the order of their paths.
pub open spec fn source_order() -> spec_fn(ParsedSource, ParsedSource) -> bool {
    |a: ParsedSource, b: ParsedSource| text::text_le(a.path@, b.path@)
}

fn source_before(a: &ParsedSource, b: &ParsedSource) -> (r: bool)
    ensures
        r == source_order()(*a, *b),
{
    text::at_most(a.path.as_str(), b.path.as_str())
}

pub(crate) proof fn lemma_source_order()
    ensures
        order::total_preorder(source_order()),
{
    let le = source_order();
    assert forall|a: ParsedSource, b: ParsedSource| #[trigger] le(a, b) || le(b, a) by {
        text::lemma_text_le_total(a.path@, b.path@);
    }
    assert forall|a: ParsedSource, b: ParsedSource, c: ParsedSource| #[trigger]
        le(a, b) && #[trigger] le(b, c) implies le(a, c) by {
        text::lemma_text_le_transitive(a.path@, b.path@, c.path@);
    }
}

/// Notes about files in the order of path and text.
pub open spec fn note_order() -> spec_fn((RelPath, String), (RelPath, String)) -> bool {
    |a: (RelPath, String), b: (RelPath, String)|
        if a.0@ != b.0@ {
            text::text_le(a.0@, b.0@)
        } else {
            text::text_le(a.1@, b.1@)
        }
}

fn note_before(a: &(RelPath, String), b: &(RelPath, String)) -> (r: bool)
    ensures
        r == note_order()(*a, *b),
{
    match text::rank(a.0.as_str(), b.0.as_str()) {
        text::Rank::Before => true,
        text::Rank::After => false,
        text::Rank::Same => text::at_most(a.1.as_str(), b.1.as_str()),
    }
}

pub(crate) proof fn lemma_note_order()
    ensures
        order::total_preorder(note_order()),
{
    let le = note_order();
    assert forall|a: (RelPath, String), b: (RelPath, String)| #[trigger] le(a, b) || le(b, a) by {
        text::lemma_text_le_total(a.0@, b.0@);
        text::lemma_text_le_total(a.1@, b.1@);
    }
    assert forall|a: (RelPath, String), b: (RelPath, String), c: (RelPath, String)| #[trigger]
        le(a, b) && #[trigger] le(b, c) implies le(a, c) by {
        if text::text_le(a.0@, b.0@) && text::text_le(b.0@, c.0@) {
            text::lemma_text_le_transitive(a.0@, b.0@, c.0@);
            if a.0@ == c.0@ {
                text::lemma_text_le_antisymmetric(a.0@, b.0@);
            }
        }
        if text::text_le(a.1@, b.1@) && text::text_le(b.1@, c.1@) {
            text::lemma_text_le_transitive(a.1@, b.1@, c.1@);
        }
    }
}

// ----------------------------------------------------------------- files

/// The number of the file with this path: the last of the first `n` places
/// that holds it.
pub open spec fn id_of(ps: Seq<ParsedSource>, path: Seq<char>, n: nat) -> Option<int>
    decreases n,
{
    if n == 0 {
        None
    } else if ps[n - 1].path@ == path {
        Some(n - 1)
    } else {
        id_of(ps, path, (n - 1) as nat)
    }
}

pub(crate) proof fn lemma_id_of(ps: Seq<ParsedSource>, path: Seq<char>, n: nat)
    requires
        n <= ps.len(),
    ensures
        match id_of(ps, path, n) {
            Some(k) => 0 <= k < n && ps[k].path@ == path && forall|j: int|
                k < j < n ==> (#[trigger] ps[j]).path@ != path,
            None => forall|j: int| 0 <= j < n ==> (#[trigger] ps[j]).path@ != path,
        },
    decreases n,
{
    if n > 0 {
        lemma_id_of(ps, path, (n - 1) as nat);
    }
}

/// The number of the file with this path, found by halving.
fn find_path(ps: &Vec<ParsedSource>, path: &str) -> (r: Option<usize>)
    requires
        order::is_sorted(ps@, source_order()),
    ensures
        match r {
            Some(k) => id_of(ps@, path@, ps@.len()) == Some(k as int) && k < ps@.len(),
            None => id_of(ps@, path@, ps@.len()) is None,
        },
{
    let mut lo: usize = 0;
    let mut hi: usize = ps.len();
    while lo < hi
        invariant
            lo <= hi <= ps@.len(),
            order::is_sorted(ps@, source_order()),
            forall|k: int| 0 <= k < lo ==> text::text_le((#[trigger] ps@[k]).path@, path@),
            forall|k: int| hi <= k < ps@.len() ==> !text::text_le((#[trigger] ps@[k]).path@, path@),
        decreases hi - lo,
    {
        let mid: usize = lo + (hi - lo) / 2;
        let le = text::at_most(ps[mid].path.as_str(), path);
        if le {
            assert forall|k: int| 0 <= k < mid + 1 implies text::text_le(
                (#[trigger] ps@[k]).path@,
                path@,
            ) by {
                if k < mid {
                    assert(source_order()(ps@[k], ps@[mid as int]));
                    text::lemma_text_le_transitive(ps@[k].path@, ps@[mid as int].path@, path@);
                }
            }
            lo = mid + 1;
        } else {
            assert forall|k: int| mid <= k < ps@.len() implies !text::text_le(
                (#[trigger] ps@[k]).path@,
                path@,
            ) by {
                if k > mid && text::text_le(ps@[k].path@, path@) {
                    assert(source_order()(ps@[mid as int], ps@[k]));
                    text::lemma_text_le_transitive(ps@[mid as int].path@, ps@[k].path@, path@);
                }
            }
            hi = mid;
        }
    }
    proof {
        lemma_id_of(ps@, path@, ps@.len());
        text::lemma_text_le_total(path@, path@);
        assert forall|k: int| lo <= k < ps@.len() implies (#[trigger] ps@[k]).path@ != path@ by {}
    }
    if lo == 0 {
        proof {
            if let Some(k) = id_of(ps@, path@, ps@.len()) {
                assert(ps@[k].path@ == path@);
            }
        }
        return None;
    }
    if text::same(ps[lo - 1].path.as_str(), path) {
        proof {
            match id_of(ps@, path@, ps@.len()) {
                Some(k) => {
                    assert(ps@[k].path@ == path@);
                    assert(k < lo);
                    if k < lo - 1 {
                        assert(ps@[lo - 1].path@ != path@);
                    }
                },
                None => {
                    assert(ps@[lo - 1].path@ != path@);
                },
            }
        }
        Some(lo - 1)
    } else {
        proof {
            if let Some(k) = id_of(ps@, path@, ps@.len()) {
                assert(ps@[k].path@ == path@);
                assert(k < lo - 1);
                assert(source_order()(ps@[k], ps@[lo - 1]));
                text::lemma_text_le_antisymmetric(ps@[lo - 1].path@, path@);
            }
        }
        None
    }
}

/// The file at place `i`.
pub open spec fn file_at(ps: Seq<ParsedSource>, i: int) -> CodeFile {
    CodeFile {
        id: FileId(i as u32),
        path: ps[i].path,
        language: Some(ps[i].language),
        loc: ps[i].loc,
        sha: ps[i].sha,
    }
}

/// The files of the graph.
pub open spec fn files_of(ps: Seq<ParsedSource>) -> Seq<CodeFile> {
    Seq::new(ps.len(), |i: int| file_at(ps, i))
}

/// The number of the file at place `i`: that of its path.
pub open spec fn own_id(ps: Seq<ParsedSource>, i: int) -> FileId {
    FileId(id_of(ps, ps[i].path@, ps.len()).unwrap() as u32)
}

proof fn lemma_own_id(ps: Seq<ParsedSource>, i: int)
    requires
        0 <= i < ps.len(),
    ensures
        id_of(ps, ps[i].path@, ps.len()) is Some,
{
    lemma_id_of(ps, ps[i].path@, ps.len());
    if id_of(ps, ps[i].path@, ps.len()) is None {
        assert(ps[i].path@ != ps[i].path@);
    }
}

/// The symbols of the file at place `i`, numbered from `base` on.
pub open spec fn symbols_at(ps: Seq<ParsedSource>, i: int, base: nat) -> Seq<CodeSymbol> {
    Seq::new(
        ps[i].symbols@.len(),
        |k: int|
            CodeSymbol {
                id: SymbolId((base + k) as u32),
                file: own_id(ps, i),
                ..ps[i].symbols@[k]
            },
    )
}

/// The symbols of the first `n` files, in their order.
pub open spec fn symbols_of(ps: Seq<ParsedSource>, n: nat) -> Seq<CodeSymbol>
    decreases n,
{
    if n == 0 {
        Seq::empty()
    } else {
        let before = symbols_of(ps, (n - 1) as nat);
        before + symbols_at(ps, n - 1, before.len())
    }
}

proof fn lemma_symbols_grow(ps: Seq<ParsedSource>, m: nat, n: nat)
    requires
        m <= n,
    ensures
        symbols_of(ps, m).len() <= symbols_of(ps, n).len(),
    decreases n,
{
    if m < n {
        lemma_symbols_grow(ps, m, (n - 1) as nat);
    }
}

// ----------------------------------------------------------------- edges

/// An import edge.
pub open spec fn import_edge(from: u32, to: u32) -> CodeEdge {
    CodeEdge {
        from,
        to,
        kind: EdgeKind::Import,
        weight: 1,
        confidence: Confidence::Scoped,
    }
}

/// A call edge.
pub open spec fn call_edge(from: u32, to: u32) -> CodeEdge {
    CodeEdge {
        from,
        to,
        kind: EdgeKind::Call,
        weight: 1,
        confidence: Confidence::Syntactic,
    }
}

/// The edges of the first `m` imports of the file at place `i`.
pub open spec fn imports_at(ps: Seq<ParsedSource>, i: int, m: nat) -> Seq<CodeEdge>
    decreases m,
{
    if m == 0 {
        Seq::empty()
    } else {
        let before = imports_at(ps, i, (m - 1) as nat);
        match ps[i].imports@[m - 1].target {
            Some(path) => match id_of(ps, path@, ps.len()) {
                Some(to) => before.push(import_edge(own_id(ps, i).0, to as u32)),
                None => before,
            },
            None => before,
        }
    }
}

/// The import edges of the first `n` files.
pub open spec fn imports_of(ps: Seq<ParsedSource>, n: nat) -> Seq<CodeEdge>
    decreases n,
{
    if n == 0 {
        Seq::empty()
    } else {
        imports_of(ps, (n - 1) as nat) + imports_at(ps, n - 1, ps[n - 1].imports@.len())
    }
}

/// The unresolved internal imports among the first `m` of the file at `i`.
pub open spec fn gaps_at(ps: Seq<ParsedSource>, i: int, m: nat) -> Seq<(RelPath, String)>
    decreases m,
{
    if m == 0 {
        Seq::empty()
    } else {
        let before = gaps_at(ps, i, (m - 1) as nat);
        let import = ps[i].imports@[m - 1];
        if import.target is None && is_internal(import.spec@) {
            before.push((ps[i].path, import.spec))
        } else {
            before
        }
    }
}

/// The unresolved internal imports of the first `n` files.
pub open spec fn gaps_of(ps: Seq<ParsedSource>, n: nat) -> Seq<(RelPath, String)>
    decreases n,
{
    if n == 0 {
        Seq::empty()
    } else {
        gaps_of(ps, (n - 1) as nat) + gaps_at(ps, n - 1, ps[n - 1].imports@.len())
    }
}

/// A symbol of the file that spans the line.
pub open spec fn spans(s: CodeSymbol, file: FileId, line: u32) -> bool {
    s.file == file && s.start_line <= line <= s.end_line
}

/// The caller on a line: of the first `n` symbols that span it the shortest,
/// and of several of one length the first.
pub open spec fn caller_at(
    symbols: Seq<CodeSymbol>,
    file: FileId,
    line: u32,
    n: nat,
) -> Option<int>
    decreases n,
{
    if n == 0 {
        None
    } else {
        let before = caller_at(symbols, file, line, (n - 1) as nat);
        let s = symbols[n - 1];
        if !spans(s, file, line) {
            before
        } else {
            match before {
                None => Some(n - 1),
                Some(b) => if s.end_line - s.start_line < symbols[b].end_line
                    - symbols[b].start_line {
                    Some(n - 1)
                } else {
                    Some(b)
                },
            }
        }
    }
}

/// The caller on a line spans it, and nothing that does is shorter.
pub proof fn lemma_caller(symbols: Seq<CodeSymbol>, file: FileId, line: u32, n: nat)
    requires
        n <= symbols.len(),
    ensures
        match caller_at(symbols, file, line, n) {
            Some(b) => 0 <= b < n && spans(symbols[b], file, line) && forall|j: int|
                0 <= j < n && spans(#[trigger] symbols[j], file, line) ==> symbols[b].end_line
                    - symbols[b].start_line < symbols[j].end_line - symbols[j].start_line || (
                symbols[b].end_line - symbols[b].start_line == symbols[j].end_line
                    - symbols[j].start_line && b <= j),
            None => forall|j: int| 0 <= j < n ==> !spans(#[trigger] symbols[j], file, line),
        },
    decreases n,
{
    if n > 0 {
        lemma_caller(symbols, file, line, (n - 1) as nat);
    }
}

/// A symbol has this name.
pub open spec fn has_name(symbols: Seq<CodeSymbol>, name: Seq<char>) -> spec_fn(usize) -> bool {
    |i: usize| i < symbols.len() && symbols[i as int].name@ == name
}

/// The places of the symbols.
pub open spec fn places(n: nat) -> Seq<usize> {
    Seq::new(n, |i: int| i as usize)
}

/// The places of the symbols of this name.
pub open spec fn targets_of(symbols: Seq<CodeSymbol>, name: Seq<char>) -> Seq<usize> {
    places(symbols.len()).filter(has_name(symbols, name))
}

/// The edges from a caller to the first `m` targets, itself left out.
pub open spec fn edges_to(
    symbols: Seq<CodeSymbol>,
    caller: SymbolId,
    targets: Seq<usize>,
    m: nat,
) -> Seq<CodeEdge>
    decreases m,
{
    if m == 0 {
        Seq::empty()
    } else {
        let before = edges_to(symbols, caller, targets, (m - 1) as nat);
        let target = symbols[targets[m - 1] as int].id;
        if target == caller {
            before
        } else {
            before.push(call_edge(caller.0, target.0))
        }
    }
}

/// The edges of one call: from the caller on its line to every symbol of the
/// called name, unless there are too many of them.
pub open spec fn edges_of_call(
    symbols: Seq<CodeSymbol>,
    file: FileId,
    call: Call,
) -> Seq<CodeEdge> {
    let targets = targets_of(symbols, short_name(call.callee@));
    match caller_at(symbols, file, call.line, symbols.len()) {
        None => Seq::empty(),
        Some(b) => if targets.len() > MAX_SYNTACTIC_CALL_TARGETS {
            Seq::empty()
        } else {
            edges_to(symbols, symbols[b].id, targets, targets.len())
        },
    }
}

/// The edges of the first `m` calls of the file at place `i`.
pub open spec fn calls_at(
    ps: Seq<ParsedSource>,
    symbols: Seq<CodeSymbol>,
    i: int,
    m: nat,
) -> Seq<CodeEdge>
    decreases m,
{
    if m == 0 {
        Seq::empty()
    } else {
        calls_at(ps, symbols, i, (m - 1) as nat) + edges_of_call(
            symbols,
            own_id(ps, i),
            ps[i].calls@[m - 1],
        )
    }
}

/// The call edges of the first `n` files.
pub open spec fn calls_of(
    ps: Seq<ParsedSource>,
    symbols: Seq<CodeSymbol>,
    n: nat,
) -> Seq<CodeEdge>
    decreases n,
{
    if n == 0 {
        Seq::empty()
    } else {
        calls_of(ps, symbols, (n - 1) as nat) + calls_at(
            ps,
            symbols,
            n - 1,
            ps[n - 1].calls@.len(),
        )
    }
}

/// All edges before they are merged.
pub open spec fn raw_edges(ps: Seq<ParsedSource>, call_edges: bool) -> Seq<CodeEdge> {
    let n = ps.len();
    if call_edges {
        imports_of(ps, n) + calls_of(ps, symbols_of(ps, n), n)
    } else {
        imports_of(ps, n)
    }
}

// --------------------------------------------------------------- merging

/// Two edges join the same ends in the same way.
pub open spec fn same_edge(a: CodeEdge, b: CodeEdge) -> bool {
    a.from == b.from && a.to == b.to && a.kind == b.kind
}

/// By the first end, then the second, then the kind.
pub open spec fn edge_le(a: CodeEdge, b: CodeEdge) -> bool {
    if a.from != b.from {
        a.from < b.from
    } else if a.to != b.to {
        a.to < b.to
    } else {
        a.kind.level() <= b.kind.level()
    }
}

spec fn edge_order() -> spec_fn(CodeEdge, CodeEdge) -> bool {
    |a: CodeEdge, b: CodeEdge| edge_le(a, b)
}

fn edge_before(a: &CodeEdge, b: &CodeEdge) -> (r: bool)
    ensures
        r == edge_order()(*a, *b),
{
    if a.from != b.from {
        a.from < b.from
    } else if a.to != b.to {
        a.to < b.to
    } else {
        a.kind.rank() <= b.kind.rank()
    }
}

/// Edges like `e`.
pub open spec fn like(e: CodeEdge) -> spec_fn(CodeEdge) -> bool {
    |x: CodeEdge| same_edge(x, e)
}

/// How many of `raw` are like `e`.
pub open spec fn count_like(raw: Seq<CodeEdge>, e: CodeEdge) -> nat {
    raw.filter(like(e)).len()
}

/// `merged` holds each edge of `raw` once, in order, weighted by how often it
/// occurs.
pub open spec fn are_merged(merged: Seq<CodeEdge>, raw: Seq<CodeEdge>) -> bool {
    &&& forall|i: int, j: int|
        0 <= i < j < merged.len() ==> edge_le(#[trigger] merged[i], #[trigger] merged[j])
            && !same_edge(merged[i], merged[j])
    &&& forall|k: int|
        0 <= k < merged.len() ==> (#[trigger] merged[k]).weight == count_like(raw, merged[k])
            && merged[k].weight > 0 && merged[k].confidence == confidence_of(merged[k].kind)
    &&& forall|k: int| 0 <= k < raw.len() ==> holds_like(merged, #[trigger] raw[k])
}

/// One of `merged` is like `e`.
pub open spec fn holds_like(merged: Seq<CodeEdge>, e: CodeEdge) -> bool {
    exists|m: int| 0 <= m < merged.len() && same_edge(#[trigger] merged[m], e)
}

/// Imports are backed by build configuration, calls by names alone.
pub open spec fn confidence_of(kind: EdgeKind) -> Confidence {
    match kind {
        EdgeKind::Import => Confidence::Scoped,
        EdgeKind::Call => Confidence::Syntactic,
    }
}

/// Fresh edges: of weight 1 and with the confidence of their kind.
pub open spec fn are_fresh(raw: Seq<CodeEdge>) -> bool {
    forall|k: int|
        0 <= k < raw.len() ==> (#[trigger] raw[k]).weight == 1 && raw[k].confidence
            == confidence_of(raw[k].kind)
}

proof fn lemma_count_push(s: Seq<CodeEdge>, x: CodeEdge, e: CodeEdge)
    ensures
        count_like(s.push(x), e) == count_like(s, e) + (if same_edge(x, e) {
            1int
        } else {
            0int
        }),
{
    reveal(Seq::filter);
    assert(s.push(x).drop_last() =~= s);
}

proof fn lemma_count_take(s: Seq<CodeEdge>, n: int, e: CodeEdge)
    requires
        0 <= n <= s.len(),
    ensures
        count_like(s.take(n), e) <= count_like(s, e),
    decreases s.len() - n,
{
    if n < s.len() {
        lemma_count_take(s, n + 1, e);
        assert(s.take(n + 1) =~= s.take(n).push(s[n]));
        lemma_count_push(s.take(n), s[n], e);
    } else {
        assert(s.take(n) =~= s);
    }
}

proof fn lemma_count_like_same(s: Seq<CodeEdge>, a: CodeEdge, b: CodeEdge)
    requires
        same_edge(a, b),
    ensures
        count_like(s, a) == count_like(s, b),
{
    assert(like(a) =~= like(b));
}

proof fn lemma_count_none(s: Seq<CodeEdge>, e: CodeEdge)
    requires
        forall|k: int| 0 <= k < s.len() ==> !same_edge(#[trigger] s[k], e),
    ensures
        count_like(s, e) == 0,
    decreases s.len(),
{
    reveal(Seq::filter);
    if s.len() > 0 {
        lemma_count_none(s.drop_last(), e);
        assert(!same_edge(s[s.len() - 1], e));
    }
}

/// Sorts edges and turns repetitions into weights.
pub fn merge_edges(edges: Vec<CodeEdge>) -> (merged: Vec<CodeEdge>)
    requires
        are_fresh(edges@),
        forall|e: CodeEdge| #[trigger] count_like(edges@, e) <= u32::MAX,
    ensures
        are_merged(merged@, edges@),
{
    let ghost raw = edges@;
    let ghost le = edge_order();
    assert(order::total_preorder(le));
    let sorted = order::sort_by(edges, &edge_before, Ghost(le));
    proof {
        order::lemma_arranged(raw, le);
        assert forall|e: CodeEdge| #[trigger] count_like(sorted@, e) == count_like(raw, e) by {
            order::lemma_arranged_filter(raw, le, like(e));
        }
        assert forall|k: int| 0 <= k < sorted@.len() implies (#[trigger] sorted@[k]).weight == 1
            && sorted@[k].confidence == confidence_of(sorted@[k].kind) by {
            assert(sorted@.contains(sorted@[k]));
            let m = choose|m: int| 0 <= m < raw.len() && raw[m] == sorted@[k];
            assert(raw[m].weight == 1);
        }
    }
    let mut merged: Vec<CodeEdge> = Vec::new();
    let mut i: usize = 0;
    while i < sorted.len()
        invariant
            i <= sorted@.len(),
            le == edge_order(),
            order::is_sorted(sorted@, le),
            are_fresh(sorted@),
            forall|e: CodeEdge| #[trigger] count_like(sorted@, e) == count_like(raw, e),
            forall|e: CodeEdge| #[trigger] count_like(raw, e) <= u32::MAX,
            merged@.len() > 0 <==> i > 0,
            merged@.len() > 0 ==> same_edge(merged@.last(), sorted@[i - 1]),
            are_merged(merged@, sorted@.take(i as int)),
        decreases sorted.len() - i,
    {
        let e = sorted[i];
        let ghost was = merged@;
        let ghost head = sorted@.take(i as int);
        let ghost more = sorted@.take(i as int + 1);
        proof {
            assert(more =~= head.push(e));
            assert(sorted@[i as int].weight == 1);
            lemma_count_take(sorted@, i as int + 1, e);
            lemma_count_push(head, e, e);
            assert(count_like(sorted@, e) == count_like(raw, e));
            assert(count_like(raw, e) <= u32::MAX);
        }
        let n: usize = merged.len();
        let repeated = n > 0 && merged[n - 1].from == e.from && merged[n - 1].to == e.to && merged[n
            - 1].kind == e.kind;
        if repeated {
            let last = merged[n - 1];
            proof {
                assert(was[n - 1].weight == count_like(head, was[n - 1]));
                lemma_count_like_same(head, was[n - 1], e);
            }
            merged.set(
                n - 1,
                CodeEdge {
                    from: last.from,
                    to: last.to,
                    kind: last.kind,
                    weight: last.weight + 1,
                    confidence: last.confidence,
                },
            );
        } else {
            merged.push(e);
        }
        proof {
            let now = merged@;
            assert forall|a: int, b: int| 0 <= a < b < now.len() implies edge_le(
                #[trigger] now[a],
                #[trigger] now[b],
            ) && !same_edge(now[a], now[b]) by {
                if repeated {
                    assert(same_edge(now[a], was[a]) && same_edge(now[b], was[b]));
                    assert(edge_le(was[a], was[b]) && !same_edge(was[a], was[b]));
                } else if b < was.len() {
                    assert(now[a] == was[a] && now[b] == was[b]);
                } else {
                    assert(now[a] == was[a]);
                    let p = sorted@[i - 1];
                    assert(le(p, sorted@[i as int]));
                    assert(same_edge(was[was.len() - 1], p));
                    if a < was.len() - 1 {
                        assert(edge_le(was[a], was[was.len() - 1]));
                    }
                }
            }
            assert forall|k: int| 0 <= k < now.len() implies (#[trigger] now[k]).weight
                == count_like(more, now[k]) && now[k].weight > 0 && now[k].confidence
                == confidence_of(now[k].kind) by {
                lemma_count_push(head, e, now[k]);
                if repeated {
                    assert(was[k].weight == count_like(head, was[k]));
                    lemma_count_like_same(head, was[k], now[k]);
                    if k < n - 1 {
                        assert(!same_edge(was[k], was[n - 1]));
                    }
                } else if k < was.len() {
                    assert(now[k] == was[k]);
                    assert(was[k].weight == count_like(head, was[k]));
                    assert(!same_edge(now[k], now[was.len() as int]));
                } else {
                    assert forall|m: int| 0 <= m < head.len() implies !same_edge(
                        #[trigger] head[m],
                        e,
                    ) by {
                        assert(holds_like(was, head[m]));
                        let x = choose|x: int| 0 <= x < was.len() && same_edge(#[trigger] was[x], head[m]);
                        assert(now[x] == was[x]);
                        assert(!same_edge(now[x], now[was.len() as int]));
                    }
                    lemma_count_none(head, e);
                }
            }
            assert forall|k: int| 0 <= k < more.len() implies holds_like(now, #[trigger] more[k]) by {
                if k < head.len() {
                    assert(more[k] == head[k]);
                    assert(holds_like(was, head[k]));
                    let x = choose|x: int| 0 <= x < was.len() && same_edge(#[trigger] was[x], head[k]);
                    assert(same_edge(now[x], head[k]));
                } else {
                    assert(same_edge(now[now.len() - 1], e));
                }
            }
        }
        i = i + 1;
    }
    proof {
        assert(sorted@.take(sorted@.len() as int) =~= sorted@);
        assert forall|k: int| 0 <= k < raw.len() implies holds_like(merged@, #[trigger] raw[k]) by {
            assert(raw.contains(raw[k]));
            assert(sorted@.contains(raw[k]));
            let m = choose|m: int| 0 <= m < sorted@.len() && sorted@[m] == raw[k];
            assert(holds_like(merged@, sorted@[m]));
        }
        assert forall|k: int| 0 <= k < merged@.len() implies (#[trigger] merged@[k]).weight
            == count_like(raw, merged@[k]) && merged@[k].weight > 0 && merged@[k].confidence
            == confidence_of(merged@[k].kind) by {
            assert(count_like(sorted@, merged@[k]) == count_like(raw, merged@[k]));
        }
    }
    merged
}

// -------------------------------------------------------------- assembly

/// The numbers of the files, by place.
fn own_ids(ps: &Vec<ParsedSource>) -> (out: Vec<u32>)
    requires
        ps@.len() <= u32::MAX,
        order::is_sorted(ps@, source_order()),
    ensures
        out@.len() == ps@.len(),
        forall|i: int| 0 <= i < out@.len() ==> FileId(#[trigger] out@[i]) == own_id(ps@, i),
{
    let mut out: Vec<u32> = Vec::new();
    let mut i: usize = 0;
    while i < ps.len()
        invariant
            i <= ps@.len(),
            ps@.len() <= u32::MAX,
            order::is_sorted(ps@, source_order()),
            out@.len() == i,
            forall|k: int| 0 <= k < i ==> FileId(#[trigger] out@[k]) == own_id(ps@, k),
        decreases ps.len() - i,
    {
        proof {
            lemma_own_id(ps@, i as int);
        }
        match find_path(ps, ps[i].path.as_str()) {
            Some(k) => {
                out.push(k as u32);
            },
            None => {
                out.push(0);
            },
        }
        i = i + 1;
    }
    out
}

fn build_files(ps: &Vec<ParsedSource>) -> (out: Vec<CodeFile>)
    requires
        ps@.len() <= u32::MAX,
    ensures
        out@ == files_of(ps@),
{
    let mut out: Vec<CodeFile> = Vec::new();
    let mut i: usize = 0;
    while i < ps.len()
        invariant
            i <= ps@.len(),
            ps@.len() <= u32::MAX,
            out@ == files_of(ps@).take(i as int),
        decreases ps.len() - i,
    {
        let p = &ps[i];
        out.push(
            CodeFile {
                id: FileId(i as u32),
                path: p.path.clone(),
                language: Some(p.language),
                loc: p.loc,
                sha: p.sha.clone(),
            },
        );
        assert(out@[i as int] == file_at(ps@, i as int));
        assert(out@ =~= files_of(ps@).take(i as int + 1));
        i = i + 1;
    }
    assert(out@ =~= files_of(ps@));
    out
}

fn build_symbols(ps: &Vec<ParsedSource>, ids: &Vec<u32>) -> (out: Vec<CodeSymbol>)
    requires
        ids@.len() == ps@.len(),
        forall|i: int| 0 <= i < ids@.len() ==> FileId(#[trigger] ids@[i]) == own_id(ps@, i),
        symbols_of(ps@, ps@.len()).len() <= u32::MAX,
    ensures
        out@ == symbols_of(ps@, ps@.len()),
{
    let mut out: Vec<CodeSymbol> = Vec::new();
    let mut i: usize = 0;
    while i < ps.len()
        invariant
            i <= ps@.len(),
            ids@.len() == ps@.len(),
            forall|i: int| 0 <= i < ids@.len() ==> FileId(#[trigger] ids@[i]) == own_id(ps@, i),
            symbols_of(ps@, ps@.len()).len() <= u32::MAX,
            out@ == symbols_of(ps@, i as nat),
        decreases ps.len() - i,
    {
        let ghost before = out@;
        let ghost own = symbols_at(ps@, i as int, before.len());
        let file = FileId(ids[i]);
        let list = &ps[i].symbols;
        let mut k: usize = 0;
        proof {
            lemma_symbols_grow(ps@, (i + 1) as nat, ps@.len());
            assert(out@ =~= before + own.take(0));
        }
        while k < list.len()
            invariant
                k <= list@.len(),
                i < ps@.len(),
                list@ == ps@[i as int].symbols@,
                file == own_id(ps@, i as int),
                own == symbols_at(ps@, i as int, before.len()),
                before.len() + own.len() <= u32::MAX,
                out@ == before + own.take(k as int),
            decreases list.len() - k,
        {
            let sym = &list[k];
            let id: u32 = out.len() as u32;
            out.push(
                CodeSymbol {
                    id: SymbolId(id),
                    file,
                    name: sym.name.clone(),
                    kind: sym.kind,
                    signature: sym.signature.clone(),
                    start_line: sym.start_line,
                    end_line: sym.end_line,
                    exported: sym.exported,
                },
            );
            assert(own[k as int] == out@[before.len() + k]);
            assert(out@ =~= before + own.take(k as int + 1));
            k = k + 1;
        }
        assert(own.take(own.len() as int) =~= own);
        i = i + 1;
    }
    out
}

/// The import edges and the gaps of all files.
fn build_imports(ps: &Vec<ParsedSource>, ids: &Vec<u32>) -> (r: (
    Vec<CodeEdge>,
    Vec<(RelPath, String)>,
))
    requires
        ps@.len() <= u32::MAX,
        order::is_sorted(ps@, source_order()),
        ids@.len() == ps@.len(),
        forall|i: int| 0 <= i < ids@.len() ==> FileId(#[trigger] ids@[i]) == own_id(ps@, i),
    ensures
        r.0@ == imports_of(ps@, ps@.len()),
        r.1@ == gaps_of(ps@, ps@.len()),
{
    let mut edges: Vec<CodeEdge> = Vec::new();
    let mut gaps: Vec<(RelPath, String)> = Vec::new();
    let mut i: usize = 0;
    while i < ps.len()
        invariant
            i <= ps@.len(),
            ps@.len() <= u32::MAX,
            order::is_sorted(ps@, source_order()),
            ids@.len() == ps@.len(),
            forall|i: int| 0 <= i < ids@.len() ==> FileId(#[trigger] ids@[i]) == own_id(ps@, i),
            edges@ == imports_of(ps@, i as nat),
            gaps@ == gaps_of(ps@, i as nat),
        decreases ps.len() - i,
    {
        let ghost edges0 = edges@;
        let ghost gaps0 = gaps@;
        let from: u32 = ids[i];
        assert(FileId(from) == own_id(ps@, i as int));
        let list = &ps[i].imports;
        let mut k: usize = 0;
        proof {
            assert(edges0 + imports_at(ps@, i as int, 0) =~= edges0);
            assert(gaps0 + gaps_at(ps@, i as int, 0) =~= gaps0);
        }
        while k < list.len()
            invariant
                k <= list@.len(),
                i < ps@.len(),
                ps@.len() <= u32::MAX,
                order::is_sorted(ps@, source_order()),
                list@ == ps@[i as int].imports@,
                FileId(from) == own_id(ps@, i as int),
                edges@ == edges0 + imports_at(ps@, i as int, k as nat),
                gaps@ == gaps0 + gaps_at(ps@, i as int, k as nat),
            decreases list.len() - k,
        {
            let import = &list[k];
            let ghost was = edges@;
            let ghost had = gaps@;
            match &import.target {
                Some(target) => {
                    if let Some(to) = find_path(ps, target.as_str()) {
                        edges.push(
                            CodeEdge {
                                from,
                                to: to as u32,
                                kind: EdgeKind::Import,
                                weight: 1,
                                confidence: Confidence::Scoped,
                            },
                        );
                    }
                },
                None => {
                    if looks_internal(import.spec.as_str()) {
                        gaps.push((ps[i].path.clone(), import.spec.clone()));
                    }
                },
            }
            assert(edges@ =~= edges0 + imports_at(ps@, i as int, (k + 1) as nat));
            assert(gaps@ =~= gaps0 + gaps_at(ps@, i as int, (k + 1) as nat));
            k = k + 1;
        }
        i = i + 1;
    }
    (edges, gaps)
}

/// The places of the symbols of each file.
fn symbols_by_file(symbols: &Vec<CodeSymbol>) -> (m: HashMap<u32, Vec<usize>>)
    ensures
        forall|file: u32| #[trigger]
            listed(m@, file) == places(symbols@.len()).filter(in_file(symbols@, file)),
{
    let mut m: HashMap<u32, Vec<usize>> = HashMap::new();
    let mut i: usize = 0;
    proof {
        reveal(Seq::filter);
        assert forall|file: u32| #[trigger] listed(m@, file) == places(0).filter(
            in_file(symbols@, file),
        ) by {}
    }
    while i < symbols.len()
        invariant
            i <= symbols@.len(),
            forall|file: u32| #[trigger]
                listed(m@, file) == places(i as nat).filter(in_file(symbols@, file)),
        decreases symbols.len() - i,
    {
        let ghost was = m@;
        let file: u32 = symbols[i].file.0;
        let mut row: Vec<usize> = match m.remove(&file) {
            Some(row) => row,
            None => Vec::new(),
        };
        assert(row@ =~= listed(was, file));
        row.push(i);
        m.insert(file, row);
        proof {
            reveal(Seq::filter);
            let next = places((i + 1) as nat);
            assert(next.drop_last() =~= places(i as nat));
            assert forall|f: u32| #[trigger] listed(m@, f) == next.filter(in_file(symbols@, f)) by {
                assert(listed(was, f) == places(i as nat).filter(in_file(symbols@, f)));
                assert(next.last() == i);
                if f == file {
                    assert(listed(m@, f) =~= listed(was, f).push(i));
                } else {
                    assert(listed(m@, f) =~= listed(was, f));
                }
            }
        }
        i = i + 1;
    }
    m
}

spec fn in_file(symbols: Seq<CodeSymbol>, file: u32) -> spec_fn(usize) -> bool {
    |i: usize| i < symbols.len() && symbols[i as int].file.0 == file
}

spec fn listed(m: Map<u32, Vec<usize>>, file: u32) -> Seq<usize> {
    if m.contains_key(file) {
        m[file]@
    } else {
        Seq::empty()
    }
}

/// The caller among the first `n` of the listed symbols.
spec fn caller_in(
    symbols: Seq<CodeSymbol>,
    list: Seq<usize>,
    file: FileId,
    line: u32,
    n: nat,
) -> Option<int>
    decreases n,
{
    if n == 0 {
        None
    } else {
        let before = caller_in(symbols, list, file, line, (n - 1) as nat);
        let at = list[n - 1] as int;
        let s = symbols[at];
        if !spans(s, file, line) {
            before
        } else {
            match before {
                None => Some(at),
                Some(b) => if s.end_line - s.start_line < symbols[b].end_line
                    - symbols[b].start_line {
                    Some(at)
                } else {
                    Some(b)
                },
            }
        }
    }
}

proof fn lemma_caller_in(
    symbols: Seq<CodeSymbol>,
    list: Seq<usize>,
    file: FileId,
    line: u32,
    n: nat,
)
    requires
        n <= symbols.len() <= usize::MAX,
        list == places(n).filter(in_file(symbols, file.0)),
    ensures
        caller_in(symbols, list, file, line, list.len()) == caller_at(symbols, file, line, n),
        forall|k: int| 0 <= k < list.len() ==> #[trigger] list[k] < n,
    decreases n,
{
    reveal(Seq::filter);
    if n > 0 {
        let m = (n - 1) as nat;
        assert(places(n).drop_last() =~= places(m));
        assert(places(n).last() == m);
        let before = places(m).filter(in_file(symbols, file.0));
        lemma_caller_in(symbols, before, file, line, m);
        if symbols[m as int].file.0 == file.0 {
            assert(list == before.push(m as usize));
            assert(list.drop_last() =~= before);
            lemma_caller_in_prefix(symbols, list, before, file, line, before.len());
        } else {
            assert(list == before);
        }
    }
}

proof fn lemma_caller_in_prefix(
    symbols: Seq<CodeSymbol>,
    a: Seq<usize>,
    b: Seq<usize>,
    file: FileId,
    line: u32,
    n: nat,
)
    requires
        n <= a.len(),
        n <= b.len(),
        forall|k: int| 0 <= k < n ==> a[k] == b[k],
    ensures
        caller_in(symbols, a, file, line, n) == caller_in(symbols, b, file, line, n),
    decreases n,
{
    if n > 0 {
        lemma_caller_in_prefix(symbols, a, b, file, line, (n - 1) as nat);
    }
}

/// The caller on a line of a file whose symbols are listed.
fn find_caller(
    symbols: &Vec<CodeSymbol>,
    by_file: &HashMap<u32, Vec<usize>>,
    file: FileId,
    line: u32,
) -> (r: Option<usize>)
    requires
        forall|f: u32| #[trigger]
            listed(by_file@, f) == places(symbols@.len()).filter(in_file(symbols@, f)),
    ensures
        match r {
            Some(b) => caller_at(symbols@, file, line, symbols@.len()) == Some(b as int) && b
                < symbols@.len(),
            None => caller_at(symbols@, file, line, symbols@.len()) is None,
        },
{
    let ghost list = listed(by_file@, file.0);
    let total: usize = symbols.len();
    proof {
        assert(symbols@.len() == total);
        lemma_caller_in(symbols@, list, file, line, symbols@.len());
        lemma_caller(symbols@, file, line, symbols@.len());
    }
    let mut best: Option<usize> = None;
    if let Some(row) = by_file.get(&file.0) {
        let mut k: usize = 0;
        while k < row.len()
            invariant
                k <= row@.len(),
                row@ == list,
                forall|k: int| 0 <= k < list.len() ==> #[trigger] list[k] < symbols@.len(),
                match best {
                    Some(b) => caller_in(symbols@, list, file, line, k as nat) == Some(b as int)
                        && b < symbols@.len() && spans(symbols@[b as int], file, line),
                    None => caller_in(symbols@, list, file, line, k as nat) is None,
                },
            decreases row.len() - k,
        {
            let at: usize = row[k];
            let s = &symbols[at];
            if s.file.0 == file.0 && s.start_line <= line && line <= s.end_line {
                let shorter = match best {
                    None => true,
                    Some(b) => s.end_line - s.start_line < symbols[b].end_line
                        - symbols[b].start_line,
                };
                if shorter {
                    best = Some(at);
                }
            }
            k = k + 1;
        }
    }
    best
}

// --------------------------------------------------------- names of calls

/// [`text::text_le`] of names, on places.
spec fn name_order(symbols: Seq<CodeSymbol>) -> spec_fn(usize, usize) -> bool {
    |a: usize, b: usize|
        b >= symbols.len() || (a < symbols.len() && text::text_le(
            symbols[a as int].name@,
            symbols[b as int].name@,
        ))
}

proof fn lemma_name_order(symbols: Seq<CodeSymbol>)
    ensures
        order::total_preorder(name_order(symbols)),
{
    let le = name_order(symbols);
    assert forall|a: usize, b: usize| #[trigger] le(a, b) || le(b, a) by {
        if a < symbols.len() && b < symbols.len() {
            text::lemma_text_le_total(symbols[a as int].name@, symbols[b as int].name@);
        }
    }
    assert forall|a: usize, b: usize, c: usize| #[trigger] le(a, b) && #[trigger] le(b, c) implies le(
        a,
        c,
    ) by {
        if c < symbols.len() {
            text::lemma_text_le_transitive(
                symbols[a as int].name@,
                symbols[b as int].name@,
                symbols[c as int].name@,
            );
        }
    }
}

/// The places of the symbols in the order of their names.
fn places_by_name(symbols: &Vec<CodeSymbol>) -> (out: Vec<usize>)
    ensures
        out@ == order::arranged(places(symbols@.len()), name_order(symbols@)),
        out@.len() == symbols@.len(),
        forall|k: int| 0 <= k < out@.len() ==> #[trigger] out@[k] < symbols@.len(),
{
    let mut all: Vec<usize> = Vec::new();
    let mut i: usize = 0;
    while i < symbols.len()
        invariant
            i <= symbols@.len(),
            all@ == places(i as nat),
        decreases symbols.len() - i,
    {
        all.push(i);
        assert(all@ =~= places((i + 1) as nat));
        i = i + 1;
    }
    let ghost given = all@;
    let ghost le = name_order(symbols@);
    let f = |a: &usize, b: &usize| -> (r: bool)
        ensures
            r == name_order(symbols@)(*a, *b),
        {
            if *b >= symbols.len() {
                true
            } else if *a >= symbols.len() {
                false
            } else {
                text::at_most(symbols[*a].name.as_str(), symbols[*b].name.as_str())
            }
        };
    proof {
        lemma_name_order(symbols@);
    }
    let out = order::sort_by(all, &f, Ghost(le));
    proof {
        order::lemma_arranged(given, le);
        assert forall|k: int| 0 <= k < out@.len() implies #[trigger] out@[k] < symbols@.len() by {
            assert(out@.contains(out@[k]));
            assert(given.contains(out@[k]));
        }
    }
    out
}

proof fn lemma_filter_block(s: Seq<usize>, p: spec_fn(usize) -> bool, lo: int, hi: int)
    requires
        0 <= lo <= hi <= s.len(),
        forall|k: int| lo <= k < hi ==> p(#[trigger] s[k]),
        forall|k: int| 0 <= k < lo || hi <= k < s.len() ==> !p(#[trigger] s[k]),
    ensures
        s.filter(p) == s.subrange(lo, hi),
    decreases s.len(),
{
    reveal(Seq::filter);
    if s.len() > 0 {
        let t = s.drop_last();
        if hi == s.len() && lo < hi {
            assert forall|k: int| lo <= k < hi - 1 implies p(#[trigger] t[k]) by {
                assert(t[k] == s[k]);
            }
            lemma_filter_block(t, p, lo, hi - 1);
            assert(p(s[s.len() - 1]));
            assert(s.subrange(lo, hi) =~= t.subrange(lo, hi - 1).push(s.last()));
        } else if hi == s.len() {
            lemma_filter_block(t, p, lo - 1, hi - 1);
            assert(!p(s[s.len() - 1]));
            assert(s.subrange(lo, hi) =~= t.subrange(lo - 1, hi - 1));
        } else {
            assert forall|k: int| lo <= k < hi implies p(#[trigger] t[k]) by {
                assert(t[k] == s[k]);
            }
            lemma_filter_block(t, p, lo, hi);
            assert(!p(s[s.len() - 1]));
            assert(s.subrange(lo, hi) =~= t.subrange(lo, hi));
        }
    } else {
        assert(s.subrange(lo, hi) =~= Seq::<usize>::empty());
    }
}

/// The places of the symbols of this name, found by halving.
fn find_targets(symbols: &Vec<CodeSymbol>, by_name: &Vec<usize>, name: &str) -> (out: Vec<usize>)
    requires
        by_name@ == order::arranged(places(symbols@.len()), name_order(symbols@)),
        by_name@.len() == symbols@.len(),
        forall|k: int| 0 <= k < by_name@.len() ==> #[trigger] by_name@[k] < symbols@.len(),
    ensures
        out@ == targets_of(symbols@, name@),
        forall|k: int| 0 <= k < out@.len() ==> #[trigger] out@[k] < symbols@.len(),
{
    let ghost le = name_order(symbols@);
    let ghost p = has_name(symbols@, name@);
    proof {
        lemma_name_order(symbols@);
        order::lemma_arranged(places(symbols@.len()), le);
    }
    let mut lo: usize = 0;
    let mut hi: usize = by_name.len();
    while lo < hi
        invariant
            lo <= hi <= by_name@.len(),
            le == name_order(symbols@),
            order::is_sorted(by_name@, le),
            forall|k: int| 0 <= k < by_name@.len() ==> #[trigger] by_name@[k] < symbols@.len(),
            forall|k: int|
                0 <= k < lo ==> !text::text_le(
                    name@,
                    symbols@[#[trigger] by_name@[k] as int].name@,
                ),
            forall|k: int|
                hi <= k < by_name@.len() ==> text::text_le(
                    name@,
                    symbols@[#[trigger] by_name@[k] as int].name@,
                ),
        decreases hi - lo,
    {
        let mid: usize = lo + (hi - lo) / 2;
        let ghost here = symbols@[by_name@[mid as int] as int].name@;
        if text::at_most(name, symbols[by_name[mid]].name.as_str()) {
            assert forall|k: int| mid <= k < by_name@.len() implies text::text_le(
                name@,
                symbols@[#[trigger] by_name@[k] as int].name@,
            ) by {
                if k > mid {
                    assert(le(by_name@[mid as int], by_name@[k]));
                    text::lemma_text_le_transitive(
                        name@,
                        here,
                        symbols@[by_name@[k] as int].name@,
                    );
                }
            }
            hi = mid;
        } else {
            assert forall|k: int| 0 <= k < mid + 1 implies !text::text_le(
                name@,
                symbols@[#[trigger] by_name@[k] as int].name@,
            ) by {
                if k < mid {
                    let there = symbols@[by_name@[k] as int].name@;
                    assert(le(by_name@[k], by_name@[mid as int]));
                    if text::text_le(name@, there) {
                        text::lemma_text_le_transitive(name@, there, here);
                    }
                }
            }
            lo = mid + 1;
        }
    }
    let first: usize = lo;
    let mut out: Vec<usize> = Vec::new();
    let mut at: usize = first;
    assert(out@ =~= by_name@.subrange(first as int, first as int));
    while at < by_name.len() && text::same(symbols[by_name[at]].name.as_str(), name)
        invariant
            first <= at <= by_name@.len(),
            forall|k: int| 0 <= k < by_name@.len() ==> #[trigger] by_name@[k] < symbols@.len(),
            p == has_name(symbols@, name@),
            out@ == by_name@.subrange(first as int, at as int),
            forall|k: int| first <= k < at ==> p(#[trigger] by_name@[k]),
            forall|k: int| 0 <= k < out@.len() ==> #[trigger] out@[k] < symbols@.len(),
        decreases by_name.len() - at,
    {
        out.push(by_name[at]);
        assert(out@ =~= by_name@.subrange(first as int, at as int + 1));
        at = at + 1;
    }
    proof {
        text::lemma_text_le_total(name@, name@);
        assert forall|k: int| 0 <= k < first implies !p(#[trigger] by_name@[k]) by {}
        assert forall|k: int| at <= k < by_name@.len() implies !p(#[trigger] by_name@[k]) by {
            let here = symbols@[by_name@[at as int] as int].name@;
            let there = symbols@[by_name@[k] as int].name@;
            assert(text::text_le(name@, here));
            if k > at {
                assert(le(by_name@[at as int], by_name@[k]));
                if there == name@ {
                    text::lemma_text_le_antisymmetric(name@, here);
                }
            }
        }
        lemma_filter_block(by_name@, p, first as int, at as int);
        assert forall|a: usize, b: usize| #[trigger] p(a) && #[trigger] p(b) implies le(a, b) by {}
        order::lemma_arranged_filter(places(symbols@.len()), le, p);
    }
    out
}

/// The edges of one call.
fn call_edges_of(
    symbols: &Vec<CodeSymbol>,
    by_file: &HashMap<u32, Vec<usize>>,
    by_name: &Vec<usize>,
    file: FileId,
    call: &Call,
) -> (out: Vec<CodeEdge>)
    requires
        forall|f: u32| #[trigger]
            listed(by_file@, f) == places(symbols@.len()).filter(in_file(symbols@, f)),
        by_name@ == order::arranged(places(symbols@.len()), name_order(symbols@)),
        by_name@.len() == symbols@.len(),
        forall|k: int| 0 <= k < by_name@.len() ==> #[trigger] by_name@[k] < symbols@.len(),
    ensures
        out@ == edges_of_call(symbols@, file, *call),
{
    let mut out: Vec<CodeEdge> = Vec::new();
    if let Some(b) = find_caller(symbols, by_file, file, call.line) {
        let caller = symbols[b].id;
        let short = short_callee(call.callee.as_str());
        let targets = find_targets(symbols, by_name, short.as_str());
        if targets.len() <= MAX_SYNTACTIC_CALL_TARGETS {
            let mut k: usize = 0;
            while k < targets.len()
                invariant
                    k <= targets@.len(),
                    forall|k: int| 0 <= k < targets@.len() ==> #[trigger] targets@[k] < symbols@.len(),
                    out@ == edges_to(symbols@, caller, targets@, k as nat),
                decreases targets.len() - k,
            {
                let target = symbols[targets[k]].id;
                if target.0 != caller.0 {
                    out.push(
                        CodeEdge {
                            from: caller.0,
                            to: target.0,
                            kind: EdgeKind::Call,
                            weight: 1,
                            confidence: Confidence::Syntactic,
                        },
                    );
                }
                k = k + 1;
            }
        }
    }
    out
}

/// The call edges of all files.
fn build_calls(ps: &Vec<ParsedSource>, ids: &Vec<u32>, symbols: &Vec<CodeSymbol>) -> (out: Vec<
    CodeEdge,
>)
    requires
        ids@.len() == ps@.len(),
        forall|i: int| 0 <= i < ids@.len() ==> FileId(#[trigger] ids@[i]) == own_id(ps@, i),
    ensures
        out@ == calls_of(ps@, symbols@, ps@.len()),
{
    let by_file = symbols_by_file(symbols);
    let by_name = places_by_name(symbols);
    let mut out: Vec<CodeEdge> = Vec::new();
    let mut i: usize = 0;
    while i < ps.len()
        invariant
            i <= ps@.len(),
            ids@.len() == ps@.len(),
            forall|i: int| 0 <= i < ids@.len() ==> FileId(#[trigger] ids@[i]) == own_id(ps@, i),
            forall|f: u32| #[trigger]
                listed(by_file@, f) == places(symbols@.len()).filter(in_file(symbols@, f)),
            by_name@ == order::arranged(places(symbols@.len()), name_order(symbols@)),
            by_name@.len() == symbols@.len(),
            forall|k: int| 0 <= k < by_name@.len() ==> #[trigger] by_name@[k] < symbols@.len(),
            out@ == calls_of(ps@, symbols@, i as nat),
        decreases ps.len() - i,
    {
        let ghost before = out@;
        let file = FileId(ids[i]);
        assert(file == own_id(ps@, i as int));
        let list = &ps[i].calls;
        let mut k: usize = 0;
        assert(before + calls_at(ps@, symbols@, i as int, 0) =~= before);
        while k < list.len()
            invariant
                k <= list@.len(),
                i < ps@.len(),
                list@ == ps@[i as int].calls@,
                file == own_id(ps@, i as int),
                forall|f: u32| #[trigger]
                    listed(by_file@, f) == places(symbols@.len()).filter(in_file(symbols@, f)),
                by_name@ == order::arranged(places(symbols@.len()), name_order(symbols@)),
                by_name@.len() == symbols@.len(),
                forall|k: int| 0 <= k < by_name@.len() ==> #[trigger] by_name@[k] < symbols@.len(),
                out@ == before + calls_at(ps@, symbols@, i as int, k as nat),
            decreases list.len() - k,
        {
            let mut more = call_edges_of(symbols, &by_file, &by_name, file, &list[k]);
            out.append(&mut more);
            assert(out@ =~= before + calls_at(ps@, symbols@, i as int, (k + 1) as nat));
            k = k + 1;
        }
        i = i + 1;
    }
    out
}

proof fn lemma_imports_fresh(ps: Seq<ParsedSource>, n: nat)
    ensures
        are_fresh(imports_of(ps, n)),
    decreases n,
{
    if n > 0 {
        lemma_imports_fresh(ps, (n - 1) as nat);
        lemma_imports_at_fresh(ps, n - 1, ps[n - 1].imports@.len());
    }
}

proof fn lemma_imports_at_fresh(ps: Seq<ParsedSource>, i: int, m: nat)
    ensures
        are_fresh(imports_at(ps, i, m)),
    decreases m,
{
    if m > 0 {
        lemma_imports_at_fresh(ps, i, (m - 1) as nat);
    }
}

proof fn lemma_calls_fresh(ps: Seq<ParsedSource>, symbols: Seq<CodeSymbol>, n: nat)
    ensures
        are_fresh(calls_of(ps, symbols, n)),
    decreases n,
{
    if n > 0 {
        lemma_calls_fresh(ps, symbols, (n - 1) as nat);
        lemma_calls_at_fresh(ps, symbols, n - 1, ps[n - 1].calls@.len());
    }
}

proof fn lemma_calls_at_fresh(ps: Seq<ParsedSource>, symbols: Seq<CodeSymbol>, i: int, m: nat)
    ensures
        are_fresh(calls_at(ps, symbols, i, m)),
    decreases m,
{
    if m > 0 {
        lemma_calls_at_fresh(ps, symbols, i, (m - 1) as nat);
        let call = ps[i].calls@[m - 1];
        let targets = targets_of(symbols, short_name(call.callee@));
        match caller_at(symbols, own_id(ps, i), call.line, symbols.len()) {
            Some(b) => {
                lemma_edges_to_fresh(symbols, symbols[b].id, targets, targets.len());
            },
            None => {},
        }
    }
}

proof fn lemma_edges_to_fresh(
    symbols: Seq<CodeSymbol>,
    caller: SymbolId,
    targets: Seq<usize>,
    m: nat,
)
    ensures
        are_fresh(edges_to(symbols, caller, targets, m)),
    decreases m,
{
    if m > 0 {
        lemma_edges_to_fresh(symbols, caller, targets, (m - 1) as nat);
    }
}

/// Edges that are imports.
pub open spec fn is_import() -> spec_fn(CodeEdge) -> bool {
    |e: CodeEdge| e.kind == EdgeKind::Import
}

/// `g` is the graph of the parsed files `ps`, which are in the order of their
/// paths.
pub open spec fn is_graph_of(g: CodeGraph, ps: Seq<ParsedSource>, call_edges: bool) -> bool {
    &&& g.files@ == files_of(ps)
    &&& g.symbols@ == symbols_of(ps, ps.len())
    &&& are_merged(g.edges@, raw_edges(ps, call_edges))
}

/// `r` reports on the graph `g` of `ps`.
pub open spec fn is_report_of(
    r: IndexReport,
    g: CodeGraph,
    ps: Seq<ParsedSource>,
    scanned: usize,
    failures: Seq<(RelPath, String)>,
) -> bool {
    &&& r.files_scanned == scanned
    &&& r.files_parsed == ps.len()
    &&& r.symbols == g.symbols@.len()
    &&& r.import_edges == g.edges@.filter(is_import()).len()
    &&& r.parse_failures@ == order::arranged(failures, note_order())
    &&& r.unresolved_imports@ == order::arranged(gaps_of(ps, ps.len()), note_order())
}

/// The languages whose build configuration can name directories of generated
/// files, in the order in which they are asked.
pub fn configured_languages() -> (out: Vec<Language>)
    ensures
        out@ == seq![
            Language::Python,
            Language::Go,
            Language::Java,
            Language::Rust,
            Language::TypeScript,
        ],
{
    vec![Language::Python, Language::Go, Language::Java, Language::Rust, Language::TypeScript]
}

/// What came of parsing one file.
#[derive(Debug)]
pub enum Outcome {
    Parsed(ParsedSource),
    /// The file could not be read.
    Unreadable(RelPath, String),
    /// The file was read and could not be parsed.
    Rejected(RelPath, String),
}

/// The files that were parsed.
pub open spec fn parsed_in(outcomes: Seq<Outcome>) -> Seq<ParsedSource>
    decreases outcomes.len(),
{
    if outcomes.len() == 0 {
        Seq::empty()
    } else {
        let before = parsed_in(outcomes.drop_last());
        match outcomes.last() {
            Outcome::Parsed(p) => before.push(p),
            _ => before,
        }
    }
}

/// The path of a file that could not be parsed, and the reason.
pub open spec fn failure_of(outcome: Outcome) -> Option<(Seq<char>, Seq<char>)> {
    match outcome {
        Outcome::Parsed(_) => None,
        Outcome::Unreadable(path, why) => Some((path@, "read: "@ + why@)),
        Outcome::Rejected(path, why) => Some((path@, why@)),
    }
}

/// The files that could not be parsed, with the reasons.
pub open spec fn failed_in(outcomes: Seq<Outcome>) -> Seq<(Seq<char>, Seq<char>)>
    decreases outcomes.len(),
{
    if outcomes.len() == 0 {
        Seq::empty()
    } else {
        let before = failed_in(outcomes.drop_last());
        match failure_of(outcomes.last()) {
            Some(f) => before.push(f),
            None => before,
        }
    }
}

/// Paths and reasons as texts.
pub open spec fn note_texts(notes: Seq<(RelPath, String)>) -> Seq<(Seq<char>, Seq<char>)> {
    notes.map_values(|n: (RelPath, String)| (n.0@, n.1@))
}

/// Parts the files that were parsed from those that were not. None is dropped.
pub fn gather(outcomes: Vec<Outcome>) -> (r: (Vec<ParsedSource>, Vec<(RelPath, String)>))
    ensures
        r.0@ == parsed_in(outcomes@),
        note_texts(r.1@) == failed_in(outcomes@),
        r.0@.len() + r.1@.len() == outcomes@.len(),
{
    let ghost all = outcomes@;
    let mut parsed: Vec<ParsedSource> = Vec::new();
    let mut failed: Vec<(RelPath, String)> = Vec::new();
    assert(all.take(0) =~= Seq::<Outcome>::empty());
    assert(note_texts(failed@) =~= failed_in(all.take(0)));
    for outcome in it: outcomes
        invariant
            it.seq() == all,
            parsed@ == parsed_in(all.take(it.index() as int)),
            note_texts(failed@) == failed_in(all.take(it.index() as int)),
            parsed@.len() + failed@.len() == it.index(),
    {
        let ghost before = note_texts(failed@);
        assert(all.take(it.index() as int + 1).drop_last() =~= all.take(it.index() as int));
        match outcome {
            Outcome::Parsed(p) => parsed.push(p),
            Outcome::Unreadable(path, why) => {
                failed.push((path, String::from_str("read: ").concat(why.as_str())));
                assert(note_texts(failed@) =~= before.push((path@, "read: "@ + why@)));
            },
            Outcome::Rejected(path, why) => {
                failed.push((path, why));
                assert(note_texts(failed@) =~= before.push((path@, why@)));
            },
        }
    }
    assert(all.take(all.len() as int) =~= all);
    (parsed, failed)
}

/// Builds the graph of a repository from its parsed files, and reports on it.
///
/// `parsed` may come in any order, and so may `failures`.
pub fn index_repo(
    parsed: Vec<ParsedSource>,
    failures: Vec<(RelPath, String)>,
    files_scanned: usize,
    opts: &IndexOptions,
) -> (r: (CodeGraph, IndexReport))
    requires
        parsed@.len() <= u32::MAX,
        symbols_of(order::arranged(parsed@, source_order()), parsed@.len()).len() <= u32::MAX,
        forall|e: CodeEdge| #[trigger]
            count_like(
                raw_edges(order::arranged(parsed@, source_order()), opts.call_edges),
                e,
            ) <= u32::MAX,
    ensures
        is_graph_of(r.0, order::arranged(parsed@, source_order()), opts.call_edges),
        is_report_of(
            r.1,
            r.0,
            order::arranged(parsed@, source_order()),
            files_scanned,
            failures@,
        ),
{
    let ghost given = parsed@;
    let ghost sorted = order::arranged(parsed@, source_order());
    proof {
        lemma_source_order();
        lemma_note_order();
        order::lemma_arranged(given, source_order());
    }
    let ps = order::sort_by(parsed, &source_before, Ghost(source_order()));
    let parse_failures = order::sort_by(failures, &note_before, Ghost(note_order()));
    let ids = own_ids(&ps);
    let files = build_files(&ps);
    let symbols = build_symbols(&ps, &ids);
    let (mut edges, gaps) = build_imports(&ps, &ids);
    if opts.call_edges {
        let mut calls = build_calls(&ps, &ids, &symbols);
        edges.append(&mut calls);
    }
    proof {
        lemma_imports_fresh(sorted, sorted.len());
        lemma_calls_fresh(sorted, symbols_of(sorted, sorted.len()), sorted.len());
        assert(edges@ == raw_edges(sorted, opts.call_edges));
        assert(are_fresh(edges@));
    }
    let merged = merge_edges(edges);
    let mut import_edges: usize = 0;
    let mut i: usize = 0;
    proof {
        reveal(Seq::filter);
    }
    assert(merged@.take(0) =~= Seq::<CodeEdge>::empty());
    while i < merged.len()
        invariant
            i <= merged@.len(),
            import_edges <= i,
            import_edges == merged@.take(i as int).filter(is_import()).len(),
        decreases merged.len() - i,
    {
        proof {
            reveal(Seq::filter);
            assert(merged@.take(i as int + 1).drop_last() =~= merged@.take(i as int));
        }
        if merged[i].kind == EdgeKind::Import {
            import_edges = import_edges + 1;
        }
        i = i + 1;
    }
    assert(merged@.take(merged@.len() as int) =~= merged@);
    let unresolved_imports = order::sort_by(gaps, &note_before, Ghost(note_order()));
    let report = IndexReport {
        files_scanned,
        files_parsed: ps.len(),
        parse_failures,
        unresolved_imports,
        import_edges,
        symbols: symbols.len(),
    };
    (CodeGraph { files, symbols, edges: merged }, report)
}

// ------------------------------------------------------------------ laws

/// No two files have the same path.
pub open spec fn distinct_paths(ps: Seq<ParsedSource>) -> bool {
    forall|i: int, j: int|
        0 <= i < j < ps.len() ==> (#[trigger] ps[i]).path@ != (#[trigger] ps[j]).path@
}

/// No two notes are about the same file.
pub open spec fn distinct_notes(notes: Seq<(RelPath, String)>) -> bool {
    forall|i: int, j: int|
        0 <= i < j < notes.len() ==> (#[trigger] notes[i]).0@ != (#[trigger] notes[j]).0@
}

/// Two sequences hold the same elements.
pub open spec fn same_elements<T>(a: Seq<T>, b: Seq<T>) -> bool {
    forall|x: T| #[trigger] a.contains(x) <==> b.contains(x)
}

proof fn lemma_sources_any_order(a: Seq<ParsedSource>, b: Seq<ParsedSource>)
    requires
        distinct_paths(a),
        distinct_paths(b),
        same_elements(a, b),
    ensures
        order::arranged(a, source_order()) == order::arranged(b, source_order()),
{
    let le = source_order();
    lemma_source_order();
    assert(order::no_ties(a, le)) by {
        assert forall|x: ParsedSource, y: ParsedSource|
            a.contains(x) && a.contains(y) && #[trigger] le(x, y) && #[trigger] le(
                y,
                x,
            ) implies x == y by {
            text::lemma_text_le_antisymmetric(x.path@, y.path@);
            let i = choose|i: int| 0 <= i < a.len() && a[i] == x;
            let j = choose|j: int| 0 <= j < a.len() && a[j] == y;
            if i < j {
                assert(a[i].path@ != a[j].path@);
            } else if j < i {
                assert(a[j].path@ != a[i].path@);
            }
        }
    }
    order::lemma_arranged_any_order(a, b, le);
}

proof fn lemma_notes_any_order(a: Seq<(RelPath, String)>, b: Seq<(RelPath, String)>)
    requires
        distinct_notes(a),
        distinct_notes(b),
        same_elements(a, b),
    ensures
        order::arranged(a, note_order()) == order::arranged(b, note_order()),
{
    let le = note_order();
    lemma_note_order();
    assert(order::no_ties(a, le)) by {
        assert forall|x: (RelPath, String), y: (RelPath, String)|
            a.contains(x) && a.contains(y) && #[trigger] le(x, y) && #[trigger] le(
                y,
                x,
            ) implies x == y by {
            if x.0@ != y.0@ {
                text::lemma_text_le_antisymmetric(x.0@, y.0@);
            }
            let i = choose|i: int| 0 <= i < a.len() && a[i] == x;
            let j = choose|j: int| 0 <= j < a.len() && a[j] == y;
            if i < j {
                assert(a[i].0@ != a[j].0@);
            } else if j < i {
                assert(a[j].0@ != a[i].0@);
            }
        }
    }
    order::lemma_arranged_any_order(a, b, le);
}

pub(crate) proof fn lemma_count_witness(raw: Seq<CodeEdge>, e: CodeEdge)
    requires
        count_like(raw, e) > 0,
    ensures
        exists|k: int| 0 <= k < raw.len() && same_edge(#[trigger] raw[k], e),
    decreases raw.len(),
{
    reveal(Seq::filter);
    if raw.len() > 0 {
        let front = raw.drop_last();
        if same_edge(raw.last(), e) {
            assert(same_edge(raw[raw.len() - 1], e));
        } else {
            lemma_count_witness(front, e);
            let k = choose|k: int| 0 <= k < front.len() && same_edge(#[trigger] front[k], e);
            assert(raw[k] == front[k]);
        }
    }
}

proof fn lemma_merged_within(a: Seq<CodeEdge>, b: Seq<CodeEdge>, raw: Seq<CodeEdge>, k: int)
    requires
        are_merged(a, raw),
        are_merged(b, raw),
        0 <= k < a.len(),
    ensures
        b.contains(a[k]),
{
    let e = a[k];
    lemma_count_witness(raw, e);
    let r = choose|r: int| 0 <= r < raw.len() && same_edge(#[trigger] raw[r], e);
    assert(holds_like(b, raw[r]));
    let m = choose|m: int| 0 <= m < b.len() && same_edge(#[trigger] b[m], raw[r]);
    assert(like(b[m]) =~= like(e));
    assert(b[m] == e);
}

/// Merging leaves no choice.
pub proof fn lemma_merged_unique(a: Seq<CodeEdge>, b: Seq<CodeEdge>, raw: Seq<CodeEdge>)
    requires
        are_merged(a, raw),
        are_merged(b, raw),
    ensures
        a == b,
{
    let le = edge_order();
    assert(order::total_preorder(le));
    assert forall|x: CodeEdge| #[trigger] a.contains(x) <==> b.contains(x) by {
        if a.contains(x) {
            let k = choose|k: int| 0 <= k < a.len() && a[k] == x;
            lemma_merged_within(a, b, raw, k);
        }
        if b.contains(x) {
            let k = choose|k: int| 0 <= k < b.len() && b[k] == x;
            lemma_merged_within(b, a, raw, k);
        }
    }
    assert(order::no_ties(a, le)) by {
        assert forall|x: CodeEdge, y: CodeEdge|
            a.contains(x) && a.contains(y) && #[trigger] le(x, y) && #[trigger] le(
                y,
                x,
            ) implies x == y by {
            let i = choose|i: int| 0 <= i < a.len() && a[i] == x;
            let j = choose|j: int| 0 <= j < a.len() && a[j] == y;
            if i < j {
                assert(!same_edge(a[i], a[j]));
            } else if j < i {
                assert(!same_edge(a[j], a[i]));
            }
        }
    }
    assert(a.no_duplicates());
    assert(b.no_duplicates());
    order::lemma_sorted_same_set(a, b, le);
}

/// The same files always give the same graph and the same report, in whatever
/// order they were parsed and in whatever order they failed.
pub proof fn law_index_ignores_order(
    a: Seq<ParsedSource>,
    b: Seq<ParsedSource>,
    failed_a: Seq<(RelPath, String)>,
    failed_b: Seq<(RelPath, String)>,
    scanned: usize,
    call_edges: bool,
    g: CodeGraph,
    h: CodeGraph,
    r: IndexReport,
    s: IndexReport,
)
    requires
        distinct_paths(a),
        distinct_paths(b),
        same_elements(a, b),
        distinct_notes(failed_a),
        distinct_notes(failed_b),
        same_elements(failed_a, failed_b),
        is_graph_of(g, order::arranged(a, source_order()), call_edges),
        is_graph_of(h, order::arranged(b, source_order()), call_edges),
        is_report_of(r, g, order::arranged(a, source_order()), scanned, failed_a),
        is_report_of(s, h, order::arranged(b, source_order()), scanned, failed_b),
    ensures
        g.files@ == h.files@,
        g.symbols@ == h.symbols@,
        g.edges@ == h.edges@,
        r.files_scanned == s.files_scanned,
        r.files_parsed == s.files_parsed,
        r.symbols == s.symbols,
        r.import_edges == s.import_edges,
        r.parse_failures@ == s.parse_failures@,
        r.unresolved_imports@ == s.unresolved_imports@,
{
    lemma_sources_any_order(a, b);
    lemma_notes_any_order(failed_a, failed_b);
    lemma_merged_unique(
        g.edges@,
        h.edges@,
        raw_edges(order::arranged(a, source_order()), call_edges),
    );
}

proof fn lemma_symbol_ids(ps: Seq<ParsedSource>, n: nat, k: int)
    requires
        n <= ps.len(),
        0 <= k < symbols_of(ps, n).len(),
        symbols_of(ps, n).len() <= u32::MAX,
    ensures
        symbols_of(ps, n)[k].id.0 == k,
    decreases n,
{
    if n > 0 {
        let before = symbols_of(ps, (n - 1) as nat);
        if k < before.len() {
            lemma_symbol_ids(ps, (n - 1) as nat, k);
        }
    }
}

/// No file goes missing: each one that was tried counts among those that were
/// parsed or is listed among those that were not, with the reason.
pub proof fn law_no_file_is_dropped(
    outcomes: Seq<Outcome>,
    failures: Seq<(RelPath, String)>,
    g: CodeGraph,
    r: IndexReport,
    scanned: usize,
)
    requires
        note_texts(failures) == failed_in(outcomes),
        is_report_of(
            r,
            g,
            order::arranged(parsed_in(outcomes), source_order()),
            scanned,
            failures,
        ),
    ensures
        r.files_parsed + r.parse_failures@.len() == outcomes.len(),
        forall|k: int|
            0 <= k < outcomes.len() ==> (failure_of(#[trigger] outcomes[k]) matches Some(f)
                ==> note_texts(r.parse_failures@).contains(f)),
{
    lemma_source_order();
    lemma_note_order();
    order::lemma_arranged(parsed_in(outcomes), source_order());
    order::lemma_arranged(failures, note_order());
    lemma_all_gathered(outcomes);
    assert(note_texts(failures).len() == failures.len());
    assert forall|k: int| 0 <= k < outcomes.len() implies (failure_of(#[trigger] outcomes[k])
        matches Some(f) ==> note_texts(r.parse_failures@).contains(f)) by {
        if let Some(f) = failure_of(outcomes[k]) {
            assert(note_texts(failures).contains(f));
            let i = choose|i: int| 0 <= i < failures.len() && note_texts(failures)[i] == f;
            assert(failures.contains(failures[i]));
            assert(r.parse_failures@.contains(failures[i]));
            let j = choose|j: int|
                0 <= j < r.parse_failures@.len() && r.parse_failures@[j] == failures[i];
            assert(note_texts(r.parse_failures@)[j] == f);
        }
    }
}

proof fn lemma_all_gathered(outcomes: Seq<Outcome>)
    ensures
        parsed_in(outcomes).len() + failed_in(outcomes).len() == outcomes.len(),
        forall|k: int|
            0 <= k < outcomes.len() ==> (failure_of(#[trigger] outcomes[k]) matches Some(f)
                ==> failed_in(outcomes).contains(f)),
    decreases outcomes.len(),
{
    if outcomes.len() > 0 {
        let front = outcomes.drop_last();
        lemma_all_gathered(front);
        let all = failed_in(outcomes);
        assert forall|k: int| 0 <= k < outcomes.len() implies (failure_of(#[trigger] outcomes[k])
            matches Some(f) ==> all.contains(f)) by {
            if let Some(f) = failure_of(outcomes[k]) {
                if k < front.len() {
                    assert(front[k] == outcomes[k]);
                    let i = choose|i: int|
                        0 <= i < failed_in(front).len() && failed_in(front)[i] == f;
                    assert(all[i] == f);
                } else {
                    assert(all[all.len() - 1] == f);
                }
            }
        }
    }
}

/// Files and symbols are numbered by their places.
pub proof fn law_numbers_are_places(g: CodeGraph, ps: Seq<ParsedSource>, call_edges: bool)
    requires
        is_graph_of(g, ps, call_edges),
        ps.len() <= u32::MAX,
        symbols_of(ps, ps.len()).len() <= u32::MAX,
    ensures
        forall|i: int| 0 <= i < g.files@.len() ==> (#[trigger] g.files@[i]).id.0 == i,
        forall|k: int| 0 <= k < g.symbols@.len() ==> (#[trigger] g.symbols@[k]).id.0 == k,
{
    assert forall|k: int| 0 <= k < g.symbols@.len() implies (#[trigger] g.symbols@[k]).id.0
        == k by {
        lemma_symbol_ids(ps, ps.len(), k);
    }
}

/// Both ends of an edge are files, or both are symbols.
pub open spec fn ends_known(e: CodeEdge, files: nat, symbols: nat) -> bool {
    match e.kind {
        EdgeKind::Import => e.from < files && e.to < files,
        EdgeKind::Call => e.from < symbols && e.to < symbols,
    }
}

spec fn all_known(edges: Seq<CodeEdge>, files: nat, symbols: nat) -> bool {
    forall|k: int| 0 <= k < edges.len() ==> ends_known(#[trigger] edges[k], files, symbols)
}

proof fn lemma_known_concat(a: Seq<CodeEdge>, b: Seq<CodeEdge>, files: nat, symbols: nat)
    requires
        all_known(a, files, symbols),
        all_known(b, files, symbols),
    ensures
        all_known(a + b, files, symbols),
{
    let c = a + b;
    assert forall|k: int| 0 <= k < c.len() implies ends_known(#[trigger] c[k], files, symbols) by {
        if k < a.len() {
            assert(c[k] == a[k]);
        } else {
            assert(c[k] == b[k - a.len()]);
        }
    }
}

proof fn lemma_imports_at_known(ps: Seq<ParsedSource>, i: int, m: nat, symbols: nat)
    requires
        0 <= i < ps.len(),
        ps.len() <= u32::MAX,
    ensures
        all_known(imports_at(ps, i, m), ps.len(), symbols),
    decreases m,
{
    if m > 0 {
        lemma_imports_at_known(ps, i, (m - 1) as nat, symbols);
        lemma_own_id(ps, i);
        lemma_id_of(ps, ps[i].path@, ps.len());
        if let Some(path) = ps[i].imports@[m - 1].target {
            lemma_id_of(ps, path@, ps.len());
        }
    }
}

proof fn lemma_imports_known(ps: Seq<ParsedSource>, n: nat, symbols: nat)
    requires
        n <= ps.len(),
        ps.len() <= u32::MAX,
    ensures
        all_known(imports_of(ps, n), ps.len(), symbols),
    decreases n,
{
    if n > 0 {
        lemma_imports_known(ps, (n - 1) as nat, symbols);
        lemma_imports_at_known(ps, n - 1, ps[n - 1].imports@.len(), symbols);
        lemma_known_concat(
            imports_of(ps, (n - 1) as nat),
            imports_at(ps, n - 1, ps[n - 1].imports@.len()),
            ps.len(),
            symbols,
        );
    }
}

spec fn numbered(symbols: Seq<CodeSymbol>) -> bool {
    forall|k: int| 0 <= k < symbols.len() ==> (#[trigger] symbols[k]).id.0 == k
}

proof fn lemma_edges_to_known(
    symbols: Seq<CodeSymbol>,
    caller: SymbolId,
    targets: Seq<usize>,
    m: nat,
    files: nat,
)
    requires
        numbered(symbols),
        caller.0 < symbols.len(),
        m <= targets.len(),
        forall|k: int| 0 <= k < targets.len() ==> (#[trigger] targets[k]) < symbols.len(),
    ensures
        all_known(edges_to(symbols, caller, targets, m), files, symbols.len()),
    decreases m,
{
    if m > 0 {
        lemma_edges_to_known(symbols, caller, targets, (m - 1) as nat, files);
        assert(targets[m - 1] < symbols.len());
    }
}

proof fn lemma_targets(symbols: Seq<CodeSymbol>, name: Seq<char>, k: int)
    requires
        0 <= k < targets_of(symbols, name).len(),
    ensures
        targets_of(symbols, name)[k] < symbols.len(),
{
    let t = targets_of(symbols, name);
    places(symbols.len()).lemma_filter_pred(has_name(symbols, name), k);
}

proof fn lemma_call_known(symbols: Seq<CodeSymbol>, file: FileId, call: Call, files: nat)
    requires
        numbered(symbols),
    ensures
        all_known(edges_of_call(symbols, file, call), files, symbols.len()),
{
    let targets = targets_of(symbols, short_name(call.callee@));
    lemma_caller(symbols, file, call.line, symbols.len());
    if let Some(b) = caller_at(symbols, file, call.line, symbols.len()) {
        assert forall|k: int| 0 <= k < targets.len() implies (#[trigger] targets[k])
            < symbols.len() by {
            lemma_targets(symbols, short_name(call.callee@), k);
        }
        lemma_edges_to_known(symbols, symbols[b].id, targets, targets.len(), files);
    }
}

proof fn lemma_calls_at_known(
    ps: Seq<ParsedSource>,
    symbols: Seq<CodeSymbol>,
    i: int,
    m: nat,
    files: nat,
)
    requires
        numbered(symbols),
    ensures
        all_known(calls_at(ps, symbols, i, m), files, symbols.len()),
    decreases m,
{
    if m > 0 {
        lemma_calls_at_known(ps, symbols, i, (m - 1) as nat, files);
        lemma_call_known(symbols, own_id(ps, i), ps[i].calls@[m - 1], files);
        lemma_known_concat(
            calls_at(ps, symbols, i, (m - 1) as nat),
            edges_of_call(symbols, own_id(ps, i), ps[i].calls@[m - 1]),
            files,
            symbols.len(),
        );
    }
}

proof fn lemma_calls_known(
    ps: Seq<ParsedSource>,
    symbols: Seq<CodeSymbol>,
    n: nat,
    files: nat,
)
    requires
        numbered(symbols),
    ensures
        all_known(calls_of(ps, symbols, n), files, symbols.len()),
    decreases n,
{
    if n > 0 {
        lemma_calls_known(ps, symbols, (n - 1) as nat, files);
        lemma_calls_at_known(ps, symbols, n - 1, ps[n - 1].calls@.len(), files);
        lemma_known_concat(
            calls_of(ps, symbols, (n - 1) as nat),
            calls_at(ps, symbols, n - 1, ps[n - 1].calls@.len()),
            files,
            symbols.len(),
        );
    }
}

/// Every edge of a graph joins two of its files, if it is an import, or two of its
/// symbols, if it is a call.
pub proof fn law_edges_join_known_ends(
    g: CodeGraph,
    ps: Seq<ParsedSource>,
    call_edges: bool,
    k: int,
)
    requires
        is_graph_of(g, ps, call_edges),
        ps.len() <= u32::MAX,
        symbols_of(ps, ps.len()).len() <= u32::MAX,
        0 <= k < g.edges@.len(),
    ensures
        ends_known(g.edges@[k], g.files@.len(), g.symbols@.len()),
        !call_edges ==> g.edges@[k].kind == EdgeKind::Import,
{
    let n = ps.len();
    let symbols = symbols_of(ps, n);
    let raw = raw_edges(ps, call_edges);
    assert(numbered(symbols)) by {
        assert forall|j: int| 0 <= j < symbols.len() implies (#[trigger] symbols[j]).id.0 == j by {
            lemma_symbol_ids(ps, n, j);
        }
    }
    lemma_imports_known(ps, n, symbols.len());
    lemma_calls_known(ps, symbols, n, n);
    lemma_known_concat(imports_of(ps, n), calls_of(ps, symbols, n), n, symbols.len());
    assert(all_known(raw, n, symbols.len()));
    let e = g.edges@[k];
    lemma_count_witness(raw, e);
    let r = choose|r: int| 0 <= r < raw.len() && same_edge(#[trigger] raw[r], e);
    assert(ends_known(raw[r], n, symbols.len()));
    if !call_edges {
        lemma_only_imports(ps, n, r);
    }
}

proof fn lemma_only_imports(ps: Seq<ParsedSource>, n: nat, k: int)
    requires
        0 <= k < imports_of(ps, n).len(),
    ensures
        imports_of(ps, n)[k].kind == EdgeKind::Import,
    decreases n,
{
    if n > 0 {
        let before = imports_of(ps, (n - 1) as nat);
        if k < before.len() {
            lemma_only_imports(ps, (n - 1) as nat, k);
        } else {
            lemma_only_imports_at(ps, n - 1, ps[n - 1].imports@.len(), k - before.len());
        }
    }
}

proof fn lemma_only_imports_at(ps: Seq<ParsedSource>, i: int, m: nat, k: int)
    requires
        0 <= k < imports_at(ps, i, m).len(),
    ensures
        imports_at(ps, i, m)[k].kind == EdgeKind::Import,
    decreases m,
{
    if m > 0 && k < imports_at(ps, i, (m - 1) as nat).len() {
        lemma_only_imports_at(ps, i, (m - 1) as nat, k);
    }
}

} // verus!
