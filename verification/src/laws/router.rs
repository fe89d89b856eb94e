//! Which source answers a question, and what it answers.

use crate::graph;
use crate::graph::{CodeGraph, NeighborhoodDirection};
use crate::laws;
use crate::lsp;
use crate::lsp::queries;
use crate::lsp::router;
use crate::lsp::router::{
    Answer, DataSource, LspOp, LspProvider, Query, QueryKind, Routed, Router,
};
use crate::lsp::{Diagnostic, Location, LspError, Position, Range, WorkspaceEdit};
use crate::order;
use crate::text;
use crate::types;
use crate::types::{
    CodeEdge, CodeFile, CodeSymbol, Confidence, EdgeKind, FileId, Language, RelPath, SymbolId,
};
use std::collections::HashMap;
use vstd::prelude::*;

verus! {

/// Only what depends on what a name means is asked of a language server.
pub proof fn law_meaning_is_asked_of_a_server(kind: QueryKind, r: DataSource)
    requires
        call_ensures(QueryKind::source, (kind,), r),
    ensures
        r == DataSource::LanguageServer <==> kind is PreciseReferences || kind is GotoDefinition
            || kind is Diagnostics || kind is PrepareRename,
{
}

/// One confidence is weaker than another.
pub open spec fn is_weaker(a: Confidence, b: Confidence) -> bool {
    match a {
        Confidence::Exact => false,
        Confidence::Scoped => b is Exact,
        Confidence::Syntactic => b is Exact || b is Scoped,
        Confidence::Unknown => !(b is Unknown),
    }
}

/// No more is claimed of an answer than its source gives, and no less than both
/// allow.
pub proof fn law_claims_are_the_weaker_of_two(source: Confidence, claimed: Confidence, r: Confidence)
    requires
        call_ensures(router::never_raise, (source, claimed), r),
    ensures
        r == source || r == claimed,
        !is_weaker(source, r),
        !is_weaker(claimed, r),
{
}

/// Answers from imports can be relied on as far as the weakest import of the graph,
/// and are scoped where it has none.
pub proof fn law_imports_are_as_good_as_the_weakest(g: &CodeGraph, r: Confidence, k: int)
    requires
        call_ensures(router::import_confidence, (g,), r),
        0 <= k < g.edges@.len(),
        g.edges@[k].kind == EdgeKind::Import,
    ensures
        !is_weaker(g.edges@[k].confidence, r),
        exists|m: int|
            0 <= m < g.edges@.len() && (#[trigger] g.edges@[m]).kind == EdgeKind::Import
                && g.edges@[m].confidence == r,
{
    router::law_imports_bound_confidence(*g, k);
    lemma_weakest(g.edges@, k);
}

proof fn lemma_weakest(edges: Seq<CodeEdge>, k: int)
    requires
        0 <= k < edges.len(),
        edges[k].kind == EdgeKind::Import,
    ensures
        router::weakest_import(edges) is Some,
        exists|m: int|
            0 <= m < edges.len() && (#[trigger] edges[m]).kind == EdgeKind::Import
                && edges[m].confidence == router::weakest_import(edges).unwrap(),
    decreases edges.len(),
{
    let shorter = edges.drop_last();
    let last = edges.len() - 1;
    if exists|i: int| 0 <= i < shorter.len() && (#[trigger] shorter[i]).kind == EdgeKind::Import {
        let i = choose|i: int|
            0 <= i < shorter.len() && (#[trigger] shorter[i]).kind == EdgeKind::Import;
        lemma_weakest(shorter, i);
        let m = choose|m: int|
            0 <= m < shorter.len() && (#[trigger] shorter[m]).kind == EdgeKind::Import
                && shorter[m].confidence == router::weakest_import(shorter).unwrap();
        assert(edges[m] == shorter[m]);
        assert(edges[last] == edges.last());
    } else {
        if k < last {
            assert(shorter[k].kind == EdgeKind::Import);
        }
        lemma_no_import(shorter);
        assert(edges[last].kind == EdgeKind::Import);
    }
}

proof fn lemma_no_import(edges: Seq<CodeEdge>)
    requires
        forall|i: int| 0 <= i < edges.len() ==> (#[trigger] edges[i]).kind != EdgeKind::Import,
    ensures
        router::weakest_import(edges) is None,
    decreases edges.len(),
{
    if edges.len() > 0 {
        let shorter = edges.drop_last();
        assert forall|i: int| 0 <= i < shorter.len() implies (#[trigger] shorter[i]).kind
            != EdgeKind::Import by {
            assert(shorter[i] == edges[i]);
        }
        assert(edges[edges.len() - 1] == edges.last());
        lemma_no_import(shorter);
    }
}

/// A graph without imports gives scoped answers.
pub proof fn law_no_imports_are_scoped(g: &CodeGraph, r: Confidence)
    requires
        call_ensures(router::import_confidence, (g,), r),
        forall|i: int| 0 <= i < g.edges@.len() ==> (#[trigger] g.edges@[i]).kind is Call,
    ensures
        r == Confidence::Scoped,
{
    lemma_no_import(g.edges@);
}

/// A file has the language that is recorded for it; where none is, that of its
/// name, and Go where its name says nothing.
pub proof fn law_recorded_languages_come_first(g: &CodeGraph, path: &RelPath, r: Language, k: int)
    requires
        call_ensures(router::language_of, (g, path), r),
        0 <= k <= g.files@.len(),
        forall|i: int| 0 <= i < k ==> (#[trigger] g.files@[i]).path@ != path@,
        k < g.files@.len() ==> g.files@[k].path@ == path@,
    ensures
        k < g.files@.len() && g.files@[k].language is Some ==> g.files@[k].language == Some(r),
        k == g.files@.len() || g.files@[k].language is None ==> match types::language_of_path(
            path@,
        ) {
            Some(l) => r == l,
            None => r == Language::Go,
        },
{
    lemma_recorded(g.files@, path@, k);
}

proof fn lemma_recorded(files: Seq<CodeFile>, path: Seq<char>, k: int)
    requires
        0 <= k <= files.len(),
        forall|i: int| 0 <= i < k ==> (#[trigger] files[i]).path@ != path,
        k < files.len() ==> files[k].path@ == path,
    ensures
        router::recorded_language(files, path) == (if k < files.len() {
            files[k].language
        } else {
            None
        }),
        router::file_at(files, path) == (if k < files.len() {
            Some(files[k].id.0)
        } else {
            None
        }),
    decreases files.len(),
{
    if k > 0 {
        assert(files[0].path@ != path);
        let rest = files.drop_first();
        assert forall|i: int| 0 <= i < k - 1 implies (#[trigger] rest[i]).path@ != path by {
            assert(rest[i] == files[i + 1]);
        }
        if k < files.len() {
            assert(rest[k - 1] == files[k]);
        }
        lemma_recorded(rest, path, k - 1);
    }
}

// ------------------------------------------------------------------ ranking

proof fn lemma_ranked_order(g: CodeGraph)
    ensures
        order::total_preorder(router::ranked_order(g)),
{
    let le = router::ranked_order(g);
    assert forall|a: (FileId, u64), b: (FileId, u64)| #[trigger] le(a, b) || le(b, a) by {
        text::lemma_text_le_total(
            graph::path_of(g.files@, a.0.0, g.files@.len()),
            graph::path_of(g.files@, b.0.0, g.files@.len()),
        );
    }
    assert forall|a: (FileId, u64), b: (FileId, u64), c: (FileId, u64)| #[trigger]
        le(a, b) && #[trigger] le(b, c) implies le(a, c) by {
        let pa = graph::path_of(g.files@, a.0.0, g.files@.len());
        let pb = graph::path_of(g.files@, b.0.0, g.files@.len());
        let pc = graph::path_of(g.files@, c.0.0, g.files@.len());
        if text::text_le(pa, pb) && text::text_le(pb, pc) {
            text::lemma_text_le_transitive(pa, pb, pc);
            if pa == pc {
                text::lemma_text_le_antisymmetric(pa, pb);
            }
        }
    }
}

/// Every file is ranked once, with its score.
pub proof fn law_every_file_is_ranked(
    g: &CodeGraph,
    scores: &HashMap<u32, u64>,
    out: Vec<(FileId, u64)>,
    id: FileId,
    score: u64,
)
    requires
        call_ensures(router::files_by_centrality, (g, scores), out),
    ensures
        out@.len() == g.files@.len(),
        out@.contains((id, score)) <==> laws::graph::is_file(*g, id.0) && score
            == laws::graph::score(scores@, id.0),
{
    let given = router::scored(*g, scores@);
    lemma_ranked_order(*g);
    order::lemma_arranged(given, router::ranked_order(*g));
    if given.contains((id, score)) {
        let k = choose|k: int| 0 <= k < given.len() && given[k] == (id, score);
        assert(g.files@[k].id == id);
    }
    if laws::graph::is_file(*g, id.0) && score == laws::graph::score(scores@, id.0) {
        let k = choose|k: int| 0 <= k < g.files@.len() && (#[trigger] g.files@[k]).id.0 == id.0;
        assert(given[k] == (id, score));
    }
}

/// The file with the higher score is ranked first; of equal ones the one whose
/// path comes first.
pub proof fn law_high_scores_are_ranked_first(
    g: &CodeGraph,
    scores: &HashMap<u32, u64>,
    out: Vec<(FileId, u64)>,
    i: int,
    j: int,
    a: int,
    b: int,
)
    requires
        call_ensures(router::files_by_centrality, (g, scores), out),
        graph::unique_files(g.files@),
        0 <= i < j < out@.len(),
        0 <= a < g.files@.len(),
        0 <= b < g.files@.len(),
        g.files@[a].id == out@[i].0,
        g.files@[b].id == out@[j].0,
    ensures
        out@[i].1 >= out@[j].1,
        out@[i].1 == out@[j].1 ==> text::text_le(g.files@[a].path@, g.files@[b].path@),
{
    let le = router::ranked_order(*g);
    lemma_ranked_order(*g);
    order::lemma_arranged(router::scored(*g, scores@), le);
    assert(le(out@[i], out@[j]));
    laws::graph::lemma_path_of(*g, a, g.files@.len());
    laws::graph::lemma_path_of(*g, b, g.files@.len());
    text::lemma_text_le_total(g.files@[a].path@, g.files@[b].path@);
}

// ------------------------------------------------------------------ symbols

proof fn lemma_symbol_order()
    ensures
        order::total_preorder(router::symbol_order()),
{
    let le = router::symbol_order();
    assert forall|a: CodeSymbol, b: CodeSymbol| #[trigger] le(a, b) || le(b, a) by {
        text::lemma_text_le_total(a.name@, b.name@);
    }
    assert forall|a: CodeSymbol, b: CodeSymbol, c: CodeSymbol| #[trigger]
        le(a, b) && #[trigger] le(b, c) implies le(a, c) by {
        if text::text_le(a.name@, b.name@) && text::text_le(b.name@, c.name@) {
            text::lemma_text_le_transitive(a.name@, b.name@, c.name@);
            if a.name@ == c.name@ {
                text::lemma_text_le_antisymmetric(a.name@, b.name@);
            }
        }
    }
}

proof fn lemma_holding(symbols: Seq<CodeSymbol>, needle: Seq<char>, s: CodeSymbol)
    ensures
        router::holding(symbols, needle).contains(s) <==> symbols.contains(s)
            && text::contains_text(text::lowercase(s.name@), needle),
    decreases symbols.len(),
{
    if symbols.len() > 0 {
        let shorter = symbols.drop_last();
        lemma_holding(shorter, needle, s);
        let before = router::holding(shorter, needle);
        let all = router::holding(symbols, needle);
        if symbols.contains(s) {
            let k = choose|k: int| 0 <= k < symbols.len() && symbols[k] == s;
            if k < shorter.len() {
                assert(shorter[k] == s);
            }
        }
        if shorter.contains(s) {
            let k = choose|k: int| 0 <= k < shorter.len() && shorter[k] == s;
            assert(symbols[k] == s);
        }
        assert(symbols[symbols.len() - 1] == symbols.last());
        if before.contains(s) {
            let k = choose|k: int| 0 <= k < before.len() && before[k] == s;
            assert(all[k] == s);
        }
        if all.contains(s) && all.len() > before.len() {
            let k = choose|k: int| 0 <= k < all.len() && all[k] == s;
            if k < before.len() {
                assert(before[k] == s);
            }
        }
        if all.len() > before.len() {
            assert(all[all.len() - 1] == symbols.last());
        }
    }
}

/// A text finds the symbols whose name holds it, letter case aside, and no others;
/// an empty text finds none.
pub proof fn law_texts_find_the_names_that_hold_them(
    g: &CodeGraph,
    query: &str,
    out: Vec<SymbolId>,
    id: SymbolId,
)
    requires
        call_ensures(router::fuzzy_symbols, (g, query), out),
    ensures
        out@.contains(id) <==> query@.len() > 0 && exists|k: int|
            0 <= k < g.symbols@.len() && (#[trigger] g.symbols@[k]).id == id
                && text::contains_text(
                text::lowercase(g.symbols@[k].name@),
                text::lowercase(query@),
            ),
{
    if query@.len() > 0 {
        let needle = text::lowercase(query@);
        let held = router::holding(g.symbols@, needle);
        let le = router::symbol_order();
        let sorted = order::arranged(held, le);
        lemma_symbol_order();
        order::lemma_arranged(held, le);
        if out@.contains(id) {
            let k = choose|k: int| 0 <= k < out@.len() && out@[k] == id;
            let s = sorted[k];
            assert(sorted.contains(s));
            lemma_holding(g.symbols@, needle, s);
            let m = choose|m: int| 0 <= m < g.symbols@.len() && g.symbols@[m] == s;
            assert(g.symbols@[m].id == id);
        }
        if exists|k: int|
            0 <= k < g.symbols@.len() && (#[trigger] g.symbols@[k]).id == id
                && text::contains_text(text::lowercase(g.symbols@[k].name@), needle) {
            let k = choose|k: int|
                0 <= k < g.symbols@.len() && (#[trigger] g.symbols@[k]).id == id
                    && text::contains_text(text::lowercase(g.symbols@[k].name@), needle);
            let s = g.symbols@[k];
            lemma_holding(g.symbols@, needle, s);
            assert(sorted.contains(s));
            let m = choose|m: int| 0 <= m < sorted.len() && sorted[m] == s;
            assert(out@[m] == id);
        }
    }
}

/// Found symbols come by name, then by line.
pub proof fn law_found_symbols_come_by_name(
    g: &CodeGraph,
    query: &str,
    out: Vec<SymbolId>,
    i: int,
    j: int,
) -> (r: (CodeSymbol, CodeSymbol))
    requires
        call_ensures(router::fuzzy_symbols, (g, query), out),
        0 <= i < j < out@.len(),
    ensures
        g.symbols@.contains(r.0),
        g.symbols@.contains(r.1),
        r.0.id == out@[i],
        r.1.id == out@[j],
        text::text_le(r.0.name@, r.1.name@),
        r.0.name@ == r.1.name@ ==> r.0.start_line <= r.1.start_line,
        r.0.name@ == r.1.name@ && r.0.start_line == r.1.start_line ==> r.0.id.0 <= r.1.id.0,
{
    let needle = text::lowercase(query@);
    let held = router::holding(g.symbols@, needle);
    let le = router::symbol_order();
    let sorted = order::arranged(held, le);
    lemma_symbol_order();
    order::lemma_arranged(held, le);
    assert(sorted.contains(sorted[i]));
    assert(sorted.contains(sorted[j]));
    lemma_holding(g.symbols@, needle, sorted[i]);
    lemma_holding(g.symbols@, needle, sorted[j]);
    assert(le(sorted[i], sorted[j]));
    text::lemma_text_le_total(sorted[i].name@, sorted[j].name@);
    (sorted[i], sorted[j])
}

/// The lines of a symbol of the file hold the line, counted from one.
pub open spec fn covers(s: CodeSymbol, file: u32, line: int) -> bool {
    s.file.0 == file && s.start_line <= line <= s.end_line
}

proof fn lemma_innermost(symbols: Seq<CodeSymbol>, file: u32, line: u32, k: int)
    requires
        0 <= k < symbols.len(),
        covers(symbols[k], file, line as int),
    ensures
        router::innermost(symbols, file, line) matches Some(s) && symbols.contains(s) && covers(
            s,
            file,
            line as int,
        ) && s.end_line - s.start_line <= symbols[k].end_line - symbols[k].start_line && (
        s.end_line - s.start_line == symbols[k].end_line - symbols[k].start_line ==> s.id.0
            <= symbols[k].id.0),
    decreases symbols.len(),
{
    let shorter = symbols.drop_last();
    let last = symbols.len() - 1;
    assert(symbols[last] == symbols.last());
    if k < last {
        assert(shorter[k] == symbols[k]);
        lemma_innermost(shorter, file, line, k);
        let s = router::innermost(shorter, file, line).unwrap();
        let m = choose|m: int| 0 <= m < shorter.len() && shorter[m] == s;
        assert(symbols[m] == s);
    } else {
        match router::innermost(shorter, file, line) {
            Some(b) => {
                lemma_innermost_is_one(shorter, file, line);
                let m = choose|m: int| 0 <= m < shorter.len() && shorter[m] == b;
                assert(symbols[m] == b);
            },
            None => {},
        }
    }
}

proof fn lemma_innermost_is_one(symbols: Seq<CodeSymbol>, file: u32, line: u32)
    ensures
        router::innermost(symbols, file, line) matches Some(s) ==> symbols.contains(s) && covers(
            s,
            file,
            line as int,
        ),
    decreases symbols.len(),
{
    if symbols.len() > 0 {
        let shorter = symbols.drop_last();
        lemma_innermost_is_one(shorter, file, line);
        assert(symbols[symbols.len() - 1] == symbols.last());
        if let Some(b) = router::innermost(shorter, file, line) {
            let m = choose|m: int| 0 <= m < shorter.len() && shorter[m] == b;
            assert(symbols[m] == b);
        }
    }
}

/// The symbol at a position is one of the file whose lines hold that of the
/// position, and no other such symbol spans fewer lines; where one holds it, one is
/// found.
pub proof fn law_positions_lie_in_the_tightest_symbol(
    g: &CodeGraph,
    path: &RelPath,
    position: Position,
    r: Option<&CodeSymbol>,
    f: int,
    k: int,
)
    requires
        call_ensures(router::symbol_at, (g, path, position), r),
        position.line < u32::MAX,
        0 <= f < g.files@.len(),
        g.files@[f].path@ == path@,
        forall|i: int| 0 <= i < f ==> (#[trigger] g.files@[i]).path@ != path@,
    ensures
        r matches Some(s) ==> g.symbols@.contains(*s) && covers(
            *s,
            g.files@[f].id.0,
            position.line + 1,
        ),
        0 <= k < g.symbols@.len() && covers(g.symbols@[k], g.files@[f].id.0, position.line + 1)
            ==> (r matches Some(s) && s.end_line - s.start_line <= g.symbols@[k].end_line
            - g.symbols@[k].start_line),
{
    lemma_recorded(g.files@, path@, f);
    let file = g.files@[f].id.0;
    let line = (position.line + 1) as u32;
    lemma_innermost_is_one(g.symbols@, file, line);
    if 0 <= k < g.symbols@.len() && covers(g.symbols@[k], file, position.line + 1) {
        lemma_innermost(g.symbols@, file, line, k);
    }
}

/// A position in a file that the graph does not have lies in no symbol.
pub proof fn law_unknown_files_have_no_symbols(
    g: &CodeGraph,
    path: &RelPath,
    position: Position,
    r: Option<&CodeSymbol>,
)
    requires
        call_ensures(router::symbol_at, (g, path, position), r),
        forall|i: int| 0 <= i < g.files@.len() ==> (#[trigger] g.files@[i]).path@ != path@,
    ensures
        r is None,
{
    lemma_recorded(g.files@, path@, g.files@.len() as int);
}

/// A question is about the name that it gives; without one, about the symbol at
/// its position, and without that about none.
pub proof fn law_given_names_come_first(
    g: &CodeGraph,
    path: &RelPath,
    position: Position,
    given: &str,
    at: Option<&CodeSymbol>,
    a: String,
    b: String,
)
    requires
        call_ensures(router::resolved_name, (g, path, position, Some(given)), a),
        call_ensures(router::resolved_name, (g, path, position, None), b),
        call_ensures(router::symbol_at, (g, path, position), at),
    ensures
        given@.len() > 0 ==> a@ == given@,
        given@.len() == 0 ==> a@ == b@,
        at matches Some(s) ==> b@ == s.name@,
        at is None ==> b@.len() == 0,
{
}

// -------------------------------------------------------------- name matches

/// Some symbol of the number has the name.
pub open spec fn bears(g: CodeGraph, id: u32, name: Seq<char>) -> bool {
    exists|k: int|
        0 <= k < g.symbols@.len() && (#[trigger] g.symbols@[k]).id.0 == id && g.symbols@[k].name@
            == name
}

/// A call leads from one symbol to another that has the name.
pub open spec fn calls_one(g: CodeGraph, id: u32, name: Seq<char>) -> bool {
    exists|e: int|
        0 <= e < g.edges@.len() && (#[trigger] g.edges@[e]).kind is Call && g.edges@[e].from == id
            && bears(g, g.edges@[e].to, name)
}

/// The symbol at place `k` counts as a match for the name.
pub open spec fn matches_at(g: CodeGraph, name: Seq<char>, op: LspOp, k: int) -> bool {
    &&& 0 <= k < g.symbols@.len()
    &&& bears(g, g.symbols@[k].id.0, name) || (op is References && calls_one(
        g,
        g.symbols@[k].id.0,
        name,
    ))
}

proof fn lemma_match_places(
    g: CodeGraph,
    n: nat,
    name: Seq<char>,
    op: LspOp,
    x: (Seq<char>, Range),
)
    requires
        n <= g.symbols@.len(),
    ensures
        router::match_places(g, g.symbols@.take(n as int), name, op).contains(x) <==> exists|k: int|
            #[trigger] matches_at(g, name, op, k) && k < n && graph::known(
                g.files@,
                g.symbols@[k].file.0,
            ) && x == (
                graph::path_of(g.files@, g.symbols@[k].file.0, g.files@.len()),
                router::range_of(g.symbols@[k]),
            ),
    decreases n,
{
    let now = g.symbols@.take(n as int);
    if n > 0 {
        let m = (n - 1) as nat;
        lemma_match_places(g, m, name, op, x);
        assert(now.drop_last() =~= g.symbols@.take(m as int));
        let s = g.symbols@[m as int];
        assert(now.last() == s);
        assert(router::is_match(g, name, op, s.id.0) <==> matches_at(g, name, op, m as int)) by {
            assert(router::is_named(g.symbols@, name, s.id.0) <==> bears(g, s.id.0, name));
            if router::calls_named(g, name, s.id.0) {
                let e = choose|e: int|
                    0 <= e < g.edges@.len() && (#[trigger] g.edges@[e]).kind == EdgeKind::Call
                        && g.edges@[e].from == s.id.0 && router::is_named(
                        g.symbols@,
                        name,
                        g.edges@[e].to,
                    );
                assert(bears(g, g.edges@[e].to, name));
            }
            if calls_one(g, s.id.0, name) {
                let e = choose|e: int|
                    0 <= e < g.edges@.len() && (#[trigger] g.edges@[e]).kind is Call
                        && g.edges@[e].from == s.id.0 && bears(g, g.edges@[e].to, name);
                assert(router::is_named(g.symbols@, name, g.edges@[e].to));
            }
        }
        let before = router::match_places(g, g.symbols@.take(m as int), name, op);
        let all = router::match_places(g, now, name, op);
        if before.contains(x) {
            let i = choose|i: int| 0 <= i < before.len() && before[i] == x;
            assert(all[i] == x);
        }
        if all.len() > before.len() {
            assert(all[all.len() - 1] == all.last());
            if all.contains(x) && !before.contains(x) {
                let i = choose|i: int| 0 <= i < all.len() && all[i] == x;
                if i < before.len() {
                    assert(before[i] == x);
                }
                assert(matches_at(g, name, op, m as int));
            }
        }
    }
}

/// One line less, but no less than none.
pub open spec fn line_before(line: u32) -> int {
    if line == 0 {
        0
    } else {
        line - 1
    }
}

/// Matching a name finds the symbols that have it, and those that call one where
/// references are asked for: each at its lines, in its file, and nothing else. An
/// empty name finds nothing.
pub proof fn law_matched_names_stand_at_their_symbols(
    g: &CodeGraph,
    name: &str,
    op: LspOp,
    out: Vec<Location>,
    x: Location,
)
    requires
        call_ensures(router::name_matched_locations, (g, name, op), out),
        graph::unique_files(g.files@),
    ensures
        queries::keys_of(out@).contains((x.path@, x.range)) <==> name@.len() > 0 && exists|
            k: int,
            f: int,
        | #[trigger]
            matches_at(*g, name@, op, k) && 0 <= f < g.files@.len() && (#[trigger] g.files@[f]).id
                == g.symbols@[k].file && x.path@ == g.files@[f].path@ && x.range.start.line
                == line_before(g.symbols@[k].start_line) && x.range.end.line == line_before(
                g.symbols@[k].end_line,
            ) && x.range.start.character == 0 && x.range.end.character == 0,
{
    let key = (x.path@, x.range);
    lemma_match_places(*g, g.symbols@.len(), name@, op, key);
    assert(g.symbols@.take(g.symbols@.len() as int) =~= g.symbols@);
    if name@.len() > 0 {
        if queries::keys_of(out@).contains(key) {
            let k = choose|k: int| #[trigger]
                matches_at(*g, name@, op, k) && k < g.symbols@.len() && graph::known(
                    g.files@,
                    g.symbols@[k].file.0,
                ) && key == (
                    graph::path_of(g.files@, g.symbols@[k].file.0, g.files@.len()),
                    router::range_of(g.symbols@[k]),
                );
            let f = choose|f: int|
                0 <= f < g.files@.len() && (#[trigger] g.files@[f]).id.0
                    == g.symbols@[k].file.0;
            laws::graph::lemma_path_of(*g, f, g.files@.len());
            assert(g.files@[f].id == g.symbols@[k].file);
        }
        if exists|k: int, f: int| #[trigger]
            matches_at(*g, name@, op, k) && 0 <= f < g.files@.len() && (#[trigger] g.files@[f]).id
                == g.symbols@[k].file && x.path@ == g.files@[f].path@ && x.range.start.line
                == line_before(g.symbols@[k].start_line) && x.range.end.line == line_before(
                g.symbols@[k].end_line,
            ) && x.range.start.character == 0 && x.range.end.character == 0 {
            let (k, f) = choose|k: int, f: int| #[trigger]
                matches_at(*g, name@, op, k) && 0 <= f < g.files@.len() && (
                #[trigger] g.files@[f]).id == g.symbols@[k].file && x.path@ == g.files@[f].path@
                    && x.range.start.line == line_before(g.symbols@[k].start_line)
                    && x.range.end.line == line_before(g.symbols@[k].end_line)
                    && x.range.start.character == 0 && x.range.end.character == 0;
            laws::graph::lemma_path_of(*g, f, g.files@.len());
            assert(graph::known(g.files@, g.symbols@[k].file.0));
            assert(x.range == router::range_of(g.symbols@[k]));
        }
    }
}

// ------------------------------------------------------------------ answers

/// An answer is of the kind that was asked, names the source that the kind goes to,
/// claims the weaker of what its source gives and what is claimed, and has a note
/// where that is not the highest.
pub proof fn law_answers_say_how_far_they_go(
    kind: QueryKind,
    used: DataSource,
    source: Confidence,
    claimed: Confidence,
    value: Answer,
    note: Option<String>,
    r: Routed,
    planned: DataSource,
    both: Confidence,
)
    requires
        call_ensures(router::finish, (kind, used, source, claimed, value, note), r),
        call_ensures(QueryKind::source, (kind,), planned),
        call_ensures(router::never_raise, (source, claimed), both),
    ensures
        r.kind == kind,
        r.planned == planned,
        r.used == used,
        r.value == value,
        r.confidence == both,
        r.note is None <==> both is Exact,
        note matches Some(n) ==> (r.note matches Some(m) ==> m@ == n@),
{
}

/// The kind of a question is that of its variant.
pub proof fn law_questions_are_of_their_kind(query: &Query, r: QueryKind)
    requires
        call_ensures(Query::kind, (query,), r),
    ensures
        query is FileDependencies <==> r is FileDependencies,
        query is FileImpact <==> r is FileImpact,
        query is RepoSkeleton <==> r is RepoSkeleton,
        query is TaskRank <==> r is TaskRank,
        query is FuzzySymbol <==> r is FuzzySymbol,
        query is PreciseReferences <==> r is PreciseReferences,
        query is GotoDefinition <==> r is GotoDefinition,
        query is Diagnostics <==> r is Diagnostics,
        query is PrepareRename <==> r is PrepareRename,
{
}

/// What a server says of a symbol is the answer, and exact. Where it says nothing,
/// the answer is what matching the name gives, says so, and how to get the server.
pub proof fn law_servers_are_believed_and_names_are_not(
    g: &CodeGraph,
    path: &RelPath,
    position: Position,
    symbol: Option<&str>,
    op: LspOp,
    reply: Result<Vec<Location>, LspError>,
    hint: &str,
    r: Routed,
    name: String,
    asked: &str,
    matched: Vec<Location>,
    x: Location,
)
    requires
        call_ensures(
            router::locations_answer,
            (g, path, position, symbol, op, reply, hint),
            r,
        ),
        call_ensures(router::resolved_name, (g, path, position, symbol), name),
        asked@ == name@,
        call_ensures(router::name_matched_locations, (g, asked, op), matched),
    ensures
        r.value is Locations,
        r.kind == (if op is References {
            QueryKind::PreciseReferences
        } else {
            QueryKind::GotoDefinition
        }),
        r.planned == DataSource::LanguageServer,
        reply matches Ok(hits) ==> r.used == DataSource::LanguageServer && r.confidence
            == Confidence::Exact && r.note is None && (queries::keys_of(r.value->Locations_0@).contains(
            (x.path@, x.range),
        ) <==> queries::keys_of(hits@).contains((x.path@, x.range))),
        reply is Err ==> r.used == DataSource::Graph && r.confidence == Confidence::Syntactic && (
        queries::keys_of(r.value->Locations_0@).contains((x.path@, x.range)) <==> queries::keys_of(
            matched@,
        ).contains((x.path@, x.range))) && (r.note matches Some(n) && text::contains_text(
            n@,
            hint@,
        )),
{
    if let Err(err) = reply {
        let n = r.note.unwrap()@;
        lemma_tail(
            router::action_of(op) + " require "@ + router::server_name_of(
                router::language_at(*g, path@),
            ) + ", which is currently unavailable ("@ + lsp::error_text(err)
                + "). The following results are name-matched from the graph and may include false positives and misses. Install: "@,
            hint@,
            n,
        );
    }
}

proof fn lemma_tail(front: Seq<char>, hint: Seq<char>, note: Seq<char>)
    requires
        note =~= front + hint,
    ensures
        text::contains_text(note, hint),
{
    assert(laws::text::runs_from(note, hint, front.len() as int));
    laws::text::law_texts_hold_what_stands_in_them(note, hint);
}

/// What a server finds in a file is the answer, and exact. Where there is no
/// server, nothing is known of the file, and the note says how to get one.
pub proof fn law_missing_servers_leave_files_unknown(
    g: &CodeGraph,
    path: &RelPath,
    reply: Result<Vec<Diagnostic>, LspError>,
    hint: &str,
    r: Routed,
    found: Vec<Diagnostic>,
    sorted: Vec<Diagnostic>,
)
    requires
        call_ensures(router::diagnostics_answer, (g, path, reply, hint), r),
        call_ensures(lsp::diagnostics::sort_diagnostics, (found,), sorted),
    ensures
        r.value is Diagnostics,
        r.kind == QueryKind::Diagnostics,
        r.planned == DataSource::LanguageServer,
        reply == Ok::<Vec<Diagnostic>, LspError>(found) ==> r.used == DataSource::LanguageServer
            && r.confidence == Confidence::Exact && r.value->Diagnostics_0@ == sorted@,
        reply is Err ==> r.used == DataSource::Graph && r.confidence == Confidence::Unknown
            && r.value->Diagnostics_0@.len() == 0 && (r.note matches Some(n)
            && text::contains_text(n@, hint@)),
{
    if let Err(err) = reply {
        let n = r.note.unwrap()@;
        lemma_tail(
            "Diagnostics"@ + " require "@ + router::server_name_of(
                router::language_at(*g, path@),
            ) + ", which is currently unavailable ("@ + lsp::error_text(err)
                + "). The graph has no substitute for this query. Install: "@,
            hint@,
            n,
        );
    }
}

/// The edits of a rename are those of the server, and exact. Without a server there
/// are none, and the note says how to get one.
pub proof fn law_renames_are_the_servers(
    g: &CodeGraph,
    path: &RelPath,
    reply: Result<WorkspaceEdit, LspError>,
    hint: &str,
    r: Routed,
)
    requires
        call_ensures(router::rename_answer, (g, path, reply, hint), r),
    ensures
        r.value is Edits,
        r.kind == QueryKind::PrepareRename,
        r.planned == DataSource::LanguageServer,
        reply matches Ok(edits) ==> r.used == DataSource::LanguageServer && r.confidence
            == Confidence::Exact && r.value->Edits_0 == edits,
        reply is Err ==> r.used == DataSource::Graph && r.confidence == Confidence::Unknown
            && r.value->Edits_0.edits@.len() == 0 && (r.note matches Some(n)
            && text::contains_text(n@, hint@)),
{
    if let Err(err) = reply {
        let n = r.note.unwrap()@;
        lemma_tail(
            "Rename"@ + " require "@ + router::server_name_of(router::language_at(*g, path@))
                + ", which is currently unavailable ("@ + lsp::error_text(err)
                + "). The graph has no substitute for this query. Install: "@,
            hint@,
            n,
        );
    }
}

/// A question about files is answered from the graph, whatever servers there are:
/// what a file depends on is what a way over imports leads to, what it affects is
/// what leads to it, and the files are ranked by the scores of the repository or of
/// the task.
pub proof fn law_files_are_asked_of_the_graph<P: LspProvider>(
    router: &Router<P>,
    query: &Query,
    task: &HashMap<u32, u64>,
    r: Routed,
    x: u32,
    ranked: Vec<(FileId, u64)>,
    ranked_for_task: Vec<(FileId, u64)>,
    imports: Confidence,
)
    requires
        call_ensures(Router::<P>::route, (router, query, task), r),
        call_ensures(router::files_by_centrality, (router.graph, router.base), ranked),
        call_ensures(router::files_by_centrality, (router.graph, task), ranked_for_task),
        call_ensures(router::import_confidence, (router.graph,), imports),
    ensures
        query matches Query::FileDependencies { target } ==> r.value is Files && r.used
            == DataSource::Graph && r.confidence == imports && (r.value->Files_0@.contains(
            FileId(x),
        ) <==> laws::graph::is_file(*router.graph, target.0) && x != target.0 && exists|
            way: Seq<u32>,
        | #[trigger]
            laws::graph::is_way(*router.graph, way) && way.first() == target.0 && way.last() == x),
        query matches Query::FileImpact { target } ==> r.value is Files && r.used
            == DataSource::Graph && r.confidence == imports && (r.value->Files_0@.contains(
            FileId(x),
        ) <==> laws::graph::is_file(*router.graph, target.0) && x != target.0 && exists|
            way: Seq<u32>,
        | #[trigger]
            laws::graph::is_way(*router.graph, way) && way.first() == x && way.last() == target.0),
        query is RepoSkeleton ==> r.value is RankedFiles && r.used == DataSource::Graph
            && r.confidence == imports && r.value->RankedFiles_0@ == ranked@,
        query is TaskRank ==> r.value is RankedFiles && r.used == DataSource::Graph
            && r.confidence == imports && r.value->RankedFiles_0@ == ranked_for_task@,
{
    match *query {
        Query::FileDependencies { target } => {
            laws::graph::lemma_walk_ways(
                *router.graph,
                router.base@,
                target.0,
                NeighborhoodDirection::Dependencies,
                r.value->Files_0@,
                x,
            );
        },
        Query::FileImpact { target } => {
            laws::graph::lemma_walk_ways(
                *router.graph,
                router.base@,
                target.0,
                NeighborhoodDirection::Dependents,
                r.value->Files_0@,
                x,
            );
        },
        _ => {},
    }
}

/// Symbols found by a text are what matching names finds, and are said to be no
/// more than that.
pub proof fn law_fuzzy_symbols_are_syntactic<P: LspProvider>(
    router: &Router<P>,
    query: &Query,
    task: &HashMap<u32, u64>,
    r: Routed,
    given: &str,
    found: Vec<SymbolId>,
)
    requires
        call_ensures(Router::<P>::route, (router, query, task), r),
        call_ensures(router::fuzzy_symbols, (router.graph, given), found),
        query matches Query::FuzzySymbol { query: needle } && needle@ == given@,
    ensures
        r.value is Symbols,
        r.value->Symbols_0@ == found@,
        r.used == DataSource::Graph,
        r.confidence == Confidence::Syntactic,
        r.note is Some,
{
}

// ---------------------------------------------------------------- languages

/// How a server is installed begins with the name of the program that is.
pub proof fn law_hints_begin_with_the_program(
    language: Language,
    name: &'static str,
    hint: &'static str,
)
    requires
        call_ensures(router::primary_server_name, (language,), name),
        call_ensures(router::install_hint_for, (language,), hint),
    ensures
        name@.len() > 0,
        name@.is_prefix_of(hint@),
{
    reveal_strlit("pyright");
    reveal_strlit("gopls");
    reveal_strlit("jdtls");
    reveal_strlit("rust-analyzer");
    reveal_strlit("typescript-language-server");
    reveal_strlit("sourcekit-lsp");
    reveal_strlit("clangd");
    reveal_strlit("intelephense");
    reveal_strlit("vue-language-server");
    reveal_strlit("pyright (`npm i -g pyright` or set ASTROLABE_LSP_PYTHON)");
    reveal_strlit("gopls (`go install golang.org/x/tools/gopls@latest`)");
    reveal_strlit("jdtls (Eclipse JDT Language Server); set ASTROLABE_LSP_JAVA if installed");
    reveal_strlit("rust-analyzer (`rustup component add rust-analyzer`)");
    reveal_strlit("typescript-language-server (`npm i -g typescript-language-server typescript`)");
    reveal_strlit("sourcekit-lsp (`xcode-select --install` / Xcode; set ASTROLABE_LSP_SWIFT)");
    reveal_strlit(
        "sourcekit-lsp (preferred) or clangd (`xcode-select --install` / `brew install llvm`)",
    );
    reveal_strlit("clangd (`brew install llvm` or set ASTROLABE_LSP_C)");
    reveal_strlit("intelephense (`npm i -g intelephense` or set ASTROLABE_LSP_PHP)");
    reveal_strlit("vue-language-server (`npm i -g @vue/language-server` or set ASTROLABE_LSP_VUE)");
    assert(hint@.subrange(0, name@.len() as int) =~= name@);
}

} // verus!
