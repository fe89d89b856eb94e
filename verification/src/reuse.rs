//! Parse results that are kept from one run to the next.
//!
//! A file whose contents were parsed before need not be parsed again. Whether
//! results are kept, and whether they can still be read, changes how long a run
//! takes and nothing else.

use crate::graph::CodeGraph;
use crate::index;
use crate::index::{Call, Import, IndexReport, Outcome, ParsedSource};
use crate::order;
use crate::text;
use crate::types::{
    CodeEdge, CodeFile, CodeSymbol, FileId, Language, RelPath, SymbolId, SymbolKind,
};
use vstd::prelude::*;

verus! {

/// What a parser finds in one file.
#[derive(Debug)]
pub struct ParsedFile {
    pub symbols: Vec<CodeSymbol>,
    /// The imports as written.
    pub imports: Vec<String>,
    pub calls: Vec<Call>,
}

/// What is kept for the contents of a file.
#[derive(Debug)]
pub enum Lookup {
    /// Nothing is kept anywhere.
    NoStore,
    /// Nothing is kept for these contents.
    Missing,
    /// What is kept cannot be read.
    Broken(String),
    Kept(ParsedFile),
}

impl Lookup {
    /// Whether what the parser finds is to be kept: there is a place for it, and
    /// it is not there.
    pub fn wants_result(&self) -> (r: bool)
        ensures
            r == (self is Missing || self is Broken),
    {
        match self {
            Lookup::Missing | Lookup::Broken(_) => true,
            Lookup::NoStore | Lookup::Kept(_) => false,
        }
    }

    /// What is kept, if it can be used. Without it the file is parsed.
    pub fn reusable(self) -> (r: Option<ParsedFile>)
        ensures
            r == (match self {
                Lookup::Kept(parsed) => Some(parsed),
                _ => None,
            }),
    {
        match self {
            Lookup::Kept(parsed) => Some(parsed),
            _ => None,
        }
    }
}

// ----------------------------------------------------------------- texts

/// A symbol without its numbers.
pub ghost struct SymbolText {
    pub name: Seq<char>,
    pub kind: SymbolKind,
    pub signature: Seq<char>,
    pub start_line: u32,
    pub end_line: u32,
    pub exported: bool,
}

pub open spec fn symbol_text(s: CodeSymbol) -> SymbolText {
    SymbolText {
        name: s.name@,
        kind: s.kind,
        signature: s.signature@,
        start_line: s.start_line,
        end_line: s.end_line,
        exported: s.exported,
    }
}

/// What a parser finds, as texts.
#[verifier::ext_equal]
pub ghost struct ParseText {
    pub symbols: Seq<SymbolText>,
    pub imports: Seq<Seq<char>>,
    pub calls: Seq<(Seq<char>, u32)>,
}

pub open spec fn symbol_texts(symbols: Seq<CodeSymbol>) -> Seq<SymbolText> {
    symbols.map_values(|s: CodeSymbol| symbol_text(s))
}

pub open spec fn call_texts(calls: Seq<Call>) -> Seq<(Seq<char>, u32)> {
    calls.map_values(|c: Call| (c.callee@, c.line))
}

pub open spec fn parse_text(p: ParsedFile) -> ParseText {
    ParseText {
        symbols: symbol_texts(p.symbols@),
        imports: p.imports@.map_values(|s: String| s@),
        calls: call_texts(p.calls@),
    }
}

/// The file that an import leads to, as a text.
pub open spec fn target_text(target: Option<RelPath>) -> Option<Seq<char>> {
    match target {
        Some(path) => Some(path@),
        None => None,
    }
}

/// A parsed file, as texts.
#[verifier::ext_equal]
pub ghost struct SourceText {
    pub path: Seq<char>,
    pub language: Language,
    pub sha: Seq<char>,
    pub loc: u32,
    pub symbols: Seq<SymbolText>,
    pub imports: Seq<(Seq<char>, Option<Seq<char>>)>,
    pub calls: Seq<(Seq<char>, u32)>,
}

pub open spec fn source_text(p: ParsedSource) -> SourceText {
    SourceText {
        path: p.path@,
        language: p.language,
        sha: p.sha@,
        loc: p.loc,
        symbols: symbol_texts(p.symbols@),
        imports: p.imports@.map_values(|i: Import| (i.spec@, target_text(i.target))),
        calls: call_texts(p.calls@),
    }
}

pub open spec fn source_texts(ps: Seq<ParsedSource>) -> Seq<SourceText> {
    ps.map_values(|p: ParsedSource| source_text(p))
}

/// A symbol with its numbers.
pub open spec fn numbered_text(s: CodeSymbol) -> (SymbolId, FileId, SymbolText) {
    (s.id, s.file, symbol_text(s))
}

pub open spec fn numbered_texts(symbols: Seq<CodeSymbol>) -> Seq<(SymbolId, FileId, SymbolText)> {
    symbols.map_values(|s: CodeSymbol| numbered_text(s))
}

/// A file of the graph, as texts.
pub ghost struct FileText {
    pub id: FileId,
    pub path: Seq<char>,
    pub language: Option<Language>,
    pub loc: u32,
    pub sha: Seq<char>,
}

pub open spec fn file_text(f: CodeFile) -> FileText {
    FileText { id: f.id, path: f.path@, language: f.language, loc: f.loc, sha: f.sha@ }
}

/// A graph, as texts and numbers.
#[verifier::ext_equal]
pub ghost struct GraphText {
    pub files: Seq<FileText>,
    pub symbols: Seq<(SymbolId, FileId, SymbolText)>,
    pub edges: Seq<CodeEdge>,
}

pub open spec fn graph_text(g: CodeGraph) -> GraphText {
    GraphText {
        files: g.files@.map_values(|f: CodeFile| file_text(f)),
        symbols: numbered_texts(g.symbols@),
        edges: g.edges@,
    }
}

/// A report, as texts and numbers.
#[verifier::ext_equal]
pub ghost struct ReportText {
    pub files_scanned: usize,
    pub files_parsed: usize,
    pub parse_failures: Seq<(Seq<char>, Seq<char>)>,
    pub unresolved_imports: Seq<(Seq<char>, Seq<char>)>,
    pub import_edges: usize,
    pub symbols: usize,
}

pub open spec fn report_text(r: IndexReport) -> ReportText {
    ReportText {
        files_scanned: r.files_scanned,
        files_parsed: r.files_parsed,
        parse_failures: index::note_texts(r.parse_failures@),
        unresolved_imports: index::note_texts(r.unresolved_imports@),
        import_edges: r.import_edges,
        symbols: r.symbols,
    }
}

// --------------------------------------------------------------- results

/// What is known of a file apart from what a parser finds in it.
pub ghost struct FileFacts {
    pub path: Seq<char>,
    pub language: Language,
    pub sha: Seq<char>,
    pub loc: u32,
    /// The files that its imports lead to.
    pub targets: Seq<Option<Seq<char>>>,
}

/// What there is to find in a file.
pub ghost enum Found {
    /// The file cannot be read.
    Unreadable(Seq<char>),
    /// The parser refuses the file.
    Rejected(Seq<char>),
    Parsed(ParseText),
}

pub open spec fn found_by(parsed: Result<ParsedFile, String>) -> Found {
    match parsed {
        Ok(p) => Found::Parsed(parse_text(p)),
        Err(why) => Found::Rejected(why@),
    }
}

/// What came of a file, as texts.
pub ghost enum OutcomeText {
    Parsed(SourceText),
    Unreadable(Seq<char>, Seq<char>),
    Rejected(Seq<char>, Seq<char>),
}

pub open spec fn outcome_text(o: Outcome) -> OutcomeText {
    match o {
        Outcome::Parsed(p) => OutcomeText::Parsed(source_text(p)),
        Outcome::Unreadable(path, why) => OutcomeText::Unreadable(path@, why@),
        Outcome::Rejected(path, why) => OutcomeText::Rejected(path@, why@),
    }
}

/// What comes of a file in which this is found.
pub open spec fn outcome_with(f: FileFacts, found: Found) -> OutcomeText {
    match found {
        Found::Unreadable(why) => OutcomeText::Unreadable(f.path, why),
        Found::Rejected(why) => OutcomeText::Rejected(f.path, why),
        Found::Parsed(p) => OutcomeText::Parsed(
            SourceText {
                path: f.path,
                language: f.language,
                sha: f.sha,
                loc: f.loc,
                symbols: p.symbols,
                imports: Seq::new(p.imports.len(), |k: int| (p.imports[k], f.targets[k])),
                calls: p.calls,
            },
        ),
    }
}

/// What came of a file that was read: what was found in it, be it now or before,
/// with the files that its imports lead to, or why the parser refused it.
pub fn outcome_of(
    path: RelPath,
    language: Language,
    sha: String,
    loc: u32,
    parsed: Result<ParsedFile, String>,
    targets: &Vec<Option<RelPath>>,
) -> (r: Outcome)
    requires
        parsed matches Ok(p) ==> targets@.len() == p.imports@.len(),
    ensures
        outcome_text(r) == outcome_with(
            FileFacts {
                path: path@,
                language,
                sha: sha@,
                loc,
                targets: targets@.map_values(|t: Option<RelPath>| target_text(t)),
            },
            found_by(parsed),
        ),
{
    let file = match parsed {
        Ok(file) => file,
        Err(why) => {
            return Outcome::Rejected(path, why);
        },
    };
    let ghost specs = file.imports@;
    let mut imports: Vec<Import> = Vec::new();
    let mut i: usize = 0;
    let n: usize = targets.len();
    for spec in it: file.imports
        invariant
            n == targets@.len(),
            it.seq() == specs,
            i == it.index(),
            imports@.len() == i,
            targets@.len() == specs.len(),
            forall|k: int|
                0 <= k < i ==> (#[trigger] imports@[k]).spec@ == specs[k]@ && target_text(
                    imports@[k].target,
                ) == target_text(targets@[k]),
    {
        let target = match &targets[i] {
            Some(path) => Some(path.clone()),
            None => None,
        };
        imports.push(Import { spec, target });
        i = i + 1;
    }
    let s = ParsedSource {
        path,
        language,
        sha,
        loc,
        symbols: file.symbols,
        imports,
        calls: file.calls,
    };
    assert(source_text(s).imports =~= Seq::new(
        specs.len(),
        |k: int| (specs[k]@, target_text(targets@[k])),
    ));
    assert(source_text(s).imports =~= Seq::new(
        parse_text(file).imports.len(),
        |k: int|
            (
                parse_text(file).imports[k],
                targets@.map_values(|t: Option<RelPath>| target_text(t))[k],
            ),
    ));
    Outcome::Parsed(s)
}

// ------------------------------------------------------------------ laws

proof fn lemma_same_source(a: Seq<ParsedSource>, b: Seq<ParsedSource>, i: int)
    requires
        source_texts(a) == source_texts(b),
        0 <= i < a.len(),
    ensures
        a.len() == b.len(),
        source_text(a[i]) == source_text(b[i]),
        a[i].symbols@.len() == b[i].symbols@.len(),
        a[i].imports@.len() == b[i].imports@.len(),
        a[i].calls@.len() == b[i].calls@.len(),
{
    assert(source_texts(a).len() == a.len());
    assert(source_texts(b).len() == b.len());
    assert(source_texts(a)[i] == source_text(a[i]));
    assert(source_texts(b)[i] == source_text(b[i]));
    assert(source_text(a[i]).symbols.len() == a[i].symbols@.len());
    assert(source_text(b[i]).symbols.len() == b[i].symbols@.len());
    assert(source_text(a[i]).imports.len() == a[i].imports@.len());
    assert(source_text(b[i]).imports.len() == b[i].imports@.len());
    assert(source_text(a[i]).calls.len() == a[i].calls@.len());
    assert(source_text(b[i]).calls.len() == b[i].calls@.len());
}

proof fn lemma_same_length(a: Seq<ParsedSource>, b: Seq<ParsedSource>)
    requires
        source_texts(a) == source_texts(b),
    ensures
        a.len() == b.len(),
{
    assert(source_texts(a).len() == a.len());
    assert(source_texts(b).len() == b.len());
}

proof fn lemma_same_id(a: Seq<ParsedSource>, b: Seq<ParsedSource>, path: Seq<char>, n: nat)
    requires
        source_texts(a) == source_texts(b),
        n <= a.len(),
    ensures
        index::id_of(a, path, n) == index::id_of(b, path, n),
    decreases n,
{
    if n > 0 {
        lemma_same_source(a, b, n - 1);
        lemma_same_id(a, b, path, (n - 1) as nat);
    }
}

proof fn lemma_same_own_id(a: Seq<ParsedSource>, b: Seq<ParsedSource>, i: int)
    requires
        source_texts(a) == source_texts(b),
        0 <= i < a.len(),
    ensures
        index::own_id(a, i) == index::own_id(b, i),
{
    lemma_same_source(a, b, i);
    lemma_same_id(a, b, a[i].path@, a.len());
}

proof fn lemma_same_symbols(a: Seq<ParsedSource>, b: Seq<ParsedSource>, n: nat)
    requires
        source_texts(a) == source_texts(b),
        n <= a.len(),
    ensures
        numbered_texts(index::symbols_of(a, n)) == numbered_texts(index::symbols_of(b, n)),
        index::symbols_of(a, n).len() == index::symbols_of(b, n).len(),
    decreases n,
{
    let all_a = index::symbols_of(a, n);
    let all_b = index::symbols_of(b, n);
    if n == 0 {
        assert(numbered_texts(all_a) =~= numbered_texts(all_b));
    } else {
        let m = (n - 1) as nat;
        let i = n - 1;
        lemma_same_symbols(a, b, m);
        lemma_same_source(a, b, i);
        lemma_same_own_id(a, b, i);
        let front_a = index::symbols_of(a, m);
        let front_b = index::symbols_of(b, m);
        let tail_a = index::symbols_at(a, i, front_a.len());
        let tail_b = index::symbols_at(b, i, front_b.len());
        assert forall|k: int| 0 <= k < all_a.len() implies numbered_text(all_a[k])
            == numbered_text(all_b[k]) by {
            if k < front_a.len() {
                assert(numbered_texts(front_a)[k] == numbered_text(front_a[k]));
                assert(numbered_texts(front_b)[k] == numbered_text(front_b[k]));
            } else {
                let j = k - front_a.len();
                assert(all_a[k] == tail_a[j]);
                assert(all_b[k] == tail_b[j]);
                assert(source_text(a[i]).symbols[j] == symbol_text(a[i].symbols@[j]));
                assert(source_text(b[i]).symbols[j] == symbol_text(b[i].symbols@[j]));
            }
        }
        assert(numbered_texts(all_a) =~= numbered_texts(all_b));
    }
}

proof fn lemma_same_imports_at(a: Seq<ParsedSource>, b: Seq<ParsedSource>, i: int, m: nat)
    requires
        source_texts(a) == source_texts(b),
        0 <= i < a.len(),
        m <= a[i].imports@.len(),
    ensures
        index::imports_at(a, i, m) == index::imports_at(b, i, m),
        index::note_texts(index::gaps_at(a, i, m)) == index::note_texts(index::gaps_at(b, i, m)),
    decreases m,
{
    lemma_same_source(a, b, i);
    if m == 0 {
        assert(index::note_texts(index::gaps_at(a, i, m)) =~= index::note_texts(
            index::gaps_at(b, i, m),
        ));
    } else {
        let l = (m - 1) as nat;
        lemma_same_imports_at(a, b, i, l);
        lemma_same_own_id(a, b, i);
        let x = a[i].imports@[m - 1];
        let y = b[i].imports@[m - 1];
        assert(source_text(a[i]).imports[m - 1] == (x.spec@, target_text(x.target)));
        assert(source_text(b[i]).imports[m - 1] == (y.spec@, target_text(y.target)));
        if let Some(path) = x.target {
            lemma_same_id(a, b, path@, a.len());
        }
        let gaps_a = index::gaps_at(a, i, l);
        let gaps_b = index::gaps_at(b, i, l);
        if x.target is None && index::is_internal(x.spec@) {
            assert(index::note_texts(gaps_a.push((a[i].path, x.spec))) =~= index::note_texts(
                gaps_a,
            ).push((a[i].path@, x.spec@)));
            assert(index::note_texts(gaps_b.push((b[i].path, y.spec))) =~= index::note_texts(
                gaps_b,
            ).push((b[i].path@, y.spec@)));
        }
    }
}

proof fn lemma_same_imports(a: Seq<ParsedSource>, b: Seq<ParsedSource>, n: nat)
    requires
        source_texts(a) == source_texts(b),
        n <= a.len(),
    ensures
        index::imports_of(a, n) == index::imports_of(b, n),
        index::note_texts(index::gaps_of(a, n)) == index::note_texts(index::gaps_of(b, n)),
    decreases n,
{
    if n == 0 {
        assert(index::note_texts(index::gaps_of(a, n)) =~= index::note_texts(
            index::gaps_of(b, n),
        ));
    } else {
        let m = (n - 1) as nat;
        let i = n - 1;
        lemma_same_imports(a, b, m);
        lemma_same_source(a, b, i);
        let count = a[i].imports@.len();
        lemma_same_imports_at(a, b, i, count);
        lemma_notes_add(index::gaps_of(a, m), index::gaps_at(a, i, count));
        lemma_notes_add(index::gaps_of(b, m), index::gaps_at(b, i, count));
    }
}

proof fn lemma_notes_add(a: Seq<(RelPath, String)>, b: Seq<(RelPath, String)>)
    ensures
        index::note_texts(a + b) == index::note_texts(a) + index::note_texts(b),
{
    assert(index::note_texts(a + b) =~= index::note_texts(a) + index::note_texts(b));
}

proof fn lemma_same_symbol(a: Seq<CodeSymbol>, b: Seq<CodeSymbol>, k: int)
    requires
        numbered_texts(a) == numbered_texts(b),
        0 <= k < a.len(),
    ensures
        a.len() == b.len(),
        numbered_text(a[k]) == numbered_text(b[k]),
{
    assert(numbered_texts(a).len() == a.len());
    assert(numbered_texts(b).len() == b.len());
    assert(numbered_texts(a)[k] == numbered_text(a[k]));
    assert(numbered_texts(b)[k] == numbered_text(b[k]));
}

proof fn lemma_same_caller(
    a: Seq<CodeSymbol>,
    b: Seq<CodeSymbol>,
    file: FileId,
    line: u32,
    n: nat,
)
    requires
        numbered_texts(a) == numbered_texts(b),
        n <= a.len(),
    ensures
        index::caller_at(a, file, line, n) == index::caller_at(b, file, line, n),
        index::caller_at(a, file, line, n) matches Some(k) ==> 0 <= k < n,
    decreases n,
{
    if n > 0 {
        lemma_same_caller(a, b, file, line, (n - 1) as nat);
        lemma_same_symbol(a, b, n - 1);
        if let Some(k) = index::caller_at(a, file, line, (n - 1) as nat) {
            lemma_same_symbol(a, b, k);
        }
    }
}

proof fn lemma_same_targets(a: Seq<CodeSymbol>, b: Seq<CodeSymbol>, name: Seq<char>)
    requires
        numbered_texts(a) == numbered_texts(b),
    ensures
        index::targets_of(a, name) == index::targets_of(b, name),
        forall|k: int|
            0 <= k < index::targets_of(a, name).len() ==> (#[trigger] index::targets_of(
                a,
                name,
            )[k]) < a.len(),
{
    assert(numbered_texts(a).len() == a.len());
    assert(numbered_texts(b).len() == b.len());
    let f = index::has_name(a, name);
    let g = index::has_name(b, name);
    assert forall|i: usize| #[trigger] f(i) == g(i) by {
        if i < a.len() {
            lemma_same_symbol(a, b, i as int);
        }
    }
    assert(f =~= g);
    let all = index::places(a.len());
    assert forall|k: int| 0 <= k < all.filter(f).len() implies (#[trigger] all.filter(f)[k])
        < a.len() by {
        all.lemma_filter_pred(f, k);
    }
}

proof fn lemma_same_edges_to(
    a: Seq<CodeSymbol>,
    b: Seq<CodeSymbol>,
    caller: SymbolId,
    targets: Seq<usize>,
    m: nat,
)
    requires
        numbered_texts(a) == numbered_texts(b),
        m <= targets.len(),
        forall|k: int| 0 <= k < targets.len() ==> (#[trigger] targets[k]) < a.len(),
    ensures
        index::edges_to(a, caller, targets, m) == index::edges_to(b, caller, targets, m),
    decreases m,
{
    if m > 0 {
        lemma_same_edges_to(a, b, caller, targets, (m - 1) as nat);
        lemma_same_symbol(a, b, targets[m - 1] as int);
    }
}

proof fn lemma_same_calls_at(
    a: Seq<ParsedSource>,
    b: Seq<ParsedSource>,
    syms_a: Seq<CodeSymbol>,
    syms_b: Seq<CodeSymbol>,
    i: int,
    m: nat,
)
    requires
        source_texts(a) == source_texts(b),
        numbered_texts(syms_a) == numbered_texts(syms_b),
        0 <= i < a.len(),
        m <= a[i].calls@.len(),
    ensures
        index::calls_at(a, syms_a, i, m) == index::calls_at(b, syms_b, i, m),
    decreases m,
{
    if m > 0 {
        lemma_same_calls_at(a, b, syms_a, syms_b, i, (m - 1) as nat);
        lemma_same_source(a, b, i);
        lemma_same_own_id(a, b, i);
        let x = a[i].calls@[m - 1];
        let y = b[i].calls@[m - 1];
        assert(source_text(a[i]).calls[m - 1] == (x.callee@, x.line));
        assert(source_text(b[i]).calls[m - 1] == (y.callee@, y.line));
        let file = index::own_id(a, i);
        let name = index::short_name(x.callee@);
        assert(numbered_texts(syms_a).len() == syms_a.len());
        assert(numbered_texts(syms_b).len() == syms_b.len());
        lemma_same_caller(syms_a, syms_b, file, x.line, syms_a.len());
        lemma_same_targets(syms_a, syms_b, name);
        let targets = index::targets_of(syms_a, name);
        if let Some(k) = index::caller_at(syms_a, file, x.line, syms_a.len()) {
            lemma_same_symbol(syms_a, syms_b, k);
            lemma_same_edges_to(syms_a, syms_b, syms_a[k].id, targets, targets.len());
        }
    }
}

proof fn lemma_same_calls(
    a: Seq<ParsedSource>,
    b: Seq<ParsedSource>,
    syms_a: Seq<CodeSymbol>,
    syms_b: Seq<CodeSymbol>,
    n: nat,
)
    requires
        source_texts(a) == source_texts(b),
        numbered_texts(syms_a) == numbered_texts(syms_b),
        n <= a.len(),
    ensures
        index::calls_of(a, syms_a, n) == index::calls_of(b, syms_b, n),
    decreases n,
{
    if n > 0 {
        lemma_same_calls(a, b, syms_a, syms_b, (n - 1) as nat);
        lemma_same_source(a, b, n - 1);
        lemma_same_calls_at(a, b, syms_a, syms_b, n - 1, a[n - 1].calls@.len());
    }
}

spec fn text_order() -> spec_fn(SourceText, SourceText) -> bool {
    |a: SourceText, b: SourceText| text::text_le(a.path, b.path)
}

spec fn note_text_order() -> spec_fn((Seq<char>, Seq<char>), (Seq<char>, Seq<char>)) -> bool {
    |a: (Seq<char>, Seq<char>), b: (Seq<char>, Seq<char>)|
        if a.0 != b.0 {
            text::text_le(a.0, b.0)
        } else {
            text::text_le(a.1, b.1)
        }
}

proof fn lemma_text_order()
    ensures
        order::total_preorder(text_order()),
{
    let le = text_order();
    assert forall|a: SourceText, b: SourceText| #[trigger] le(a, b) || le(b, a) by {
        text::lemma_text_le_total(a.path, b.path);
    }
    assert forall|a: SourceText, b: SourceText, c: SourceText| #[trigger]
        le(a, b) && #[trigger] le(b, c) implies le(a, c) by {
        text::lemma_text_le_transitive(a.path, b.path, c.path);
    }
}

/// Notes with the same texts are arranged to notes with the same texts.
proof fn lemma_same_notes(a: Seq<(RelPath, String)>)
    ensures
        index::note_texts(order::arranged(a, index::note_order())) == order::arranged(
            index::note_texts(a),
            note_text_order(),
        ),
{
    let f = |n: (RelPath, String)| (n.0@, n.1@);
    index::lemma_note_order();
    assert(order::same_order(a, index::note_texts(a), index::note_order(), note_text_order(), f));
    order::lemma_arranged_map(a, index::note_texts(a), index::note_order(), note_text_order(), f);
}

proof fn lemma_arranged_texts(a: Seq<ParsedSource>)
    ensures
        source_texts(order::arranged(a, index::source_order())) == order::arranged(
            source_texts(a),
            text_order(),
        ),
{
    let f = |p: ParsedSource| source_text(p);
    index::lemma_source_order();
    assert(order::same_order(a, source_texts(a), index::source_order(), text_order(), f));
    order::lemma_arranged_map(a, source_texts(a), index::source_order(), text_order(), f);
}

/// Parsed files with the same texts in the same order, and failures with the same
/// texts, give graphs and reports with the same texts.
proof fn lemma_same_index(
    a: Seq<ParsedSource>,
    b: Seq<ParsedSource>,
    failed_a: Seq<(RelPath, String)>,
    failed_b: Seq<(RelPath, String)>,
    scanned: usize,
    call_edges: bool,
    g: CodeGraph,
    h: CodeGraph,
    r: IndexReport,
    s: IndexReport,
)
    requires
        source_texts(a) == source_texts(b),
        index::note_texts(order::arranged(failed_a, index::note_order())) == index::note_texts(
            order::arranged(failed_b, index::note_order()),
        ),
        index::is_graph_of(g, a, call_edges),
        index::is_graph_of(h, b, call_edges),
        index::is_report_of(r, g, a, scanned, failed_a),
        index::is_report_of(s, h, b, scanned, failed_b),
    ensures
        graph_text(g) == graph_text(h),
        report_text(r) == report_text(s),
{
    let n = a.len();
    lemma_same_length(a, b);
    lemma_same_symbols(a, b, n);
    lemma_same_imports(a, b, n);
    lemma_same_calls(a, b, index::symbols_of(a, n), index::symbols_of(b, n), n);
    index::lemma_merged_unique(g.edges@, h.edges@, index::raw_edges(a, call_edges));
    assert forall|i: int| 0 <= i < n implies file_text(#[trigger] g.files@[i]) == file_text(
        h.files@[i],
    ) by {
        lemma_same_source(a, b, i);
    }
    lemma_same_notes(index::gaps_of(a, n));
    lemma_same_notes(index::gaps_of(b, n));
    assert(graph_text(g) =~= graph_text(h));
    assert(report_text(r) =~= report_text(s));
}

proof fn lemma_note_text_order()
    ensures
        order::total_preorder(note_text_order()),
{
    let le = note_text_order();
    assert forall|a: (Seq<char>, Seq<char>), b: (Seq<char>, Seq<char>)| #[trigger]
        le(a, b) || le(b, a) by {
        text::lemma_text_le_total(a.0, b.0);
        text::lemma_text_le_total(a.1, b.1);
    }
    assert forall|
        a: (Seq<char>, Seq<char>),
        b: (Seq<char>, Seq<char>),
        c: (Seq<char>, Seq<char>),
    | #[trigger]
        le(a, b) && #[trigger] le(b, c) implies le(a, c) by {
        if text::text_le(a.0, b.0) && text::text_le(b.0, c.0) {
            text::lemma_text_le_transitive(a.0, b.0, c.0);
        }
        if a.0 == b.0 && b.0 == c.0 {
            text::lemma_text_le_transitive(a.1, b.1, c.1);
        }
        if a.0 != b.0 && b.0 != c.0 && a.0 == c.0 {
            text::lemma_text_le_antisymmetric(a.0, b.0);
        }
    }
}

/// What is indexed depends only on what was found in the files and on which files
/// failed with which reason, not on where it was found and not on the order in
/// which the files were tried: the graphs and the reports read the same.
pub proof fn law_index_depends_on_what_was_found(
    a: Seq<ParsedSource>,
    b: Seq<ParsedSource>,
    failed_a: Seq<(RelPath, String)>,
    failed_b: Seq<(RelPath, String)>,
    scanned: usize,
    call_edges: bool,
    g: CodeGraph,
    h: CodeGraph,
    r: IndexReport,
    s: IndexReport,
)
    requires
        index::distinct_paths(a),
        index::distinct_paths(b),
        index::same_elements(source_texts(a), source_texts(b)),
        index::distinct_notes(failed_a),
        index::distinct_notes(failed_b),
        index::same_elements(index::note_texts(failed_a), index::note_texts(failed_b)),
        index::is_graph_of(g, order::arranged(a, index::source_order()), call_edges),
        index::is_graph_of(h, order::arranged(b, index::source_order()), call_edges),
        index::is_report_of(r, g, order::arranged(a, index::source_order()), scanned, failed_a),
        index::is_report_of(s, h, order::arranged(b, index::source_order()), scanned, failed_b),
    ensures
        graph_text(g) == graph_text(h),
        report_text(r) == report_text(s),
{
    let x = source_texts(a);
    let y = source_texts(b);
    let le = text_order();
    lemma_text_order();
    assert(x.no_duplicates() && order::no_ties(x, le)) by {
        lemma_texts_distinct(a);
    }
    assert(y.no_duplicates()) by {
        lemma_texts_distinct(b);
    }
    order::lemma_arranged_any_order(x, y, le);
    lemma_arranged_texts(a);
    lemma_arranged_texts(b);
    let u = index::note_texts(failed_a);
    let v = index::note_texts(failed_b);
    lemma_note_text_order();
    lemma_notes_distinct(failed_a);
    lemma_notes_distinct(failed_b);
    order::lemma_arranged_any_order(u, v, note_text_order());
    lemma_same_notes(failed_a);
    lemma_same_notes(failed_b);
    lemma_same_index(
        order::arranged(a, index::source_order()),
        order::arranged(b, index::source_order()),
        failed_a,
        failed_b,
        scanned,
        call_edges,
        g,
        h,
        r,
        s,
    );
}

/// Files stand in the order of their paths, each path once.
pub proof fn law_files_stand_in_path_order(
    g: CodeGraph,
    parsed: Seq<ParsedSource>,
    call_edges: bool,
    i: int,
    j: int,
)
    requires
        index::distinct_paths(parsed),
        index::is_graph_of(g, order::arranged(parsed, index::source_order()), call_edges),
        0 <= i < j < g.files@.len(),
    ensures
        text::text_le(g.files@[i].path@, g.files@[j].path@),
        g.files@[i].path@ != g.files@[j].path@,
{
    let ps = order::arranged(parsed, index::source_order());
    lemma_arranged_texts(parsed);
    assert(source_texts(ps)[i] == source_text(ps[i]));
    assert(source_texts(ps)[j] == source_text(ps[j]));
    lemma_texts_ascend(parsed, i, j);
}

proof fn lemma_texts_ascend(parsed: Seq<ParsedSource>, i: int, j: int)
    requires
        index::distinct_paths(parsed),
        0 <= i < j < order::arranged(source_texts(parsed), text_order()).len(),
    ensures
        ({
            let all = order::arranged(source_texts(parsed), text_order());
            text::text_le(all[i].path, all[j].path) && all[i].path != all[j].path
        }),
{
    let x = source_texts(parsed);
    let le = text_order();
    let all = order::arranged(x, le);
    lemma_text_order();
    lemma_texts_distinct(parsed);
    order::lemma_arranged(x, le);
    order::lemma_arranged_distinct(x, le);
    let p = all[i];
    let q = all[j];
    assert(le(p, q));
    assert(all.contains(p));
    assert(all.contains(q));
    if p.path == q.path {
        assert(le(q, p));
        assert(p == q);
    }
}

proof fn lemma_texts_distinct(a: Seq<ParsedSource>)
    requires
        index::distinct_paths(a),
    ensures
        source_texts(a).no_duplicates(),
        order::no_ties(source_texts(a), text_order()),
{
    let x = source_texts(a);
    let le = text_order();
    assert forall|i: int, j: int| 0 <= i < j < x.len() implies (#[trigger] x[i]).path != (
    #[trigger] x[j]).path by {
        assert(a[i].path@ != a[j].path@);
    }
    assert forall|p: SourceText, q: SourceText|
        x.contains(p) && x.contains(q) && #[trigger] le(p, q) && #[trigger] le(q, p) implies p
        == q by {
        text::lemma_text_le_antisymmetric(p.path, q.path);
        let i = choose|i: int| 0 <= i < x.len() && x[i] == p;
        let j = choose|j: int| 0 <= j < x.len() && x[j] == q;
        if i < j {
            assert(x[i].path != x[j].path);
        } else if j < i {
            assert(x[j].path != x[i].path);
        }
    }
}

proof fn lemma_notes_distinct(a: Seq<(RelPath, String)>)
    requires
        index::distinct_notes(a),
    ensures
        index::note_texts(a).no_duplicates(),
        order::no_ties(index::note_texts(a), note_text_order()),
{
    let x = index::note_texts(a);
    let le = note_text_order();
    assert forall|i: int, j: int| 0 <= i < j < x.len() implies (#[trigger] x[i]).0 != (
    #[trigger] x[j]).0 by {
        assert(a[i].0@ != a[j].0@);
    }
    assert forall|p: (Seq<char>, Seq<char>), q: (Seq<char>, Seq<char>)|
        x.contains(p) && x.contains(q) && #[trigger] le(p, q) && #[trigger] le(q, p) implies p
        == q by {
        if p.0 != q.0 {
            text::lemma_text_le_antisymmetric(p.0, q.0);
        }
        let i = choose|i: int| 0 <= i < x.len() && x[i] == p;
        let j = choose|j: int| 0 <= j < x.len() && x[j] == q;
        if i < j {
            assert(x[i].0 != x[j].0);
        } else if j < i {
            assert(x[j].0 != x[i].0);
        }
    }
}

/// What is found in a file: what was kept for its contents, or else what there is
/// to find.
pub open spec fn used(lookup: Lookup, fresh: Found) -> Found {
    match (fresh, lookup) {
        (Found::Unreadable(_), _) => fresh,
        (_, Lookup::Kept(p)) => Found::Parsed(parse_text(p)),
        _ => fresh,
    }
}

/// What is kept is what the parser finds in the same contents.
pub open spec fn is_faithful(lookup: Lookup, fresh: Found) -> bool {
    lookup matches Lookup::Kept(p) ==> fresh == Found::Parsed(parse_text(p))
}

/// A run over the files: of each, what was kept for it and what came of it.
pub open spec fn is_run(
    files: Seq<FileFacts>,
    fresh: Seq<Found>,
    lookups: Seq<Lookup>,
    outcomes: Seq<Outcome>,
) -> bool {
    &&& fresh.len() == files.len()
    &&& lookups.len() == files.len()
    &&& outcomes.len() == files.len()
    &&& forall|k: int|
        0 <= k < files.len() ==> outcome_text(#[trigger] outcomes[k]) == outcome_with(
            files[k],
            used(lookups[k], fresh[k]),
        ) && is_faithful(lookups[k], fresh[k])
}

proof fn lemma_same_gathered(a: Seq<Outcome>, b: Seq<Outcome>)
    requires
        a.len() == b.len(),
        forall|k: int| 0 <= k < a.len() ==> outcome_text(#[trigger] a[k]) == outcome_text(b[k]),
    ensures
        source_texts(index::parsed_in(a)) == source_texts(index::parsed_in(b)),
        index::failed_in(a) == index::failed_in(b),
    decreases a.len(),
{
    if a.len() == 0 {
        assert(source_texts(index::parsed_in(a)) =~= source_texts(index::parsed_in(b)));
    } else {
        let x = a.drop_last();
        let y = b.drop_last();
        assert forall|k: int| 0 <= k < x.len() implies outcome_text(#[trigger] x[k])
            == outcome_text(y[k]) by {
            assert(x[k] == a[k]);
        }
        lemma_same_gathered(x, y);
        assert(outcome_text(a[a.len() - 1]) == outcome_text(b[a.len() - 1]));
        if let Outcome::Parsed(p) = a.last() {
            let q = b.last()->Parsed_0;
            assert(source_texts(index::parsed_in(x).push(p)) =~= source_texts(
                index::parsed_in(x),
            ).push(source_text(p)));
            assert(source_texts(index::parsed_in(y).push(q)) =~= source_texts(
                index::parsed_in(y),
            ).push(source_text(q)));
        }
    }
}

/// What is kept from earlier runs changes nothing: two runs over the same files
/// give the same graph and the same report, whatever each of them found kept and
/// could or could not read, be it everything, some of it or nothing.
pub proof fn law_kept_results_change_nothing(
    files: Seq<FileFacts>,
    fresh: Seq<Found>,
    lookups_a: Seq<Lookup>,
    lookups_b: Seq<Lookup>,
    a: Seq<Outcome>,
    b: Seq<Outcome>,
    failed_a: Seq<(RelPath, String)>,
    failed_b: Seq<(RelPath, String)>,
    scanned: usize,
    call_edges: bool,
    g: CodeGraph,
    h: CodeGraph,
    r: IndexReport,
    s: IndexReport,
)
    requires
        is_run(files, fresh, lookups_a, a),
        is_run(files, fresh, lookups_b, b),
        index::note_texts(failed_a) == index::failed_in(a),
        index::note_texts(failed_b) == index::failed_in(b),
        index::is_graph_of(
            g,
            order::arranged(index::parsed_in(a), index::source_order()),
            call_edges,
        ),
        index::is_graph_of(
            h,
            order::arranged(index::parsed_in(b), index::source_order()),
            call_edges,
        ),
        index::is_report_of(
            r,
            g,
            order::arranged(index::parsed_in(a), index::source_order()),
            scanned,
            failed_a,
        ),
        index::is_report_of(
            s,
            h,
            order::arranged(index::parsed_in(b), index::source_order()),
            scanned,
            failed_b,
        ),
    ensures
        graph_text(g) == graph_text(h),
        report_text(r) == report_text(s),
{
    assert forall|k: int| 0 <= k < a.len() implies outcome_text(#[trigger] a[k]) == outcome_text(
        b[k],
    ) by {
        assert(outcome_text(b[k]) == outcome_with(files[k], used(lookups_b[k], fresh[k])));
    }
    lemma_same_gathered(a, b);
    lemma_arranged_texts(index::parsed_in(a));
    lemma_arranged_texts(index::parsed_in(b));
    lemma_same_notes(failed_a);
    lemma_same_notes(failed_b);
    lemma_same_index(
        order::arranged(index::parsed_in(a), index::source_order()),
        order::arranged(index::parsed_in(b), index::source_order()),
        failed_a,
        failed_b,
        scanned,
        call_edges,
        g,
        h,
        r,
        s,
    );
}

} // verus!
