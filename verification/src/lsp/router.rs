//! Which source answers a question: the kind of the question alone decides.
//!
//! Questions about files go to the graph and never start a server. Questions
//! about symbols go to a language server. Where none answers, names may be
//! matched in the graph, and the answer says so.

use super::diagnostics;
use super::queries;
use super::{
    Diagnostic, LanguageServer, Location, LspError, Position, Precise, Range, WorkspaceEdit,
};
use crate::graph;
use crate::graph::{CodeGraph, NeighborhoodDirection};
use crate::order;
use crate::text;
use crate::types;
use crate::types::{
    CodeEdge, CodeFile, CodeSymbol, Confidence, EdgeKind, FileId, Language, RelPath, SymbolId,
};
use std::collections::{HashMap, HashSet};
use vstd::prelude::*;
use vstd::string::*;

verus! {

broadcast use vstd::std_specs::hash::group_hash_axioms;

// --------------------------------------------------------------- the table

/// Where a question is sent.
#[derive(Clone, Copy, Debug, PartialEq, Eq, Structural)]
pub enum DataSource {
    /// The import graph. It knows every import that a language server knows.
    Graph,
    /// A language server, for what depends on what a name means.
    LanguageServer,
}

/// The kind of a question.
#[derive(Clone, Copy, Debug, PartialEq, Eq, Hash, Structural)]
pub enum QueryKind {
    /// What a file imports, directly or through others.
    FileDependencies,
    /// What imports a file, directly or through others.
    FileImpact,
    /// The files of the repository, the most central first.
    RepoSkeleton,
    /// The files of the repository, those that matter for a task first.
    TaskRank,
    /// The symbols whose name holds a text.
    FuzzySymbol,
    /// The references to a symbol.
    PreciseReferences,
    /// The definition of a symbol.
    GotoDefinition,
    /// The diagnostics of a file.
    Diagnostics,
    /// The edits of a rename.
    PrepareRename,
}

impl QueryKind {
    /// Every kind.
    pub const ALL: [QueryKind; 9] = [
        QueryKind::FileDependencies,
        QueryKind::FileImpact,
        QueryKind::RepoSkeleton,
        QueryKind::TaskRank,
        QueryKind::FuzzySymbol,
        QueryKind::PreciseReferences,
        QueryKind::GotoDefinition,
        QueryKind::Diagnostics,
        QueryKind::PrepareRename,
    ];

    /// Where a kind of question is sent.
    pub open spec fn goes_to(self) -> DataSource {
        match self {
            QueryKind::FileDependencies | QueryKind::FileImpact | QueryKind::RepoSkeleton
            | QueryKind::TaskRank | QueryKind::FuzzySymbol => DataSource::Graph,
            QueryKind::PreciseReferences | QueryKind::GotoDefinition | QueryKind::Diagnostics
            | QueryKind::PrepareRename => DataSource::LanguageServer,
        }
    }

    /// Where a kind of question is sent.
    pub fn source(self) -> (r: DataSource)
        ensures
            r == self.goes_to(),
    {
        match self {
            QueryKind::FileDependencies | QueryKind::FileImpact | QueryKind::RepoSkeleton
            | QueryKind::TaskRank | QueryKind::FuzzySymbol => DataSource::Graph,
            QueryKind::PreciseReferences | QueryKind::GotoDefinition | QueryKind::Diagnostics
            | QueryKind::PrepareRename => DataSource::LanguageServer,
        }
    }
}

/// A question.
#[derive(Debug)]
pub enum Query {
    FileDependencies { target: FileId },
    FileImpact { target: FileId },
    RepoSkeleton,
    TaskRank { task: String },
    FuzzySymbol { query: String },
    PreciseReferences {
        path: RelPath,
        position: Position,
        /// The name to match where no server answers. Without one, it is that of
        /// the innermost symbol around the position.
        symbol: Option<String>,
    },
    GotoDefinition { path: RelPath, position: Position, symbol: Option<String> },
    Diagnostics { path: RelPath },
    PrepareRename { path: RelPath, position: Position, new_name: String },
}

impl Query {
    /// The kind of a question.
    pub open spec fn kind_of(self) -> QueryKind {
        match self {
            Query::FileDependencies { .. } => QueryKind::FileDependencies,
            Query::FileImpact { .. } => QueryKind::FileImpact,
            Query::RepoSkeleton => QueryKind::RepoSkeleton,
            Query::TaskRank { .. } => QueryKind::TaskRank,
            Query::FuzzySymbol { .. } => QueryKind::FuzzySymbol,
            Query::PreciseReferences { .. } => QueryKind::PreciseReferences,
            Query::GotoDefinition { .. } => QueryKind::GotoDefinition,
            Query::Diagnostics { .. } => QueryKind::Diagnostics,
            Query::PrepareRename { .. } => QueryKind::PrepareRename,
        }
    }

    /// The kind of a question.
    pub fn kind(&self) -> (r: QueryKind)
        ensures
            r == self.kind_of(),
    {
        match self {
            Query::FileDependencies { .. } => QueryKind::FileDependencies,
            Query::FileImpact { .. } => QueryKind::FileImpact,
            Query::RepoSkeleton => QueryKind::RepoSkeleton,
            Query::TaskRank { .. } => QueryKind::TaskRank,
            Query::FuzzySymbol { .. } => QueryKind::FuzzySymbol,
            Query::PreciseReferences { .. } => QueryKind::PreciseReferences,
            Query::GotoDefinition { .. } => QueryKind::GotoDefinition,
            Query::Diagnostics { .. } => QueryKind::Diagnostics,
            Query::PrepareRename { .. } => QueryKind::PrepareRename,
        }
    }
}

/// What an answer holds.
#[derive(Debug)]
pub enum Answer {
    Files(Vec<FileId>),
    /// Files, each with the number that it is ranked by.
    RankedFiles(Vec<(FileId, u64)>),
    Symbols(Vec<SymbolId>),
    Locations(Vec<Location>),
    Diagnostics(Vec<Diagnostic>),
    Edits(WorkspaceEdit),
}

/// An answer, and how it came about.
#[derive(Debug)]
pub struct Routed {
    pub kind: QueryKind,
    /// Where the question was sent.
    pub planned: DataSource,
    /// Where the answer came from.
    pub used: DataSource,
    pub value: Answer,
    pub confidence: Confidence,
    /// Set wherever the confidence is not the highest.
    pub note: Option<String>,
}

impl Routed {
    pub fn precise(self) -> (r: Precise<Answer>)
        ensures
            r == (Precise { value: self.value, confidence: self.confidence, note: self.note }),
    {
        Precise { value: self.value, confidence: self.confidence, note: self.note }
    }
}

/// Gives out language servers.
pub trait LspProvider: Send + Sync {
    type Server: LanguageServer;

    /// A server for a language. The first use may start one.
    fn acquire(&self, language: Language) -> Result<Self::Server, LspError>;

    /// How a server for a language is installed.
    fn install_hint(&self, language: Language) -> String {
        text::string_of(&text::chars_of(install_hint_for(language)))
    }
}

/// How a server for a language is installed.
pub open spec fn hint_of(language: Language) -> Seq<char> {
    match language {
        Language::Python => "pyright (`npm i -g pyright` or set ASTROLABE_LSP_PYTHON)"@,
        Language::Go => "gopls (`go install golang.org/x/tools/gopls@latest`)"@,
        Language::Java =>
        "jdtls (Eclipse JDT Language Server); set ASTROLABE_LSP_JAVA if installed"@,
        Language::Rust => "rust-analyzer (`rustup component add rust-analyzer`)"@,
        Language::TypeScript | Language::Tsx | Language::JavaScript =>
        "typescript-language-server (`npm i -g typescript-language-server typescript`)"@,
        Language::Swift =>
        "sourcekit-lsp (`xcode-select --install` / Xcode; set ASTROLABE_LSP_SWIFT)"@,
        Language::ObjC | Language::ObjCpp =>
        "sourcekit-lsp (preferred) or clangd (`xcode-select --install` / `brew install llvm`)"@,
        Language::C | Language::Cpp => "clangd (`brew install llvm` or set ASTROLABE_LSP_C)"@,
        Language::Php => "intelephense (`npm i -g intelephense` or set ASTROLABE_LSP_PHP)"@,
        Language::Vue =>
        "vue-language-server (`npm i -g @vue/language-server` or set ASTROLABE_LSP_VUE)"@,
    }
}

/// How a server for a language is installed.
pub fn install_hint_for(language: Language) -> (r: &'static str)
    ensures
        r@ == hint_of(language),
{
    match language {
        Language::Python => "pyright (`npm i -g pyright` or set ASTROLABE_LSP_PYTHON)",
        Language::Go => "gopls (`go install golang.org/x/tools/gopls@latest`)",
        Language::Java =>
        "jdtls (Eclipse JDT Language Server); set ASTROLABE_LSP_JAVA if installed",
        Language::Rust => "rust-analyzer (`rustup component add rust-analyzer`)",
        Language::TypeScript | Language::Tsx | Language::JavaScript =>
        "typescript-language-server (`npm i -g typescript-language-server typescript`)",
        Language::Swift =>
        "sourcekit-lsp (`xcode-select --install` / Xcode; set ASTROLABE_LSP_SWIFT)",
        Language::ObjC | Language::ObjCpp =>
        "sourcekit-lsp (preferred) or clangd (`xcode-select --install` / `brew install llvm`)",
        Language::C | Language::Cpp => "clangd (`brew install llvm` or set ASTROLABE_LSP_C)",
        Language::Php => "intelephense (`npm i -g intelephense` or set ASTROLABE_LSP_PHP)",
        Language::Vue =>
        "vue-language-server (`npm i -g @vue/language-server` or set ASTROLABE_LSP_VUE)",
    }
}

/// The program that serves a language, as notes name it.
pub open spec fn server_name_of(language: Language) -> Seq<char> {
    match language {
        Language::Python => "pyright"@,
        Language::Go => "gopls"@,
        Language::Java => "jdtls"@,
        Language::Rust => "rust-analyzer"@,
        Language::TypeScript | Language::Tsx | Language::JavaScript =>
        "typescript-language-server"@,
        Language::Swift | Language::ObjC | Language::ObjCpp => "sourcekit-lsp"@,
        Language::C | Language::Cpp => "clangd"@,
        Language::Php => "intelephense"@,
        Language::Vue => "vue-language-server"@,
    }
}

/// The program that serves a language, as notes name it.
pub fn primary_server_name(language: Language) -> (r: &'static str)
    ensures
        r@ == server_name_of(language),
{
    match language {
        Language::Python => "pyright",
        Language::Go => "gopls",
        Language::Java => "jdtls",
        Language::Rust => "rust-analyzer",
        Language::TypeScript | Language::Tsx | Language::JavaScript =>
        "typescript-language-server",
        Language::Swift | Language::ObjC | Language::ObjCpp => "sourcekit-lsp",
        Language::C | Language::Cpp => "clangd",
        Language::Php => "intelephense",
        Language::Vue => "vue-language-server",
    }
}

/// The weaker of two confidences.
pub open spec fn weaker(a: Confidence, b: Confidence) -> Confidence {
    if a.level() >= b.level() {
        a
    } else {
        b
    }
}

/// What may be claimed of an answer from a source: never more than the source
/// gives.
pub fn never_raise(source: Confidence, claimed: Confidence) -> (r: Confidence)
    ensures
        r == weaker(source, claimed),
{
    if source.rank() >= claimed.rank() {
        source
    } else {
        claimed
    }
}

// -------------------------------------------------------------------- notes

/// The note of an answer from the import graph.
pub open spec fn scoped_text() -> Seq<char> {
    "File-level import graph (scoped): backed by build-config resolution, not a compiler. Measured recall against language servers is 100% at this granularity."@
}

/// The note of an answer from matching names.
pub open spec fn fuzzy_text() -> Seq<char> {
    "Fuzzy symbol lookup is name matching against the graph index, not a language-server search. Homonyms and missed aliases are expected."@
}

/// The note of an answer that has no other.
pub open spec fn fallback_text(confidence: Confidence) -> Seq<char> {
    match confidence {
        Confidence::Exact => Seq::empty(),
        Confidence::Scoped => scoped_text(),
        Confidence::Syntactic => "Syntactic name match; may include false positives and misses."@,
        Confidence::Unknown => "Unable to determine this; the data source was unavailable."@,
    }
}

/// The note of names matched in place of a server's answer.
pub open spec fn degraded_text(
    action: Seq<char>,
    language: Language,
    err: LspError,
    hint: Seq<char>,
) -> Seq<char> {
    action + " require "@ + server_name_of(language) + ", which is currently unavailable ("@
        + super::error_text(err)
        + "). The following results are name-matched from the graph and may include false positives and misses. Install: "@
        + hint
}

/// The note of a question that only a server could have answered.
pub open spec fn unavailable_text(
    action: Seq<char>,
    language: Language,
    err: LspError,
    hint: Seq<char>,
) -> Seq<char> {
    action + " require "@ + server_name_of(language) + ", which is currently unavailable ("@
        + super::error_text(err)
        + "). The graph has no substitute for this query. Install: "@ + hint
}

/// The note of an answer from the import graph.
pub fn scoped_note() -> (r: String)
    ensures
        r@ == scoped_text(),
{
    String::from_str(
        "File-level import graph (scoped): backed by build-config resolution, not a compiler. Measured recall against language servers is 100% at this granularity.",
    )
}

/// The note of an answer that has no other.
pub fn fallback_note(confidence: Confidence) -> (r: String)
    ensures
        r@ == fallback_text(confidence),
{
    match confidence {
        Confidence::Exact => {
            let none = String::new();
            assert(none@ =~= Seq::<char>::empty());
            none
        },
        Confidence::Scoped => scoped_note(),
        Confidence::Syntactic => String::from_str(
            "Syntactic name match; may include false positives and misses.",
        ),
        Confidence::Unknown => String::from_str(
            "Unable to determine this; the data source was unavailable.",
        ),
    }
}

/// The note of names matched in place of a server's answer.
pub fn degrade_note(action: &str, language: Language, err: &LspError, hint: &str) -> (r: String)
    ensures
        r@ == degraded_text(action@, language, *err, hint@),
{
    let why = err.message();
    text::string_of(&text::chars_of(action)).concat(" require ").concat(
        primary_server_name(language),
    ).concat(", which is currently unavailable (").concat(why.as_str()).concat(
        "). The following results are name-matched from the graph and may include false positives and misses. Install: ",
    ).concat(hint)
}

/// The note of a question that only a server could have answered.
pub fn unavailable_note(action: &str, language: Language, err: &LspError, hint: &str) -> (r: String)
    ensures
        r@ == unavailable_text(action@, language, *err, hint@),
{
    let why = err.message();
    text::string_of(&text::chars_of(action)).concat(" require ").concat(
        primary_server_name(language),
    ).concat(", which is currently unavailable (").concat(why.as_str()).concat(
        "). The graph has no substitute for this query. Install: ",
    ).concat(hint)
}

// ---------------------------------------------------------------- the graph

/// The language of the first file with the path.
pub open spec fn recorded_language(files: Seq<CodeFile>, path: Seq<char>) -> Option<Language>
    decreases files.len(),
{
    if files.len() == 0 {
        None
    } else if files[0].path@ == path {
        files[0].language
    } else {
        recorded_language(files.drop_first(), path)
    }
}

/// The language of a file: as recorded, or else by its name, or else Go.
pub open spec fn language_at(g: CodeGraph, path: Seq<char>) -> Language {
    match recorded_language(g.files@, path) {
        Some(l) => l,
        None => match types::language_of_path(path) {
            Some(l) => l,
            None => Language::Go,
        },
    }
}

/// The language of a file.
pub fn language_of(g: &CodeGraph, path: &RelPath) -> (r: Language)
    ensures
        r == language_at(*g, path@),
{
    let ghost all = g.files@;
    let mut recorded: Option<Language> = None;
    let mut i: usize = 0;
    assert(all.skip(0) =~= all);
    while i < g.files.len() && !text::same(g.files[i].path.as_str(), path.as_str())
        invariant
            i <= g.files@.len(),
            all == g.files@,
            recorded is None,
            recorded_language(all, path@) == recorded_language(all.skip(i as int), path@),
        decreases g.files.len() - i,
    {
        assert(all.skip(i as int)[0] == all[i as int]);
        assert(all.skip(i as int).drop_first() =~= all.skip(i as int + 1));
        i = i + 1;
    }
    if i < g.files.len() {
        assert(all.skip(i as int)[0] == all[i as int]);
        recorded = g.files[i].language;
    }
    match recorded {
        Some(l) => l,
        None => match Language::from_path(path) {
            Some(l) => l,
            None => Language::Go,
        },
    }
}

/// The weakest confidence among import edges, if there are any.
pub open spec fn weakest_import(edges: Seq<CodeEdge>) -> Option<Confidence>
    decreases edges.len(),
{
    if edges.len() == 0 {
        None
    } else {
        let before = weakest_import(edges.drop_last());
        let e = edges.last();
        if e.kind != EdgeKind::Import {
            before
        } else {
            match before {
                Some(c) => Some(weaker(c, e.confidence)),
                None => Some(e.confidence),
            }
        }
    }
}

/// How far answers from the imports of a graph can be relied on.
pub open spec fn import_level(g: CodeGraph) -> Confidence {
    match weakest_import(g.edges@) {
        Some(c) => c,
        None => Confidence::Scoped,
    }
}

/// How far answers from the imports of a graph can be relied on: as far as the
/// weakest of them.
pub fn import_confidence(g: &CodeGraph) -> (r: Confidence)
    ensures
        r == import_level(*g),
{
    let mut found: Option<Confidence> = None;
    let mut i: usize = 0;
    assert(g.edges@.take(0) =~= Seq::<CodeEdge>::empty());
    while i < g.edges.len()
        invariant
            i <= g.edges@.len(),
            found == weakest_import(g.edges@.take(i as int)),
        decreases g.edges.len() - i,
    {
        assert(g.edges@.take(i as int + 1).drop_last() =~= g.edges@.take(i as int));
        let e = g.edges[i];
        match e.kind {
            EdgeKind::Import => {
                found = match found {
                    Some(c) => Some(never_raise(c, e.confidence)),
                    None => Some(e.confidence),
                };
            },
            EdgeKind::Call => {},
        }
        i = i + 1;
    }
    assert(g.edges@.take(g.edges@.len() as int) =~= g.edges@);
    match found {
        Some(c) => c,
        None => Confidence::Scoped,
    }
}

/// A ranked file may stand before another: the higher score first, then by path,
/// then by number.
pub open spec fn ranked_le(g: CodeGraph, a: (FileId, u64), b: (FileId, u64)) -> bool {
    let pa = graph::path_of(g.files@, a.0.0, g.files@.len());
    let pb = graph::path_of(g.files@, b.0.0, g.files@.len());
    if a.1 != b.1 {
        a.1 > b.1
    } else if pa != pb {
        text::text_le(pa, pb)
    } else {
        a.0.0 <= b.0.0
    }
}

/// [`ranked_le`] as an order.
pub open spec fn ranked_order(g: CodeGraph) -> spec_fn((FileId, u64), (FileId, u64)) -> bool {
    |a: (FileId, u64), b: (FileId, u64)| ranked_le(g, a, b)
}

/// The files with their scores.
pub open spec fn scored(g: CodeGraph, scores: Map<u32, u64>) -> Seq<(FileId, u64)> {
    g.files@.map_values(|f: CodeFile| (f.id, graph::score_of(scores, f.id.0)))
}

/// The files, the highest score first.
pub open spec fn ranked_files(g: CodeGraph, scores: Map<u32, u64>) -> Seq<(FileId, u64)> {
    order::arranged(scored(g, scores), ranked_order(g))
}

/// A file to be ranked.
struct Standing {
    id: u32,
    score: u64,
    path: String,
}

spec fn standing_le(a: Standing, b: Standing) -> bool {
    if a.score != b.score {
        a.score > b.score
    } else if a.path@ != b.path@ {
        text::text_le(a.path@, b.path@)
    } else {
        a.id <= b.id
    }
}

spec fn standing_order() -> spec_fn(Standing, Standing) -> bool {
    |a: Standing, b: Standing| standing_le(a, b)
}

spec fn pair_of() -> spec_fn(Standing) -> (FileId, u64) {
    |a: Standing| (FileId(a.id), a.score)
}

proof fn lemma_standing_order()
    ensures
        order::total_preorder(standing_order()),
{
    let le = standing_order();
    assert forall|a: Standing, b: Standing| #[trigger] le(a, b) || le(b, a) by {
        text::lemma_text_le_total(a.path@, b.path@);
    }
    assert forall|a: Standing, b: Standing, c: Standing| #[trigger]
        le(a, b) && #[trigger] le(b, c) implies le(a, c) by {
        if a.score == b.score && b.score == c.score && a.path@ != b.path@ && b.path@ != c.path@ {
            text::lemma_text_le_transitive(a.path@, b.path@, c.path@);
            if a.path@ == c.path@ {
                text::lemma_text_le_antisymmetric(a.path@, b.path@);
            }
        }
    }
}

fn sort_standings(rows: Vec<Standing>) -> (out: Vec<Standing>)
    ensures
        out@ == order::arranged(rows@, standing_order()),
{
    proof {
        lemma_standing_order();
    }
    let f = |a: &Standing, b: &Standing| -> (r: bool)
        ensures
            r == standing_order()(*a, *b),
        {
            if a.score != b.score {
                return a.score > b.score;
            }
            match text::rank(a.path.as_str(), b.path.as_str()) {
                text::Rank::Before => true,
                text::Rank::After => false,
                text::Rank::Same => a.id <= b.id,
            }
        };
    order::sort_by(rows, &f, Ghost(standing_order()))
}

/// The row of the file at a position.
spec fn is_standing(g: CodeGraph, scores: Map<u32, u64>, row: Standing, at: int) -> bool {
    &&& row.id == g.files@[at].id.0
    &&& row.score == graph::score_of(scores, row.id)
    &&& row.path@ == graph::path_of(g.files@, row.id, g.files@.len())
}

fn standings(g: &CodeGraph, scores: &HashMap<u32, u64>) -> (rows: Vec<Standing>)
    ensures
        rows@.len() == g.files@.len(),
        forall|k: int| 0 <= k < rows@.len() ==> is_standing(*g, scores@, #[trigger] rows@[k], k),
{
    let places = graph::files_by_id(&g.files);
    let mut rows: Vec<Standing> = Vec::new();
    let mut i: usize = 0;
    while i < g.files.len()
        invariant
            i <= g.files@.len(),
            rows@.len() == i,
            forall|id: u32| #[trigger]
                places@.contains_key(id) <==> graph::known(g.files@, id),
            forall|id: u32| #[trigger]
                places@.contains_key(id) ==> places@[id] < g.files@.len()
                    && g.files@[places@[id] as int].path@ == graph::path_of(
                    g.files@,
                    id,
                    g.files@.len(),
                ),
            forall|k: int| 0 <= k < i ==> is_standing(*g, scores@, #[trigger] rows@[k], k),
        decreases g.files.len() - i,
    {
        let id: u32 = g.files[i].id.0;
        let score: u64 = match scores.get(&id) {
            Some(s) => *s,
            None => 0,
        };
        assert(graph::known(g.files@, id)) by {
            assert(g.files@[i as int].id.0 == id);
        }
        assert(places@.contains_key(id));
        let at: usize = match places.get(&id) {
            Some(p) => *p,
            None => i,
        };
        rows.push(Standing { id, score, path: g.files[at].path.to_text() });
        i = i + 1;
    }
    rows
}

/// The files, the highest score first, then by path, then by number.
pub fn files_by_centrality(g: &CodeGraph, scores: &HashMap<u32, u64>) -> (out: Vec<(FileId, u64)>)
    ensures
        out@ == ranked_files(*g, scores@),
{
    let rows = standings(g, scores);
    let ghost given = rows@;
    proof {
        lemma_standing_order();
        let t = scored(*g, scores@);
        assert forall|i: int| 0 <= i < given.len() implies #[trigger] t[i] == pair_of()(
            given[i],
        ) by {
            assert(is_standing(*g, scores@, given[i], i));
        }
        assert forall|i: int, j: int| 0 <= i < given.len() && 0 <= j < given.len() implies
            standing_order()(#[trigger] given[i], #[trigger] given[j]) == ranked_order(*g)(
            pair_of()(given[i]),
            pair_of()(given[j]),
        ) by {
            assert(is_standing(*g, scores@, given[i], i));
            assert(is_standing(*g, scores@, given[j], j));
        }
        assert(order::same_order(given, t, standing_order(), ranked_order(*g), pair_of()));
        order::lemma_arranged_map(given, t, standing_order(), ranked_order(*g), pair_of());
    }
    let sorted = sort_standings(rows);
    let mut out: Vec<(FileId, u64)> = Vec::new();
    let mut i: usize = 0;
    while i < sorted.len()
        invariant
            i <= sorted@.len(),
            out@.len() == i,
            forall|k: int| 0 <= k < i ==> #[trigger] out@[k] == pair_of()(sorted@[k]),
        decreases sorted.len() - i,
    {
        out.push((FileId(sorted[i].id), sorted[i].score));
        i = i + 1;
    }
    assert(out@ =~= sorted@.map_values(pair_of()));
    out
}

/// A symbol may stand before another: by name, then by line, then by number.
pub open spec fn symbol_le(a: CodeSymbol, b: CodeSymbol) -> bool {
    if a.name@ != b.name@ {
        text::text_le(a.name@, b.name@)
    } else if a.start_line != b.start_line {
        a.start_line <= b.start_line
    } else {
        a.id.0 <= b.id.0
    }
}

/// [`symbol_le`] as an order.
pub open spec fn symbol_order() -> spec_fn(CodeSymbol, CodeSymbol) -> bool {
    |a: CodeSymbol, b: CodeSymbol| symbol_le(a, b)
}

/// The symbols whose name holds `needle`, letter case aside.
pub open spec fn holding(symbols: Seq<CodeSymbol>, needle: Seq<char>) -> Seq<CodeSymbol>
    decreases symbols.len(),
{
    if symbols.len() == 0 {
        symbols
    } else {
        let before = holding(symbols.drop_last(), needle);
        if text::contains_text(text::lowercase(symbols.last().name@), needle) {
            before.push(symbols.last())
        } else {
            before
        }
    }
}

/// The symbols whose name holds a text, letter case aside, in order. An empty
/// text finds none.
pub open spec fn fuzzy_hits(g: CodeGraph, query: Seq<char>) -> Seq<SymbolId> {
    if query.len() == 0 {
        Seq::empty()
    } else {
        order::arranged(
            holding(g.symbols@, text::lowercase(query)),
            symbol_order(),
        ).map_values(|s: CodeSymbol| s.id)
    }
}

fn sort_symbols(v: Vec<CodeSymbol>) -> (out: Vec<CodeSymbol>)
    ensures
        out@ == order::arranged(v@, symbol_order()),
{
    let ghost le = symbol_order();
    proof {
        assert forall|a: CodeSymbol, b: CodeSymbol| #[trigger] le(a, b) || le(b, a) by {
            text::lemma_text_le_total(a.name@, b.name@);
        }
        assert forall|a: CodeSymbol, b: CodeSymbol, c: CodeSymbol| #[trigger]
            le(a, b) && #[trigger] le(b, c) implies le(a, c) by {
            if a.name@ != b.name@ && b.name@ != c.name@ {
                text::lemma_text_le_transitive(a.name@, b.name@, c.name@);
                if a.name@ == c.name@ {
                    text::lemma_text_le_antisymmetric(a.name@, b.name@);
                }
            }
        }
    }
    let f = |a: &CodeSymbol, b: &CodeSymbol| -> (r: bool)
        ensures
            r == symbol_order()(*a, *b),
        {
            match text::rank(a.name.as_str(), b.name.as_str()) {
                text::Rank::Before => true,
                text::Rank::After => false,
                text::Rank::Same => {
                    if a.start_line != b.start_line {
                        a.start_line <= b.start_line
                    } else {
                        a.id.0 <= b.id.0
                    }
                },
            }
        };
    order::sort_by(v, &f, Ghost(le))
}

/// The symbols whose name holds a text, letter case aside.
pub fn fuzzy_symbols(g: &CodeGraph, query: &str) -> (out: Vec<SymbolId>)
    ensures
        out@ == fuzzy_hits(*g, query@),
{
    if query.is_empty() {
        return Vec::new();
    }
    let needle = text::chars_of(text::fold(query).as_str());
    let mut hits: Vec<CodeSymbol> = Vec::new();
    let mut i: usize = 0;
    assert(g.symbols@.take(0) =~= Seq::<CodeSymbol>::empty());
    while i < g.symbols.len()
        invariant
            i <= g.symbols@.len(),
            needle@ == text::lowercase(query@),
            hits@ == holding(g.symbols@.take(i as int), needle@),
        decreases g.symbols.len() - i,
    {
        assert(g.symbols@.take(i as int + 1).drop_last() =~= g.symbols@.take(i as int));
        let name = text::chars_of(text::fold(g.symbols[i].name.as_str()).as_str());
        if text::has_text(&name, &needle) {
            hits.push(g.symbols[i].clone());
        }
        i = i + 1;
    }
    assert(g.symbols@.take(g.symbols@.len() as int) =~= g.symbols@);
    let sorted = sort_symbols(hits);
    let mut out: Vec<SymbolId> = Vec::new();
    i = 0;
    while i < sorted.len()
        invariant
            i <= sorted@.len(),
            out@.len() == i,
            forall|k: int| 0 <= k < i ==> #[trigger] out@[k] == sorted@[k].id,
        decreases sorted.len() - i,
    {
        out.push(sorted[i].id);
        i = i + 1;
    }
    assert(out@ =~= sorted@.map_values(|s: CodeSymbol| s.id));
    out
}

/// How many lines a symbol spans beyond its first.
pub open spec fn span_of(s: CodeSymbol) -> u32 {
    if s.end_line < s.start_line {
        0
    } else {
        (s.end_line - s.start_line) as u32
    }
}

/// The shorter of two symbols, or that with the smaller number.
pub open spec fn is_tighter(a: CodeSymbol, b: CodeSymbol) -> bool {
    span_of(a) < span_of(b) || (span_of(a) == span_of(b) && a.id.0 < b.id.0)
}

/// The tightest symbol of a file around a line, the first of several.
pub open spec fn innermost(symbols: Seq<CodeSymbol>, file: u32, line: u32) -> Option<CodeSymbol>
    decreases symbols.len(),
{
    if symbols.len() == 0 {
        None
    } else {
        let before = innermost(symbols.drop_last(), file, line);
        let s = symbols.last();
        if s.file.0 == file && s.start_line <= line && line <= s.end_line {
            match before {
                Some(b) => if is_tighter(s, b) {
                    Some(s)
                } else {
                    Some(b)
                },
                None => Some(s),
            }
        } else {
            before
        }
    }
}

/// The number of the first file with the path.
pub open spec fn file_at(files: Seq<CodeFile>, path: Seq<char>) -> Option<u32>
    decreases files.len(),
{
    if files.len() == 0 {
        None
    } else if files[0].path@ == path {
        Some(files[0].id.0)
    } else {
        file_at(files.drop_first(), path)
    }
}

/// The line of a position, counted from 1.
pub open spec fn line_of(position: Position) -> u32 {
    if position.line == u32::MAX {
        u32::MAX
    } else {
        (position.line + 1) as u32
    }
}

/// The symbol around a position.
pub open spec fn symbol_around(g: CodeGraph, path: Seq<char>, position: Position) -> Option<
    CodeSymbol,
> {
    match file_at(g.files@, path) {
        Some(file) => innermost(g.symbols@, file, line_of(position)),
        None => None,
    }
}

fn find_file(g: &CodeGraph, path: &RelPath) -> (r: Option<u32>)
    ensures
        r == file_at(g.files@, path@),
{
    let ghost all = g.files@;
    let mut i: usize = 0;
    assert(all.skip(0) =~= all);
    while i < g.files.len()
        invariant
            i <= g.files@.len(),
            all == g.files@,
            file_at(all, path@) == file_at(all.skip(i as int), path@),
        decreases g.files.len() - i,
    {
        assert(all.skip(i as int)[0] == all[i as int]);
        assert(all.skip(i as int).drop_first() =~= all.skip(i as int + 1));
        if text::same(g.files[i].path.as_str(), path.as_str()) {
            return Some(g.files[i].id.0);
        }
        i = i + 1;
    }
    None
}

fn span(s: &CodeSymbol) -> (r: u32)
    ensures
        r == span_of(*s),
{
    if s.end_line < s.start_line {
        0
    } else {
        s.end_line - s.start_line
    }
}

/// The symbol around a position: the tightest one of the file.
pub fn symbol_at<'g>(g: &'g CodeGraph, path: &RelPath, position: Position) -> (r: Option<
    &'g CodeSymbol,
>)
    ensures
        match r {
            Some(s) => symbol_around(*g, path@, position) == Some(*s),
            None => symbol_around(*g, path@, position) is None,
        },
{
    let file: u32 = match find_file(g, path) {
        Some(f) => f,
        None => {
            return None;
        },
    };
    let line: u32 = if position.line == u32::MAX {
        u32::MAX
    } else {
        position.line + 1
    };
    let mut best: Option<usize> = None;
    let mut i: usize = 0;
    assert(g.symbols@.take(0) =~= Seq::<CodeSymbol>::empty());
    while i < g.symbols.len()
        invariant
            i <= g.symbols@.len(),
            match best {
                Some(b) => b < g.symbols@.len() && innermost(g.symbols@.take(i as int), file, line)
                    == Some(g.symbols@[b as int]),
                None => innermost(g.symbols@.take(i as int), file, line) is None,
            },
        decreases g.symbols.len() - i,
    {
        assert(g.symbols@.take(i as int + 1).drop_last() =~= g.symbols@.take(i as int));
        let s = &g.symbols[i];
        if s.file.0 == file && s.start_line <= line && line <= s.end_line {
            match best {
                Some(b) => {
                    let t = &g.symbols[b];
                    let x: u32 = span(s);
                    let y: u32 = span(t);
                    if x < y || (x == y && s.id.0 < t.id.0) {
                        best = Some(i);
                    }
                },
                None => {
                    best = Some(i);
                },
            }
        }
        i = i + 1;
    }
    assert(g.symbols@.take(g.symbols@.len() as int) =~= g.symbols@);
    match best {
        Some(b) => Some(&g.symbols[b]),
        None => None,
    }
}

/// The name that a question is about: the one that it gives, or that of the
/// symbol around the position.
pub open spec fn name_asked(
    g: CodeGraph,
    path: Seq<char>,
    position: Position,
    symbol: Option<Seq<char>>,
) -> Seq<char> {
    match symbol {
        Some(name) if name.len() > 0 => name,
        _ => match symbol_around(g, path, position) {
            Some(s) => s.name@,
            None => Seq::empty(),
        },
    }
}

/// The text of a name, if there is one.
pub open spec fn name_text(symbol: Option<&str>) -> Option<Seq<char>> {
    match symbol {
        Some(s) => Some(s@),
        None => None,
    }
}

/// The name that a question is about.
pub fn resolved_name(
    g: &CodeGraph,
    path: &RelPath,
    position: Position,
    symbol: Option<&str>,
) -> (r: String)
    ensures
        r@ == name_asked(*g, path@, position, name_text(symbol)),
{
    if let Some(name) = symbol {
        if !name.is_empty() {
            return text::string_of(&text::chars_of(name));
        }
    }
    match symbol_at(g, path, position) {
        Some(s) => s.name.clone(),
        None => {
            let none = String::new();
            assert(none@ =~= Seq::<char>::empty());
            none
        },
    }
}

// --------------------------------------------------------------- name match

/// What is asked of a server about a symbol.
#[derive(Clone, Copy, Debug, PartialEq, Eq, Structural)]
pub enum LspOp {
    References,
    Definition,
}

/// A symbol with the number has the name.
pub open spec fn is_named(symbols: Seq<CodeSymbol>, name: Seq<char>, id: u32) -> bool {
    exists|k: int|
        0 <= k < symbols.len() && (#[trigger] symbols[k]).name@ == name && symbols[k].id.0 == id
}

/// The symbol with the number calls one that has the name.
pub open spec fn calls_named(g: CodeGraph, name: Seq<char>, id: u32) -> bool {
    exists|k: int|
        0 <= k < g.edges@.len() && (#[trigger] g.edges@[k]).kind == EdgeKind::Call
            && g.edges@[k].from == id && is_named(g.symbols@, name, g.edges@[k].to)
}

/// The symbol with the number is a match: it has the name or, where references
/// are asked for, calls one that has it.
pub open spec fn is_match(g: CodeGraph, name: Seq<char>, op: LspOp, id: u32) -> bool {
    is_named(g.symbols@, name, id) || (op == LspOp::References && calls_named(g, name, id))
}

/// The lines of a symbol, as a range from 0 on.
pub open spec fn range_of(s: CodeSymbol) -> Range {
    Range {
        start: Position {
            line: if s.start_line == 0 {
                0
            } else {
                (s.start_line - 1) as u32
            },
            character: 0,
        },
        end: Position {
            line: if s.end_line == 0 {
                0
            } else {
                (s.end_line - 1) as u32
            },
            character: 0,
        },
    }
}

/// Where the matches among `symbols` stand, in their order. One without a file
/// stands nowhere.
pub open spec fn match_places(
    g: CodeGraph,
    symbols: Seq<CodeSymbol>,
    name: Seq<char>,
    op: LspOp,
) -> Seq<(Seq<char>, Range)>
    decreases symbols.len(),
{
    if symbols.len() == 0 {
        Seq::empty()
    } else {
        let before = match_places(g, symbols.drop_last(), name, op);
        let s = symbols.last();
        if is_match(g, name, op, s.id.0) && graph::known(g.files@, s.file.0) {
            before.push((graph::path_of(g.files@, s.file.0, g.files@.len()), range_of(s)))
        } else {
            before
        }
    }
}

/// Where the matches of a name stand. An empty name has none.
pub open spec fn name_places(g: CodeGraph, name: Seq<char>, op: LspOp) -> Seq<(Seq<char>, Range)> {
    if name.len() == 0 {
        Seq::empty()
    } else {
        match_places(g, g.symbols@, name, op)
    }
}

fn named_ids(symbols: &Vec<CodeSymbol>, name: &str) -> (out: HashSet<u32>)
    ensures
        forall|id: u32| #[trigger] out@.contains(id) <==> is_named(symbols@, name@, id),
{
    let mut out: HashSet<u32> = HashSet::new();
    let mut i: usize = 0;
    while i < symbols.len()
        invariant
            i <= symbols@.len(),
            forall|id: u32| #[trigger]
                out@.contains(id) <==> is_named(symbols@.take(i as int), name@, id),
        decreases symbols.len() - i,
    {
        let ghost was = out@;
        let ghost head = symbols@.take(i as int);
        let ghost more = symbols@.take(i as int + 1);
        let hit = text::same(symbols[i].name.as_str(), name);
        if hit {
            out.insert(symbols[i].id.0);
        }
        assert forall|id: u32| #[trigger] out@.contains(id) <==> is_named(more, name@, id) by {
            if is_named(head, name@, id) {
                let k = choose|k: int|
                    0 <= k < head.len() && (#[trigger] head[k]).name@ == name@ && head[k].id.0
                        == id;
                assert(more[k] == head[k]);
            }
            if is_named(more, name@, id) {
                let k = choose|k: int|
                    0 <= k < more.len() && (#[trigger] more[k]).name@ == name@ && more[k].id.0
                        == id;
                if k < i {
                    assert(head[k] == more[k]);
                }
            }
            assert(more[i as int] == symbols@[i as int]);
        }
        i = i + 1;
    }
    assert(symbols@.take(symbols@.len() as int) =~= symbols@);
    out
}

/// Some of the first `n` edges is a call from `id` to a symbol with the name.
spec fn calls_within(g: CodeGraph, name: Seq<char>, id: u32, n: int) -> bool {
    exists|k: int|
        0 <= k < n && (#[trigger] g.edges@[k]).kind == EdgeKind::Call && g.edges@[k].from == id
            && is_named(g.symbols@, name, g.edges@[k].to)
}

fn calling_ids(g: &CodeGraph, name: &str, named: &HashSet<u32>) -> (out: HashSet<u32>)
    requires
        forall|id: u32| #[trigger] named@.contains(id) <==> is_named(g.symbols@, name@, id),
    ensures
        forall|id: u32| #[trigger] out@.contains(id) <==> calls_named(*g, name@, id),
{
    let mut out: HashSet<u32> = HashSet::new();
    let mut i: usize = 0;
    while i < g.edges.len()
        invariant
            i <= g.edges@.len(),
            forall|id: u32| #[trigger]
                named@.contains(id) <==> is_named(g.symbols@, name@, id),
            forall|id: u32| #[trigger]
                out@.contains(id) <==> calls_within(*g, name@, id, i as int),
        decreases g.edges.len() - i,
    {
        let ghost was = out@;
        let e = g.edges[i];
        let call = match e.kind {
            EdgeKind::Call => true,
            EdgeKind::Import => false,
        };
        let hit = call && named.contains(&e.to);
        if hit {
            out.insert(e.from);
        }
        assert forall|id: u32| #[trigger] out@.contains(id) <==> calls_within(
            *g,
            name@,
            id,
            i as int + 1,
        ) by {
            if calls_within(*g, name@, id, i as int) {
                let k = choose|k: int|
                    0 <= k < i && (#[trigger] g.edges@[k]).kind == EdgeKind::Call
                        && g.edges@[k].from == id && is_named(g.symbols@, name@, g.edges@[k].to);
                assert(g.edges@[k].from == id);
            }
            if calls_within(*g, name@, id, i as int + 1) {
                let k = choose|k: int|
                    0 <= k < i + 1 && (#[trigger] g.edges@[k]).kind == EdgeKind::Call
                        && g.edges@[k].from == id && is_named(g.symbols@, name@, g.edges@[k].to);
                if k < i {
                    assert(calls_within(*g, name@, id, i as int));
                }
            }
            if hit && id == e.from {
                assert(g.edges@[i as int].from == id);
            }
        }
        i = i + 1;
    }
    out
}

/// Where the matches of a name stand.
pub fn name_matched_locations(g: &CodeGraph, name: &str, op: LspOp) -> (out: Vec<Location>)
    ensures
        queries::keys_of(out@) == name_places(*g, name@, op),
{
    let mut out: Vec<Location> = Vec::new();
    assert(queries::keys_of(out@) =~= Seq::empty());
    if name.is_empty() {
        return out;
    }
    let named = named_ids(&g.symbols, name);
    let calling = calling_ids(g, name, &named);
    let places = graph::files_by_id(&g.files);
    let refs = match op {
        LspOp::References => true,
        LspOp::Definition => false,
    };
    let mut i: usize = 0;
    assert(g.symbols@.take(0) =~= Seq::<CodeSymbol>::empty());
    while i < g.symbols.len()
        invariant
            i <= g.symbols@.len(),
            refs == (op == LspOp::References),
            forall|id: u32| #[trigger]
                named@.contains(id) <==> is_named(g.symbols@, name@, id),
            forall|id: u32| #[trigger] calling@.contains(id) <==> calls_named(*g, name@, id),
            forall|id: u32| #[trigger]
                places@.contains_key(id) <==> graph::known(g.files@, id),
            forall|id: u32| #[trigger]
                places@.contains_key(id) ==> places@[id] < g.files@.len()
                    && g.files@[places@[id] as int].path@ == graph::path_of(
                    g.files@,
                    id,
                    g.files@.len(),
                ),
            queries::keys_of(out@) == match_places(*g, g.symbols@.take(i as int), name@, op),
        decreases g.symbols.len() - i,
    {
        let ghost was = queries::keys_of(out@);
        assert(g.symbols@.take(i as int + 1).drop_last() =~= g.symbols@.take(i as int));
        let s = &g.symbols[i];
        if named.contains(&s.id.0) || (refs && calling.contains(&s.id.0)) {
            if let Some(at) = places.get(&s.file.0) {
                let start: u32 = if s.start_line == 0 {
                    0
                } else {
                    s.start_line - 1
                };
                let end: u32 = if s.end_line == 0 {
                    0
                } else {
                    s.end_line - 1
                };
                let place = Location {
                    path: g.files[*at].path.clone(),
                    range: Range {
                        start: Position { line: start, character: 0 },
                        end: Position { line: end, character: 0 },
                    },
                };
                let ghost key = queries::key_of(place);
                out.push(place);
                assert(queries::keys_of(out@) =~= was.push(key));
            }
        }
        i = i + 1;
    }
    assert(g.symbols@.take(g.symbols@.len() as int) =~= g.symbols@);
    out
}

// ------------------------------------------------------------------ answers

/// `r` is an answer of this kind, from this source, with this confidence. Where
/// the confidence is not the highest, it has a note.
pub open spec fn is_finished(
    r: Routed,
    kind: QueryKind,
    used: DataSource,
    confidence: Confidence,
    note: Option<Seq<char>>,
) -> bool {
    &&& r.kind == kind
    &&& r.planned == kind.goes_to()
    &&& r.used == used
    &&& r.confidence == confidence
    &&& if confidence == Confidence::Exact {
        r.note is None
    } else {
        r.note matches Some(n) && n@ == (match note {
            Some(t) => t,
            None => fallback_text(confidence),
        })
    }
}

/// Makes an answer. It claims no more than its source gives, and names matched in
/// place of a server's answer are never claimed to be exact.
pub fn finish(
    kind: QueryKind,
    used: DataSource,
    source: Confidence,
    claimed: Confidence,
    value: Answer,
    note: Option<String>,
) -> (r: Routed)
    requires
        !(used == DataSource::Graph && kind.goes_to() == DataSource::LanguageServer && weaker(
            source,
            claimed,
        ) == Confidence::Exact),
    ensures
        is_finished(
            r,
            kind,
            used,
            weaker(source, claimed),
            match note {
                Some(n) => Some(n@),
                None => None,
            },
        ),
        r.value == value,
{
    let planned = kind.source();
    let confidence = never_raise(source, claimed);
    let note = match confidence {
        Confidence::Exact => None,
        _ => Some(
            match note {
                Some(n) => n,
                None => fallback_note(confidence),
            },
        ),
    };
    Routed { kind, planned, used, value, confidence, note }
}

/// The text of a name, if there is one.
pub open spec fn given_name(symbol: Option<String>) -> Option<Seq<char>> {
    match symbol {
        Some(s) => Some(s@),
        None => None,
    }
}

/// What a question about a symbol is called in notes.
pub open spec fn action_of(op: LspOp) -> Seq<char> {
    match op {
        LspOp::References => "Precise references"@,
        LspOp::Definition => "Go-to-definition"@,
    }
}

/// The kind of a question about a symbol.
pub open spec fn op_kind(op: LspOp) -> QueryKind {
    match op {
        LspOp::References => QueryKind::PreciseReferences,
        LspOp::Definition => QueryKind::GotoDefinition,
    }
}

/// `r` answers a question about a symbol to which the server said `reply`: its
/// locations, or the matches of the name where it said none.
pub open spec fn is_locations_answer(
    r: Routed,
    g: CodeGraph,
    path: Seq<char>,
    position: Position,
    symbol: Option<Seq<char>>,
    op: LspOp,
    reply: Result<Vec<Location>, LspError>,
    hint: Seq<char>,
) -> bool {
    r.value matches Answer::Locations(out) && match reply {
        Ok(hits) => is_finished(
            r,
            op_kind(op),
            DataSource::LanguageServer,
            Confidence::Exact,
            None,
        ) && queries::are_sorted_locations(
            queries::keys_of(out@),
            queries::keys_of(hits@),
            None,
        ),
        Err(err) => is_finished(
            r,
            op_kind(op),
            DataSource::Graph,
            Confidence::Syntactic,
            Some(degraded_text(action_of(op), language_at(g, path), err, hint)),
        ) && queries::are_sorted_locations(
            queries::keys_of(out@),
            name_places(g, name_asked(g, path, position, symbol), op),
            None,
        ),
    }
}

/// Answers a question about a symbol to which the server said `reply`. An empty
/// reply is not filled from the graph.
pub fn locations_answer(
    g: &CodeGraph,
    path: &RelPath,
    position: Position,
    symbol: Option<&str>,
    op: LspOp,
    reply: Result<Vec<Location>, LspError>,
    hint: &str,
) -> (r: Routed)
    ensures
        is_locations_answer(r, *g, path@, position, name_text(symbol), op, reply, hint@),
{
    let kind = match op {
        LspOp::References => QueryKind::PreciseReferences,
        LspOp::Definition => QueryKind::GotoDefinition,
    };
    match reply {
        Ok(hits) => finish(
            kind,
            DataSource::LanguageServer,
            Confidence::Exact,
            Confidence::Exact,
            Answer::Locations(queries::sort_locations(hits, None)),
            None,
        ),
        Err(err) => {
            let name = resolved_name(g, path, position, symbol);
            let found = name_matched_locations(g, name.as_str(), op);
            let sorted = queries::sort_locations(found, None);
            let action = match op {
                LspOp::References => "Precise references",
                LspOp::Definition => "Go-to-definition",
            };
            let note = degrade_note(action, language_of(g, path), &err, hint);
            finish(
                kind,
                DataSource::Graph,
                Confidence::Syntactic,
                Confidence::Syntactic,
                Answer::Locations(sorted),
                Some(note),
            )
        },
    }
}

/// `r` answers a question for diagnostics to which the server said `reply`.
/// Without a reply nothing is known, which is not the same as a clean file.
pub open spec fn is_diagnostics_answer(
    r: Routed,
    g: CodeGraph,
    path: Seq<char>,
    reply: Result<Vec<Diagnostic>, LspError>,
    hint: Seq<char>,
) -> bool {
    r.value matches Answer::Diagnostics(out) && match reply {
        Ok(found) => is_finished(
            r,
            QueryKind::Diagnostics,
            DataSource::LanguageServer,
            Confidence::Exact,
            None,
        ) && out@ == order::arranged(found@, diagnostics::diagnostic_order()),
        Err(err) => is_finished(
            r,
            QueryKind::Diagnostics,
            DataSource::Graph,
            Confidence::Unknown,
            Some(unavailable_text("Diagnostics"@, language_at(g, path), err, hint)),
        ) && out@.len() == 0,
    }
}

/// Answers a question for diagnostics to which the server said `reply`.
pub fn diagnostics_answer(
    g: &CodeGraph,
    path: &RelPath,
    reply: Result<Vec<Diagnostic>, LspError>,
    hint: &str,
) -> (r: Routed)
    ensures
        is_diagnostics_answer(r, *g, path@, reply, hint@),
{
    match reply {
        Ok(found) => finish(
            QueryKind::Diagnostics,
            DataSource::LanguageServer,
            Confidence::Exact,
            Confidence::Exact,
            Answer::Diagnostics(diagnostics::sort_diagnostics(found)),
            None,
        ),
        Err(err) => {
            let note = unavailable_note("Diagnostics", language_of(g, path), &err, hint);
            finish(
                QueryKind::Diagnostics,
                DataSource::Graph,
                Confidence::Unknown,
                Confidence::Unknown,
                Answer::Diagnostics(Vec::new()),
                Some(note),
            )
        },
    }
}

/// `r` answers a question for the edits of a rename to which the server said
/// `reply`. Names are never matched in its place.
pub open spec fn is_rename_answer(
    r: Routed,
    g: CodeGraph,
    path: Seq<char>,
    reply: Result<WorkspaceEdit, LspError>,
    hint: Seq<char>,
) -> bool {
    r.value matches Answer::Edits(out) && match reply {
        Ok(edits) => is_finished(
            r,
            QueryKind::PrepareRename,
            DataSource::LanguageServer,
            Confidence::Exact,
            None,
        ) && out == edits,
        Err(err) => is_finished(
            r,
            QueryKind::PrepareRename,
            DataSource::Graph,
            Confidence::Unknown,
            Some(unavailable_text("Rename"@, language_at(g, path), err, hint)),
        ) && out.edits@.len() == 0,
    }
}

/// Answers a question for the edits of a rename to which the server said `reply`.
pub fn rename_answer(
    g: &CodeGraph,
    path: &RelPath,
    reply: Result<WorkspaceEdit, LspError>,
    hint: &str,
) -> (r: Routed)
    ensures
        is_rename_answer(r, *g, path@, reply, hint@),
{
    match reply {
        Ok(edits) => finish(
            QueryKind::PrepareRename,
            DataSource::LanguageServer,
            Confidence::Exact,
            Confidence::Exact,
            Answer::Edits(edits),
            None,
        ),
        Err(err) => {
            let note = unavailable_note("Rename", language_of(g, path), &err, hint);
            finish(
                QueryKind::PrepareRename,
                DataSource::Graph,
                Confidence::Unknown,
                Confidence::Unknown,
                Answer::Edits(WorkspaceEdit::default()),
                Some(note),
            )
        },
    }
}

// -------------------------------------------------------------------- router

/// Answers questions from one graph and the language servers that a provider
/// gives out, if there is one.
pub struct Router<'a, P: LspProvider> {
    pub graph: &'a CodeGraph,
    /// The numbers that files are ranked by.
    pub base: &'a HashMap<u32, u64>,
    pub lsp: Option<&'a P>,
}

/// `hint` says how a server for a language is installed: as the provider says, if
/// it says anything.
pub open spec fn is_hint<P: LspProvider>(
    lsp: Option<&P>,
    language: Language,
    hint: Seq<char>,
) -> bool {
    match lsp {
        None => hint == hint_of(language),
        Some(p) => exists|said: String| #[trigger]
            call_ensures(P::install_hint, (p, language), said) && hint == if said@.len() > 0 {
                said@
            } else {
                hint_of(language)
            },
    }
}

/// `err` says that there is no server for a language.
pub open spec fn is_no_server(err: LspError, language: Language) -> bool {
    err matches LspError::Unavailable(l, h) && l == language && h@ == hint_of(language)
}

/// `reply` is what the server of the file's language says when it is asked about
/// a symbol, or why there is none to ask.
pub open spec fn is_locations_reply<P: LspProvider>(
    lsp: Option<&P>,
    language: Language,
    path: RelPath,
    position: Position,
    op: LspOp,
    reply: Result<Vec<Location>, LspError>,
) -> bool {
    match lsp {
        None => reply matches Err(err) && is_no_server(err, language),
        Some(p) => exists|got: Result<P::Server, LspError>| #[trigger]
            call_ensures(P::acquire, (p, language), got) && match got {
                Err(err) => reply == Err::<Vec<Location>, LspError>(err),
                Ok(server) => match op {
                    LspOp::References => call_ensures(
                        <P::Server as LanguageServer>::references,
                        (&server, &path, position),
                        reply,
                    ),
                    LspOp::Definition => call_ensures(
                        <P::Server as LanguageServer>::definition,
                        (&server, &path, position),
                        reply,
                    ),
                },
            },
    }
}

/// `reply` is what the server of the file's language says when it is asked for
/// diagnostics, or why there is none to ask.
pub open spec fn is_diagnostics_reply<P: LspProvider>(
    lsp: Option<&P>,
    language: Language,
    path: RelPath,
    reply: Result<Vec<Diagnostic>, LspError>,
) -> bool {
    match lsp {
        None => reply matches Err(err) && is_no_server(err, language),
        Some(p) => exists|got: Result<P::Server, LspError>| #[trigger]
            call_ensures(P::acquire, (p, language), got) && match got {
                Err(err) => reply == Err::<Vec<Diagnostic>, LspError>(err),
                Ok(server) => call_ensures(
                    <P::Server as LanguageServer>::diagnostics,
                    (&server, &path),
                    reply,
                ),
            },
    }
}

/// `reply` is what the server of the file's language says when it is asked for
/// the edits of a rename, or why there is none to ask.
pub open spec fn is_rename_reply<P: LspProvider>(
    lsp: Option<&P>,
    language: Language,
    path: RelPath,
    position: Position,
    new_name: Seq<char>,
    reply: Result<WorkspaceEdit, LspError>,
) -> bool {
    match lsp {
        None => reply matches Err(err) && is_no_server(err, language),
        Some(p) => exists|got: Result<P::Server, LspError>, name: &str| #[trigger]
            call_ensures(P::acquire, (p, language), got) && #[trigger] name@ == new_name
                && match got {
                Err(err) => reply == Err::<WorkspaceEdit, LspError>(err),
                Ok(server) => call_ensures(
                    <P::Server as LanguageServer>::prepare_rename,
                    (&server, &path, position, name),
                    reply,
                ),
            },
    }
}

/// `r` answers a question that goes to the graph.
pub open spec fn is_graph_answer(
    r: Routed,
    g: CodeGraph,
    base: Map<u32, u64>,
    task: Map<u32, u64>,
    query: Query,
) -> bool {
    match query {
        Query::FileDependencies { target } => (r.value matches Answer::Files(out) && graph::is_walk(
            g,
            base,
            target.0,
            NeighborhoodDirection::Dependencies,
            out@,
        )) && is_finished(
            r,
            QueryKind::FileDependencies,
            DataSource::Graph,
            import_level(g),
            Some(scoped_text()),
        ),
        Query::FileImpact { target } => (r.value matches Answer::Files(out) && graph::is_walk(
            g,
            base,
            target.0,
            NeighborhoodDirection::Dependents,
            out@,
        )) && is_finished(
            r,
            QueryKind::FileImpact,
            DataSource::Graph,
            import_level(g),
            Some(scoped_text()),
        ),
        Query::RepoSkeleton => (r.value matches Answer::RankedFiles(out) && out@ == ranked_files(
            g,
            base,
        )) && is_finished(
            r,
            QueryKind::RepoSkeleton,
            DataSource::Graph,
            import_level(g),
            Some(scoped_text()),
        ),
        Query::TaskRank { .. } => (r.value matches Answer::RankedFiles(out) && out@
            == ranked_files(g, task)) && is_finished(
            r,
            QueryKind::TaskRank,
            DataSource::Graph,
            import_level(g),
            Some(scoped_text()),
        ),
        Query::FuzzySymbol { query: needle } => (r.value matches Answer::Symbols(out) && out@
            == fuzzy_hits(g, needle@)) && is_finished(
            r,
            QueryKind::FuzzySymbol,
            DataSource::Graph,
            Confidence::Syntactic,
            Some(fuzzy_text()),
        ),
        _ => false,
    }
}

/// `r` answers a question that goes to a server: by what the server says.
pub open spec fn is_server_answer<P: LspProvider>(
    r: Routed,
    g: CodeGraph,
    lsp: Option<&P>,
    query: Query,
) -> bool {
    match query {
        Query::PreciseReferences { path, position, symbol } => exists|
            reply: Result<Vec<Location>, LspError>,
            hint: Seq<char>,
        | #[trigger]
            is_locations_answer(
                r,
                g,
                path@,
                position,
                given_name(symbol),
                LspOp::References,
                reply,
                hint,
            ) && is_locations_reply(
                lsp,
                language_at(g, path@),
                path,
                position,
                LspOp::References,
                reply,
            ) && is_hint(lsp, language_at(g, path@), hint),
        Query::GotoDefinition { path, position, symbol } => exists|
            reply: Result<Vec<Location>, LspError>,
            hint: Seq<char>,
        | #[trigger]
            is_locations_answer(
                r,
                g,
                path@,
                position,
                given_name(symbol),
                LspOp::Definition,
                reply,
                hint,
            ) && is_locations_reply(
                lsp,
                language_at(g, path@),
                path,
                position,
                LspOp::Definition,
                reply,
            ) && is_hint(lsp, language_at(g, path@), hint),
        Query::Diagnostics { path } => exists|
            reply: Result<Vec<Diagnostic>, LspError>,
            hint: Seq<char>,
        | #[trigger]
            is_diagnostics_answer(r, g, path@, reply, hint) && is_diagnostics_reply(
                lsp,
                language_at(g, path@),
                path,
                reply,
            ) && is_hint(lsp, language_at(g, path@), hint),
        Query::PrepareRename { path, position, new_name } => exists|
            reply: Result<WorkspaceEdit, LspError>,
            hint: Seq<char>,
        | #[trigger]
            is_rename_answer(r, g, path@, reply, hint) && is_rename_reply(
                lsp,
                language_at(g, path@),
                path,
                position,
                new_name@,
                reply,
            ) && is_hint(lsp, language_at(g, path@), hint),
        _ => false,
    }
}

impl<'a, P: LspProvider> Router<'a, P> {
    pub fn new(graph: &'a CodeGraph, base: &'a HashMap<u32, u64>, lsp: Option<&'a P>) -> (r: Router<
        'a,
        P,
    >)
        ensures
            r.graph == graph,
            r.base == base,
            r.lsp == lsp,
    {
        Router { graph, base, lsp }
    }

    /// How a server for a language is installed: as the provider says, if it says
    /// anything.
    pub fn hint(&self, language: Language) -> (r: String)
        ensures
            is_hint(self.lsp, language, r@),
    {
        if let Some(p) = self.lsp {
            let said = p.install_hint(language);
            assert(call_ensures(P::install_hint, (p, language), said));
            if !said.as_str().is_empty() {
                return said;
            }
        }
        text::string_of(&text::chars_of(install_hint_for(language)))
    }

    fn no_server(&self, language: Language) -> (r: LspError)
        requires
            self.lsp is None,
        ensures
            is_no_server(r, language),
    {
        LspError::Unavailable(language, self.hint(language))
    }

    fn ask_locations(&self, path: &RelPath, position: Position, op: LspOp) -> (r: Result<
        Vec<Location>,
        LspError,
    >)
        ensures
            is_locations_reply(
                self.lsp,
                language_at(*self.graph, path@),
                *path,
                position,
                op,
                r,
            ),
    {
        let language = language_of(self.graph, path);
        match self.lsp {
            None => Err(self.no_server(language)),
            Some(p) => {
                let got = p.acquire(language);
                assert(call_ensures(P::acquire, (p, language), got));
                match got {
                    Err(err) => Err(err),
                    Ok(server) => match op {
                        LspOp::References => server.references(path, position),
                        LspOp::Definition => server.definition(path, position),
                    },
                }
            },
        }
    }

    fn ask_diagnostics(&self, path: &RelPath) -> (r: Result<Vec<Diagnostic>, LspError>)
        ensures
            is_diagnostics_reply(self.lsp, language_at(*self.graph, path@), *path, r),
    {
        let language = language_of(self.graph, path);
        match self.lsp {
            None => Err(self.no_server(language)),
            Some(p) => {
                let got = p.acquire(language);
                assert(call_ensures(P::acquire, (p, language), got));
                match got {
                    Err(err) => Err(err),
                    Ok(server) => server.diagnostics(path),
                }
            },
        }
    }

    fn ask_rename(&self, path: &RelPath, position: Position, new_name: &str) -> (r: Result<
        WorkspaceEdit,
        LspError,
    >)
        ensures
            is_rename_reply(
                self.lsp,
                language_at(*self.graph, path@),
                *path,
                position,
                new_name@,
                r,
            ),
    {
        let language = language_of(self.graph, path);
        match self.lsp {
            None => Err(self.no_server(language)),
            Some(p) => {
                let got = p.acquire(language);
                assert(call_ensures(P::acquire, (p, language), got));
                match got {
                    Err(err) => Err(err),
                    Ok(server) => server.prepare_rename(path, position, new_name),
                }
            },
        }
    }

    fn route_locations(
        &self,
        path: &RelPath,
        position: Position,
        symbol: &Option<String>,
        op: LspOp,
    ) -> (r: (Routed, Ghost<Result<Vec<Location>, LspError>>, Ghost<Seq<char>>))
        ensures
            is_locations_answer(
                r.0,
                *self.graph,
                path@,
                position,
                given_name(*symbol),
                op,
                r.1@,
                r.2@,
            ),
            is_locations_reply(
                self.lsp,
                language_at(*self.graph, path@),
                *path,
                position,
                op,
                r.1@,
            ),
            is_hint(self.lsp, language_at(*self.graph, path@), r.2@),
    {
        let reply = self.ask_locations(path, position, op);
        let ghost said = reply;
        let hint = self.hint(language_of(self.graph, path));
        let name = match symbol {
            Some(s) => Some(s.as_str()),
            None => None,
        };
        let routed = locations_answer(
            self.graph,
            path,
            position,
            name,
            op,
            reply,
            hint.as_str(),
        );
        (routed, Ghost(said), Ghost(hint@))
    }

    /// Answers a question. `task` ranks the files for the task of a question that
    /// has one.
    pub fn route(&self, query: &Query, task: &HashMap<u32, u64>) -> (r: Routed)
        ensures
            match query.kind_of().goes_to() {
                DataSource::Graph => is_graph_answer(r, *self.graph, self.base@, task@, *query),
                DataSource::LanguageServer => is_server_answer(
                    r,
                    *self.graph,
                    self.lsp,
                    *query,
                ),
            },
    {
        match query {
            Query::FileDependencies { target } => {
                let ids = graph::dependencies(self.graph, *target, self.base);
                let level = import_confidence(self.graph);
                finish(
                    QueryKind::FileDependencies,
                    DataSource::Graph,
                    level,
                    level,
                    Answer::Files(ids),
                    Some(scoped_note()),
                )
            },
            Query::FileImpact { target } => {
                let ids = graph::dependents(self.graph, *target, self.base);
                let level = import_confidence(self.graph);
                finish(
                    QueryKind::FileImpact,
                    DataSource::Graph,
                    level,
                    level,
                    Answer::Files(ids),
                    Some(scoped_note()),
                )
            },
            Query::RepoSkeleton => {
                let ranked = files_by_centrality(self.graph, self.base);
                let level = import_confidence(self.graph);
                finish(
                    QueryKind::RepoSkeleton,
                    DataSource::Graph,
                    level,
                    level,
                    Answer::RankedFiles(ranked),
                    Some(scoped_note()),
                )
            },
            Query::TaskRank { .. } => {
                let ranked = files_by_centrality(self.graph, task);
                let level = import_confidence(self.graph);
                finish(
                    QueryKind::TaskRank,
                    DataSource::Graph,
                    level,
                    level,
                    Answer::RankedFiles(ranked),
                    Some(scoped_note()),
                )
            },
            Query::FuzzySymbol { query: needle } => {
                let ids = fuzzy_symbols(self.graph, needle.as_str());
                finish(
                    QueryKind::FuzzySymbol,
                    DataSource::Graph,
                    Confidence::Syntactic,
                    Confidence::Syntactic,
                    Answer::Symbols(ids),
                    Some(
                        String::from_str(
                            "Fuzzy symbol lookup is name matching against the graph index, not a language-server search. Homonyms and missed aliases are expected.",
                        ),
                    ),
                )
            },
            Query::PreciseReferences { path, position, symbol } => self.route_locations(
                path,
                *position,
                symbol,
                LspOp::References,
            ).0,
            Query::GotoDefinition { path, position, symbol } => self.route_locations(
                path,
                *position,
                symbol,
                LspOp::Definition,
            ).0,
            Query::Diagnostics { path } => {
                let reply = self.ask_diagnostics(path);
                let ghost said = reply;
                let hint = self.hint(language_of(self.graph, path));
                let r = diagnostics_answer(self.graph, path, reply, hint.as_str());
                assert(is_diagnostics_answer(r, *self.graph, path@, said, hint@));
                r
            },
            Query::PrepareRename { path, position, new_name } => {
                let reply = self.ask_rename(path, *position, new_name.as_str());
                let ghost said = reply;
                let hint = self.hint(language_of(self.graph, path));
                let r = rename_answer(self.graph, path, reply, hint.as_str());
                assert(is_rename_answer(r, *self.graph, path@, said, hint@));
                r
            },
        }
    }
}

// --------------------------------------------------------------------- laws

/// No answer claims to be exact where a server should have answered and did not,
/// and every answer that is not exact says why.
pub proof fn law_matched_names_are_not_exact<P: LspProvider>(
    r: Routed,
    g: CodeGraph,
    base: Map<u32, u64>,
    task: Map<u32, u64>,
    lsp: Option<&P>,
    query: Query,
)
    requires
        match query.kind_of().goes_to() {
            DataSource::Graph => is_graph_answer(r, g, base, task, query),
            DataSource::LanguageServer => is_server_answer(r, g, lsp, query),
        },
    ensures
        r.kind == query.kind_of(),
        r.planned == query.kind_of().goes_to(),
        r.planned == DataSource::LanguageServer ==> (r.confidence == Confidence::Exact <==> r.used
            == DataSource::LanguageServer),
        r.planned == DataSource::Graph ==> r.used == DataSource::Graph,
        r.confidence == Confidence::Exact <==> r.note is None,
        lsp is None && r.planned == DataSource::LanguageServer ==> r.confidence != Confidence::Exact,
{
}

/// Every kind of question is listed.
pub proof fn law_every_kind_is_listed(kind: QueryKind)
    ensures
        QueryKind::ALL@.contains(kind),
{
    let all = QueryKind::ALL@;
    assert(all[0] == QueryKind::FileDependencies && all[1] == QueryKind::FileImpact && all[2]
        == QueryKind::RepoSkeleton && all[3] == QueryKind::TaskRank && all[4]
        == QueryKind::FuzzySymbol && all[5] == QueryKind::PreciseReferences && all[6]
        == QueryKind::GotoDefinition && all[7] == QueryKind::Diagnostics && all[8]
        == QueryKind::PrepareRename);
}

/// What is claimed of an answer is never stronger than its source, nor than what
/// was asked to be claimed.
pub proof fn law_confidence_is_never_raised(source: Confidence, claimed: Confidence)
    ensures
        weaker(source, claimed).level() >= source.level(),
        weaker(source, claimed).level() >= claimed.level(),
        weaker(source, claimed) == source || weaker(source, claimed) == claimed,
{
}

/// An answer from imports is no better than the weakest import.
pub proof fn law_imports_bound_confidence(g: CodeGraph, k: int)
    requires
        0 <= k < g.edges@.len(),
        g.edges@[k].kind == EdgeKind::Import,
    ensures
        import_level(g).level() >= g.edges@[k].confidence.level(),
{
    lemma_weakest(g.edges@, k);
}

proof fn lemma_weakest(edges: Seq<CodeEdge>, k: int)
    requires
        0 <= k < edges.len(),
        edges[k].kind == EdgeKind::Import,
    ensures
        weakest_import(edges) matches Some(c) && c.level() >= edges[k].confidence.level(),
    decreases edges.len(),
{
    if k < edges.len() - 1 {
        lemma_weakest(edges.drop_last(), k);
    }
}

} // verus!
