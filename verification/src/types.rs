//! Files, symbols and edges of the code graph.

use crate::text;
use vstd::prelude::*;
use vstd::string::*;

verus! {

/// A file's number within one graph.
#[derive(Clone, Copy, Debug, PartialEq, Eq, PartialOrd, Ord, Hash, Structural)]
pub struct FileId(pub u32);

/// A symbol's number within one graph.
#[derive(Clone, Copy, Debug, PartialEq, Eq, PartialOrd, Ord, Hash, Structural)]
pub struct SymbolId(pub u32);

/// What a symbol declares.
#[derive(Clone, Copy, Debug, PartialEq, Eq, PartialOrd, Ord, Hash, Structural)]
pub enum SymbolKind {
    Class,
    Method,
    Function,
    Field,
    Module,
    Struct,
}

/// What an edge records.
#[derive(Clone, Copy, Debug, PartialEq, Eq, PartialOrd, Ord, Hash, Structural)]
pub enum EdgeKind {
    Import,
    Call,
}

impl EdgeKind {
    /// The place of the kind among the kinds.
    pub open spec fn level(self) -> int {
        match self {
            EdgeKind::Import => 0,
            EdgeKind::Call => 1,
        }
    }

    /// The place of the kind among the kinds.
    pub fn rank(self) -> (r: u8)
        ensures
            r == self.level(),
    {
        match self {
            EdgeKind::Import => 0,
            EdgeKind::Call => 1,
        }
    }
}

/// How far an answer can be relied on, strongest first.
#[derive(Clone, Copy, Debug, PartialEq, Eq, PartialOrd, Ord, Hash, Structural)]
pub enum Confidence {
    Exact,
    Scoped,
    Syntactic,
    Unknown,
}

impl Confidence {
    /// Strength as a number: 0 is the strongest.
    pub open spec fn level(self) -> int {
        match self {
            Confidence::Exact => 0,
            Confidence::Scoped => 1,
            Confidence::Syntactic => 2,
            Confidence::Unknown => 3,
        }
    }

    /// Strength as a number: 0 is the strongest.
    pub fn rank(self) -> (r: u8)
        ensures
            r == self.level(),
    {
        match self {
            Confidence::Exact => 0,
            Confidence::Scoped => 1,
            Confidence::Syntactic => 2,
            Confidence::Unknown => 3,
        }
    }
}

/// A source language.
#[derive(Clone, Copy, Debug, PartialEq, Eq, PartialOrd, Ord, Hash, Structural)]
pub enum Language {
    Python,
    Go,
    Java,
    Rust,
    TypeScript,
    Tsx,
    JavaScript,
    Swift,
    ObjC,
    ObjCpp,
    C,
    Cpp,
    Php,
    Vue,
}

/// The lower-case name of a language.
pub open spec fn language_name(language: Language) -> Seq<char> {
    match language {
        Language::Python => "python"@,
        Language::Go => "go"@,
        Language::Java => "java"@,
        Language::Rust => "rust"@,
        Language::TypeScript => "typescript"@,
        Language::Tsx => "tsx"@,
        Language::JavaScript => "javascript"@,
        Language::Swift => "swift"@,
        Language::ObjC => "objc"@,
        Language::ObjCpp => "objcpp"@,
        Language::C => "c"@,
        Language::Cpp => "cpp"@,
        Language::Php => "php"@,
        Language::Vue => "vue"@,
    }
}

/// The language whose sources carry the extension `ext`.
pub open spec fn language_of_extension(ext: Seq<char>) -> Option<Language> {
    if ext == "py"@ {
        Some(Language::Python)
    } else if ext == "go"@ {
        Some(Language::Go)
    } else if ext == "java"@ {
        Some(Language::Java)
    } else if ext == "rs"@ {
        Some(Language::Rust)
    } else if ext == "ts"@ {
        Some(Language::TypeScript)
    } else if ext == "tsx"@ {
        Some(Language::Tsx)
    } else if ext == "js"@ || ext == "jsx"@ || ext == "mjs"@ || ext == "cjs"@ {
        Some(Language::JavaScript)
    } else if ext == "swift"@ {
        Some(Language::Swift)
    } else if ext == "m"@ {
        Some(Language::ObjC)
    } else if ext == "mm"@ {
        Some(Language::ObjCpp)
    } else if ext == "c"@ || ext == "h"@ {
        Some(Language::C)
    } else if ext == "cc"@ || ext == "cpp"@ || ext == "cxx"@ || ext == "hpp"@ {
        Some(Language::Cpp)
    } else if ext == "php"@ {
        Some(Language::Php)
    } else if ext == "vue"@ {
        Some(Language::Vue)
    } else {
        None
    }
}

/// The language that goes by the lower-case name or alias `name`.
pub open spec fn language_named(name: Seq<char>) -> Option<Language> {
    if name == "python"@ || name == "py"@ {
        Some(Language::Python)
    } else if name == "go"@ || name == "golang"@ {
        Some(Language::Go)
    } else if name == "java"@ {
        Some(Language::Java)
    } else if name == "rust"@ || name == "rs"@ {
        Some(Language::Rust)
    } else if name == "typescript"@ || name == "ts"@ {
        Some(Language::TypeScript)
    } else if name == "tsx"@ {
        Some(Language::Tsx)
    } else if name == "javascript"@ || name == "js"@ {
        Some(Language::JavaScript)
    } else if name == "swift"@ {
        Some(Language::Swift)
    } else if name == "objc"@ {
        Some(Language::ObjC)
    } else if name == "objcpp"@ {
        Some(Language::ObjCpp)
    } else if name == "c"@ {
        Some(Language::C)
    } else if name == "cpp"@ {
        Some(Language::Cpp)
    } else if name == "php"@ {
        Some(Language::Php)
    } else if name == "vue"@ {
        Some(Language::Vue)
    } else {
        None
    }
}

/// The last piece of a path.
pub open spec fn last_component(path: Seq<char>) -> Seq<char> {
    text::pieces(path, '/').last()
}

/// The language of a path, by the extension of its last component. A name
/// without a dot has no extension, and neither has one that starts with its
/// only dot.
pub open spec fn language_of_path(path: Seq<char>) -> Option<Language> {
    let parts = text::pieces(last_component(path), '.');
    if parts.len() < 2 || (parts.len() == 2 && parts[0].len() == 0) {
        None
    } else {
        language_of_extension(parts.last())
    }
}

impl Language {
    /// The lower-case name of the language.
    pub fn name(self) -> (r: &'static str)
        ensures
            r@ == language_name(self),
    {
        match self {
            Language::Python => "python",
            Language::Go => "go",
            Language::Java => "java",
            Language::Rust => "rust",
            Language::TypeScript => "typescript",
            Language::Tsx => "tsx",
            Language::JavaScript => "javascript",
            Language::Swift => "swift",
            Language::ObjC => "objc",
            Language::ObjCpp => "objcpp",
            Language::C => "c",
            Language::Cpp => "cpp",
            Language::Php => "php",
            Language::Vue => "vue",
        }
    }

    /// The language of a file extension.
    pub fn from_extension(ext: &str) -> (r: Option<Language>)
        ensures
            r == language_of_extension(ext@),
    {
        if text::same(ext, "py") {
            Some(Language::Python)
        } else if text::same(ext, "go") {
            Some(Language::Go)
        } else if text::same(ext, "java") {
            Some(Language::Java)
        } else if text::same(ext, "rs") {
            Some(Language::Rust)
        } else if text::same(ext, "ts") {
            Some(Language::TypeScript)
        } else if text::same(ext, "tsx") {
            Some(Language::Tsx)
        } else if text::same(ext, "js") || text::same(ext, "jsx") || text::same(ext, "mjs") || text::same(ext, "cjs") {
            Some(Language::JavaScript)
        } else if text::same(ext, "swift") {
            Some(Language::Swift)
        } else if text::same(ext, "m") {
            Some(Language::ObjC)
        } else if text::same(ext, "mm") {
            Some(Language::ObjCpp)
        } else if text::same(ext, "c") || text::same(ext, "h") {
            Some(Language::C)
        } else if text::same(ext, "cc") || text::same(ext, "cpp") || text::same(ext, "cxx") || text::same(ext, "hpp") {
            Some(Language::Cpp)
        } else if text::same(ext, "php") {
            Some(Language::Php)
        } else if text::same(ext, "vue") {
            Some(Language::Vue)
        } else {
            None
        }
    }

    /// The language of a path, by its extension.
    pub fn from_path(path: &RelPath) -> (r: Option<Language>)
        ensures
            r == language_of_path(path@),
    {
        let parts = text::split_on(&path.chars(), '/');
        proof {
            text::lemma_pieces_nonempty(path@, '/');
        }
        let last = &parts[parts.len() - 1];
        assert(last@ == text::rows(parts@).last());
        let dotted = text::split_on(last, '.');
        if dotted.len() < 2 || (dotted.len() == 2 && dotted[0].len() == 0) {
            assert(dotted@.len() == 2 ==> dotted@[0]@ == text::rows(dotted@)[0]);
            None
        } else {
            assert(dotted@[0]@ == text::rows(dotted@)[0]);
            let ext = text::string_of(&dotted[dotted.len() - 1]);
            assert(ext@ == text::rows(dotted@).last());
            Language::from_extension(ext.as_str())
        }
    }

    /// The language with a lower-case name or alias.
    pub fn from_lower_name(name: &str) -> (r: Option<Language>)
        ensures
            r == language_named(name@),
    {
        if text::same(name, "python") || text::same(name, "py") {
            Some(Language::Python)
        } else if text::same(name, "go") || text::same(name, "golang") {
            Some(Language::Go)
        } else if text::same(name, "java") {
            Some(Language::Java)
        } else if text::same(name, "rust") || text::same(name, "rs") {
            Some(Language::Rust)
        } else if text::same(name, "typescript") || text::same(name, "ts") {
            Some(Language::TypeScript)
        } else if text::same(name, "tsx") {
            Some(Language::Tsx)
        } else if text::same(name, "javascript") || text::same(name, "js") {
            Some(Language::JavaScript)
        } else if text::same(name, "swift") {
            Some(Language::Swift)
        } else if text::same(name, "objc") {
            Some(Language::ObjC)
        } else if text::same(name, "objcpp") {
            Some(Language::ObjCpp)
        } else if text::same(name, "c") {
            Some(Language::C)
        } else if text::same(name, "cpp") {
            Some(Language::Cpp)
        } else if text::same(name, "php") {
            Some(Language::Php)
        } else if text::same(name, "vue") {
            Some(Language::Vue)
        } else {
            None
        }
    }

    /// The language that `name` names, in any ASCII case.
    pub fn from_name(name: &str) -> (r: Option<Language>)
        ensures
            r == language_named(text::ascii_lower(name@)),
    {
        let lower = text::to_ascii_lower(name);
        Language::from_lower_name(lower.as_str())
    }
}

/// A path relative to the repository root.
#[derive(Debug, PartialEq, Eq, PartialOrd, Ord, Hash)]
pub struct RelPath {
    text: String,
}

impl View for RelPath {
    type V = Seq<char>;

    closed spec fn view(&self) -> Seq<char> {
        self.text@
    }
}

impl Clone for RelPath {
    fn clone(&self) -> (r: RelPath)
        ensures
            r == *self,
            r@ == self@,
    {
        RelPath { text: self.text.clone() }
    }
}

/// `raw` without the one `/` it may start with.
pub open spec fn rel_text(raw: Seq<char>) -> Seq<char> {
    if raw.len() > 0 && raw[0] == '/' {
        raw.drop_first()
    } else {
        raw
    }
}

impl RelPath {
    /// A path that a leading `/` does not make absolute.
    pub fn new(raw: &str) -> (r: RelPath)
        ensures
            r@ == rel_text(raw@),
    {
        let cs = text::chars_of(raw);
        if cs.len() > 0 && cs[0] == '/' {
            let rest = text::slice_of(&cs, 1, cs.len());
            assert(rest@ =~= raw@.drop_first());
            RelPath { text: text::string_of(&rest) }
        } else {
            RelPath { text: text::string_of(&cs) }
        }
    }

    pub fn as_str(&self) -> (r: &str)
        ensures
            r@ == self@,
    {
        self.text.as_str()
    }

    pub fn to_text(&self) -> (r: String)
        ensures
            r@ == self@,
    {
        self.text.clone()
    }

    /// The last component.
    pub fn file_name(&self) -> (r: String)
        ensures
            r@ == last_component(self@),
    {
        let parts = text::split_on(&self.chars(), '/');
        proof {
            text::lemma_pieces_nonempty(self@, '/');
        }
        assert(parts@[parts@.len() - 1]@ == text::rows(parts@).last());
        text::string_of(&parts[parts.len() - 1])
    }

    pub fn chars(&self) -> (r: Vec<char>)
        ensures
            r@ == self@,
    {
        text::chars_of(self.text.as_str())
    }
}

/// A source file of the graph.
#[derive(Debug, PartialEq, Eq)]
pub struct CodeFile {
    pub id: FileId,
    pub path: RelPath,
    pub language: Option<Language>,
    pub loc: u32,
    pub sha: String,
}

impl Clone for CodeFile {
    fn clone(&self) -> (r: CodeFile)
        ensures
            r == *self,
    {
        CodeFile {
            id: self.id,
            path: self.path.clone(),
            language: self.language,
            loc: self.loc,
            sha: self.sha.clone(),
        }
    }
}

/// A declaration of the graph. Lines are 1-based and inclusive.
#[derive(Debug, PartialEq, Eq)]
pub struct CodeSymbol {
    pub id: SymbolId,
    pub file: FileId,
    pub name: String,
    pub kind: SymbolKind,
    pub signature: String,
    pub start_line: u32,
    pub end_line: u32,
    pub exported: bool,
}

impl Clone for CodeSymbol {
    fn clone(&self) -> (r: CodeSymbol)
        ensures
            r == *self,
    {
        CodeSymbol {
            id: self.id,
            file: self.file,
            name: self.name.clone(),
            kind: self.kind,
            signature: self.signature.clone(),
            start_line: self.start_line,
            end_line: self.end_line,
            exported: self.exported,
        }
    }
}

/// A directed edge between two files, or between two symbols, by raw number.
#[derive(Clone, Copy, Debug, PartialEq, Eq, Structural)]
pub struct CodeEdge {
    pub from: u32,
    pub to: u32,
    pub kind: EdgeKind,
    pub weight: u32,
    pub confidence: Confidence,
}

} // verus!
