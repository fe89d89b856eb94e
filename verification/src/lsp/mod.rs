//! Language servers: what they answer, and how far the answers can be trusted.

pub mod archive;
pub mod codec;
pub mod diagnostics;
pub mod discovery;
pub mod frame;
pub mod install;
pub mod installation;
pub mod installer;
pub mod json;
pub mod pool;
pub mod queries;
pub mod router;
pub mod session;
pub mod transport;
pub mod uri;
pub mod wire;

use self::json::Json;
use crate::types::{Confidence, Language, RelPath};
use std::time::Duration;
use vstd::prelude::*;
use vstd::string::*;

verus! {

/// A place in a file: a line from 0 on, and UTF-16 units from its start.
#[derive(Clone, Copy, Debug, PartialEq, Eq, PartialOrd, Ord, Structural)]
pub struct Position {
    pub line: u32,
    pub character: u32,
}

#[derive(Clone, Copy, Debug, PartialEq, Eq, PartialOrd, Ord, Structural)]
pub struct Range {
    pub start: Position,
    pub end: Position,
}

#[derive(Debug, PartialEq, Eq, PartialOrd, Ord)]
pub struct Location {
    pub path: RelPath,
    pub range: Range,
}

impl Clone for Location {
    fn clone(&self) -> (r: Location)
        ensures
            r == *self,
    {
        Location { path: self.path.clone(), range: self.range }
    }
}

#[derive(Clone, Copy, Debug, PartialEq, Eq, PartialOrd, Ord, Structural)]
pub enum Severity {
    Error,
    Warning,
    Information,
    Hint,
}

#[derive(Debug, PartialEq, Eq)]
pub struct Diagnostic {
    pub path: RelPath,
    pub range: Range,
    pub severity: Severity,
    pub message: String,
    /// Rule or error code, where the server gives one.
    pub code: Option<String>,
}

impl Clone for Diagnostic {
    fn clone(&self) -> (r: Diagnostic)
        ensures
            r == *self,
    {
        Diagnostic {
            path: self.path.clone(),
            range: self.range,
            severity: self.severity,
            message: self.message.clone(),
            code: match &self.code {
                Some(c) => Some(c.clone()),
                None => None,
            },
        }
    }
}

/// Replacements, grouped by file. Those of one file do not overlap.
#[derive(Debug, PartialEq, Eq)]
pub struct WorkspaceEdit {
    pub edits: Vec<(RelPath, Vec<TextEdit>)>,
}

impl Default for WorkspaceEdit {
    fn default() -> (r: WorkspaceEdit)
        ensures
            r.edits@.len() == 0,
    {
        WorkspaceEdit { edits: Vec::new() }
    }
}

#[derive(Debug, PartialEq, Eq)]
pub struct TextEdit {
    pub range: Range,
    pub new_text: String,
}

/// Why a language server gave no answer.
#[derive(Debug, PartialEq, Eq)]
pub enum LspError {
    /// No server for this language is installed; the text says how to get one.
    Unavailable(Language, String),
    Startup(Language, String),
    /// No answer within this many milliseconds.
    Timeout(u64),
    /// The document changed while the request was under way. The request
    /// should be made again.
    ContentModified,
    Protocol(String),
    Crashed,
}

impl Clone for LspError {
    fn clone(&self) -> (r: LspError)
        ensures
            r == *self,
    {
        match self {
            LspError::Unavailable(l, s) => LspError::Unavailable(*l, s.clone()),
            LspError::Startup(l, s) => LspError::Startup(*l, s.clone()),
            LspError::Timeout(ms) => LspError::Timeout(*ms),
            LspError::ContentModified => LspError::ContentModified,
            LspError::Protocol(s) => LspError::Protocol(s.clone()),
            LspError::Crashed => LspError::Crashed,
        }
    }
}

/// The name of a language as it stands in messages.
pub open spec fn language_title(language: Language) -> Seq<char> {
    match language {
        Language::Python => "Python"@,
        Language::Go => "Go"@,
        Language::Java => "Java"@,
        Language::Rust => "Rust"@,
        Language::TypeScript => "TypeScript"@,
        Language::Tsx => "Tsx"@,
        Language::JavaScript => "JavaScript"@,
        Language::Swift => "Swift"@,
        Language::ObjC => "ObjC"@,
        Language::ObjCpp => "ObjCpp"@,
        Language::C => "C"@,
        Language::Cpp => "Cpp"@,
        Language::Php => "Php"@,
        Language::Vue => "Vue"@,
    }
}

/// The name of a language as it stands in messages.
pub fn title(language: Language) -> (r: &'static str)
    ensures
        r@ == language_title(language),
{
    match language {
        Language::Python => "Python",
        Language::Go => "Go",
        Language::Java => "Java",
        Language::Rust => "Rust",
        Language::TypeScript => "TypeScript",
        Language::Tsx => "Tsx",
        Language::JavaScript => "JavaScript",
        Language::Swift => "Swift",
        Language::ObjC => "ObjC",
        Language::ObjCpp => "ObjCpp",
        Language::C => "C",
        Language::Cpp => "Cpp",
        Language::Php => "Php",
        Language::Vue => "Vue",
    }
}

/// How [`Duration`] writes this many milliseconds for debugging.
pub uninterp spec fn duration_debug(ms: u64) -> Seq<char>;

/// `Duration::from_millis`, formatted for debugging by `format!`: the text is
/// named [`duration_debug`].
#[verifier::external_body]
pub(crate) fn duration_text(ms: u64) -> (r: String)
    ensures
        r@ == duration_debug(ms),
{
    format!("{:?}", Duration::from_millis(ms))
}

/// The message of an error, where `waited` writes its time limit.
pub open spec fn error_message(e: LspError, waited: Seq<char>) -> Seq<char> {
    match e {
        LspError::Unavailable(language, hint) => "no language server available for "@
            + language_title(language) + ": "@ + hint@,
        LspError::Startup(language, why) => "language server for "@ + language_title(language)
            + " failed to start: "@ + why@,
        LspError::Timeout(_) => "language server request timed out after "@ + waited,
        LspError::ContentModified =>
        "language server content modified; the request should be retried"@,
        LspError::Protocol(why) => "language server protocol error: "@ + why@,
        LspError::Crashed => "language server exited unexpectedly"@,
    }
}

/// The message of an error.
pub open spec fn error_text(e: LspError) -> Seq<char> {
    match e {
        LspError::Timeout(ms) => error_message(e, duration_debug(ms)),
        _ => error_message(e, Seq::empty()),
    }
}

impl LspError {
    /// The message, with the time limit written as `waited`.
    pub fn message_with(&self, waited: &str) -> (r: String)
        ensures
            r@ == error_message(*self, waited@),
    {
        match self {
            LspError::Unavailable(language, hint) => String::from_str(
                "no language server available for ",
            ).concat(title(*language)).concat(": ").concat(hint.as_str()),
            LspError::Startup(language, why) => String::from_str("language server for ").concat(
                title(*language),
            ).concat(" failed to start: ").concat(why.as_str()),
            LspError::Timeout(_) => String::from_str(
                "language server request timed out after ",
            ).concat(waited),
            LspError::ContentModified => String::from_str(
                "language server content modified; the request should be retried",
            ),
            LspError::Protocol(why) => String::from_str("language server protocol error: ").concat(
                why.as_str(),
            ),
            LspError::Crashed => String::from_str("language server exited unexpectedly"),
        }
    }

    /// The message.
    pub fn message(&self) -> (r: String)
        ensures
            r@ == error_text(*self),
    {
        match self {
            LspError::Timeout(ms) => {
                let waited = duration_text(*ms);
                self.message_with(waited.as_str())
            },
            _ => {
                let none = String::new();
                self.message_with(none.as_str())
            },
        }
    }
}

/// An answer, and how far it can be trusted.
///
/// "There are none" and "it could not be found out" both have an empty value:
/// the confidence tells them apart.
#[derive(Debug, PartialEq, Eq)]
pub struct Precise<T> {
    pub value: T,
    pub confidence: Confidence,
    /// Why the confidence is not the highest.
    pub note: Option<String>,
}

impl<T> Precise<T> {
    pub fn exact(value: T) -> (r: Precise<T>)
        ensures
            r == (Precise { value, confidence: Confidence::Exact, note: None::<String> }),
    {
        Precise { value, confidence: Confidence::Exact, note: None }
    }

    pub fn unknown(value: T, note: String) -> (r: Precise<T>)
        ensures
            r == (Precise { value, confidence: Confidence::Unknown, note: Some(note) }),
    {
        Precise { value, confidence: Confidence::Unknown, note: Some(note) }
    }
}

/// A running language server.
pub trait LanguageServer: Send + Sync {
    fn language(&self) -> Language;

    /// The references to the symbol at a position, its declaration included.
    fn references(&self, path: &RelPath, position: Position) -> Result<Vec<Location>, LspError>;

    fn definition(&self, path: &RelPath, position: Position) -> Result<Vec<Location>, LspError>;

    /// What the server shows for the symbol at a position.
    fn hover(&self, path: &RelPath, position: Position) -> Result<Json, LspError>;

    fn diagnostics(&self, path: &RelPath) -> Result<Vec<Diagnostic>, LspError>;

    /// The edits of a rename, none of them made.
    fn prepare_rename(&self, path: &RelPath, position: Position, new_name: &str) -> Result<
        WorkspaceEdit,
        LspError,
    >;

    /// Waits until the server is done with its work, or as many milliseconds
    /// have passed. Says whether it is done.
    fn wait_until_ready(&self, _deadline: u64) -> bool {
        true
    }

    /// Whether the server has work left, so that an empty answer means little.
    fn is_busy(&self) -> bool {
        false
    }

    /// The memory that the server uses, where it can be known.
    fn memory_bytes(&self) -> Option<u64>;

    fn shutdown(&self) -> Result<(), LspError>;
}

/// How a language server is started.
#[derive(Debug, PartialEq, Eq)]
pub struct ServerSpec {
    pub language: Language,
    /// The name or the absolute path of the program.
    pub command: String,
    pub args: Vec<String>,
    /// How to install the program.
    pub install_hint: String,
}

} // verus!
