//! One session with a language server: the documents that it has been shown,
//! and what it is asked about them.

use super::json;
use super::json::Json;
use super::queries;
use super::transport;
use super::wire;
use super::wire::Published;
use super::{Diagnostic, LspError, Position};
use crate::paths;
use crate::text;
use crate::types::{Language, RelPath};
use vstd::prelude::*;
use vstd::string::*;

verus! {

// --------------------------------------------------------------- documents

/// What the protocol calls a language.
pub open spec fn protocol_name(language: Language) -> Seq<char> {
    match language {
        Language::Python => "python"@,
        Language::Go => "go"@,
        Language::Java => "java"@,
        Language::Rust => "rust"@,
        Language::TypeScript => "typescript"@,
        Language::Tsx => "typescriptreact"@,
        Language::JavaScript => "javascript"@,
        Language::Swift => "swift"@,
        Language::ObjC => "objective-c"@,
        Language::ObjCpp => "objective-cpp"@,
        Language::C => "c"@,
        Language::Cpp => "cpp"@,
        Language::Php => "php"@,
        Language::Vue => "vue"@,
    }
}

/// What the protocol calls a language.
pub fn language_id(language: Language) -> (r: &'static str)
    ensures
        r@ == protocol_name(language),
{
    match language {
        Language::Python => "python",
        Language::Go => "go",
        Language::Java => "java",
        Language::Rust => "rust",
        Language::TypeScript => "typescript",
        Language::Tsx => "typescriptreact",
        Language::JavaScript => "javascript",
        Language::Swift => "swift",
        Language::ObjC => "objective-c",
        Language::ObjCpp => "objective-cpp",
        Language::C => "c",
        Language::Cpp => "cpp",
        Language::Php => "php",
        Language::Vue => "vue",
    }
}

/// A session with a language server for one workspace.
#[derive(Debug)]
pub struct LspSession {
    pub language: Language,
    /// The root of the workspace.
    pub root: String,
    /// The documents that the server has been shown.
    pub opened: Vec<String>,
    /// Whether paths are written as Windows writes them.
    pub windows: bool,
}

/// The notification that shows a document to the server.
pub open spec fn open_shape(
    uri: Seq<char>,
    language: Language,
    content: Seq<char>,
) -> json::Shape {
    json::Shape::Table(
        seq![
            (
                "textDocument"@,
                json::Shape::Table(
                    seq![
                        ("uri"@, json::Shape::Text(uri)),
                        ("languageId"@, json::Shape::Text(protocol_name(language))),
                        ("version"@, json::Shape::Number(text::decimal(1))),
                        ("text"@, json::Shape::Text(content)),
                    ],
                ),
            ),
        ],
    )
}

/// What comes of a document that cannot be read.
pub open spec fn unreadable_text(path: Seq<char>, why: Seq<char>) -> Seq<char> {
    "could not read "@ + path + " ("@ + why + ")"@
}

impl LspSession {
    /// A session in which no document has been shown.
    pub fn new(language: Language, root: String, windows: bool) -> (r: LspSession)
        ensures
            r.language == language,
            r.root == root,
            r.opened@.len() == 0,
            r.windows == windows,
    {
        LspSession { language, root, opened: Vec::new(), windows }
    }

    /// The URI of a file of the workspace.
    pub open spec fn uri_of(self, path: Seq<char>, cwd: Seq<char>) -> Seq<char> {
        wire::file_uri_of(
            paths::below_on(self.root@, path, self.windows),
            cwd,
            self.windows,
        )
    }

    /// The URI of a file of the workspace.
    pub fn file_uri(&self, path: &RelPath, cwd: &str) -> (r: String)
        ensures
            r@ == self.uri_of(path@, cwd@),
    {
        let whole = paths::join_on(self.root.as_str(), path.as_str(), self.windows);
        wire::path_to_file_uri(whole.as_str(), cwd, self.windows)
    }

    /// Whether a document still has to be shown to the server.
    pub fn needs_open(&self, path: &RelPath) -> (r: bool)
        ensures
            r == !text::texts(self.opened@).contains(path@),
    {
        !text::has_string(&self.opened, path.as_str())
    }

    /// What shows a document to the server, given its text or why it cannot be
    /// read.
    pub fn open_params(&self, path: &RelPath, cwd: &str, source: Result<&str, &str>) -> (r: Result<
        Json,
        LspError,
    >)
        ensures
            match source {
                Ok(content) => r matches Ok(j) && json::shape(j) == open_shape(
                    self.uri_of(path@, cwd@),
                    self.language,
                    content@,
                ),
                Err(why) => r matches Err(LspError::Protocol(m)) && m@ == unreadable_text(
                    path@,
                    why@,
                ),
            },
    {
        match source {
            Err(why) => Err(
                LspError::Protocol(
                    String::from_str("could not read ").concat(path.as_str()).concat(" (").concat(
                        why,
                    ).concat(")"),
                ),
            ),
            Ok(content) => {
                let uri = self.file_uri(path, cwd);
                let document = json::table2(
                    "uri",
                    Json::text(uri.as_str()),
                    "languageId",
                    Json::text(language_id(self.language)),
                ).with("version", Json::number(1)).with("text", Json::text(content));
                assert(seq![
                    ("uri"@, json::Shape::Text(uri@)),
                    ("languageId"@, json::Shape::Text(protocol_name(self.language))),
                ].push(("version"@, json::Shape::Number(text::decimal(1)))).push(
                    ("text"@, json::Shape::Text(content@)),
                ) =~= seq![
                    ("uri"@, json::Shape::Text(uri@)),
                    ("languageId"@, json::Shape::Text(protocol_name(self.language))),
                    ("version"@, json::Shape::Number(text::decimal(1))),
                    ("text"@, json::Shape::Text(content@)),
                ]);
                Ok(json::table1("textDocument", document))
            },
        }
    }

    /// Notes that a document has been shown to the server.
    pub fn note_open(&mut self, path: &RelPath)
        ensures
            text::texts(final(self).opened@) == transport::with_name(
                text::texts(old(self).opened@),
                path@,
            ),
            final(self).language == old(self).language,
            final(self).root == old(self).root,
            final(self).windows == old(self).windows,
    {
        let ghost was = text::texts(self.opened@);
        if !text::has_string(&self.opened, path.as_str()) {
            self.opened.push(path.to_text());
            assert(text::texts(self.opened@) =~= was.push(path@));
        }
    }
}

// ---------------------------------------------------------------- requests

/// The parameters of a request for references: the place, and that the
/// declaration counts.
pub fn references_params(uri: &str, position: Position) -> (r: Json)
    ensures
        json::shape(r) == json::Shape::Table(
            queries::place_shape(uri@, position).push(
                (
                    "context"@,
                    json::Shape::Table(seq![("includeDeclaration"@, json::Shape::Bool(true))]),
                ),
            ),
        ),
{
    let context = json::table1("includeDeclaration", Json::Bool(true));
    queries::hover_params(uri, position).with("context", context)
}

/// The parameters of a request for definitions: the place.
pub fn definition_params(uri: &str, position: Position) -> (r: Json)
    ensures
        json::shape(r) == json::Shape::Table(queries::place_shape(uri@, position)),
{
    queries::hover_params(uri, position)
}

/// The parameters of a request to rename: the place and the new name.
pub fn rename_params(uri: &str, position: Position, new_name: &str) -> (r: Json)
    ensures
        json::shape(r) == json::Shape::Table(
            queries::place_shape(uri@, position).push(("newName"@, json::Shape::Text(new_name@))),
        ),
{
    queries::hover_params(uri, position).with("newName", Json::text(new_name))
}

/// The parameters of a request for diagnostics: the document.
pub fn diagnostic_params(uri: &str) -> (r: Json)
    ensures
        json::shape(r) == json::Shape::Table(
            seq![("textDocument"@, json::Shape::Table(seq![("uri"@, json::Shape::Text(uri@))]))],
        ),
{
    json::table1("textDocument", json::table1("uri", Json::text(uri)))
}

// ------------------------------------------------------------- diagnostics

/// The first document of a table whose URI ends with `path`.
pub open spec fn ending_with(
    v: Seq<(Seq<char>, Seq<wire::Notice>)>,
    path: Seq<char>,
) -> Option<Seq<wire::Notice>>
    decreases v.len(),
{
    if v.len() == 0 {
        None
    } else if ends(v[0].0, path) {
        Some(v[0].1)
    } else {
        ending_with(v.drop_first(), path)
    }
}

/// `s` ends with `tail`.
pub open spec fn ends(s: Seq<char>, tail: Seq<char>) -> bool {
    text::stands_at(s, tail, s.len() - tail.len())
}

/// The entry of a table under a key.
pub open spec fn entry(v: Seq<(Seq<char>, Seq<wire::Notice>)>, key: Seq<char>) -> Option<
    Seq<wire::Notice>,
>
    decreases v.len(),
{
    if v.len() == 0 {
        None
    } else if v[0].0 == key {
        Some(v[0].1)
    } else {
        entry(v.drop_first(), key)
    }
}

/// What was published for a document: under its URI, or else under a URI that
/// ends with its path.
pub open spec fn pushed_findings(
    v: Seq<(Seq<char>, Seq<wire::Notice>)>,
    uri: Seq<char>,
    path: Seq<char>,
) -> Seq<wire::Finding> {
    let found = match entry(v, uri) {
        Some(items) => items,
        None => match ending_with(v, path) {
            Some(items) => items,
            None => Seq::empty(),
        },
    };
    found.map_values(|d: wire::Notice| wire::published_finding(path, d))
}

fn as_diagnostics(items: &Vec<Published>, path: &RelPath) -> (out: Vec<Diagnostic>)
    ensures
        wire::findings(out@) == wire::notices(items@).map_values(
            |d: wire::Notice| wire::published_finding(path@, d),
        ),
{
    let mut out: Vec<Diagnostic> = Vec::new();
    let mut i: usize = 0;
    while i < items.len()
        invariant
            i <= items@.len(),
            out@.len() == i,
            forall|k: int|
                0 <= k < i ==> wire::finding(#[trigger] out@[k]) == wire::published_finding(
                    path@,
                    wire::notice(items@[k]),
                ),
        decreases items.len() - i,
    {
        out.push(wire::diagnostic_from_lsp(path, &items[i]));
        i = i + 1;
    }
    assert(wire::findings(out@) =~= wire::notices(items@).map_values(
        |d: wire::Notice| wire::published_finding(path@, d),
    ));
    out
}

/// What was published for a document.
pub fn push_diagnostics(
    published: &Vec<(String, Vec<Published>)>,
    uri: &str,
    path: &RelPath,
) -> (out: Vec<Diagnostic>)
    ensures
        wire::findings(out@) == pushed_findings(
            transport::published_view(published@),
            uri@,
            path@,
        ),
{
    let ghost all = transport::published_view(published@);
    let mut i: usize = 0;
    assert(all.skip(0) =~= all);
    while i < published.len()
        invariant
            i <= published@.len(),
            all == transport::published_view(published@),
            entry(all, uri@) == entry(all.skip(i as int), uri@),
        decreases published.len() - i,
    {
        assert(all.skip(i as int)[0] == all[i as int]);
        assert(all[i as int] == (
            published@[i as int].0@,
            wire::notices(published@[i as int].1@),
        ));
        assert(all.skip(i as int).drop_first() =~= all.skip(i as int + 1));
        if text::same(published[i].0.as_str(), uri) {
            return as_diagnostics(&published[i].1, path);
        }
        i = i + 1;
    }
    let tail = path.chars();
    i = 0;
    while i < published.len()
        invariant
            i <= published@.len(),
            tail@ == path@,
            all == transport::published_view(published@),
            entry(all, uri@) is None,
            ending_with(all, path@) == ending_with(all.skip(i as int), path@),
        decreases published.len() - i,
    {
        assert(all.skip(i as int)[0] == all[i as int]);
        assert(all[i as int] == (
            published@[i as int].0@,
            wire::notices(published@[i as int].1@),
        ));
        assert(all.skip(i as int).drop_first() =~= all.skip(i as int + 1));
        if text::ends_with(&text::chars_of(published[i].0.as_str()), &tail) {
            return as_diagnostics(&published[i].1, path);
        }
        i = i + 1;
    }
    let none: Vec<Diagnostic> = Vec::new();
    assert(wire::findings(none@) =~= pushed_findings(all, uri@, path@));
    none
}

/// The diagnostics of a document, given the reply to a request for them and
/// what the server has published. Where the server cannot be asked, or is too
/// slow, what it has published counts if there is any.
pub fn diagnostics_reply(
    pull: Result<Json, LspError>,
    published: &Vec<(String, Vec<Published>)>,
    uri: &str,
    path: &RelPath,
) -> (r: Result<Vec<Diagnostic>, LspError>)
    ensures
        ({
            let pushed = pushed_findings(transport::published_view(published@), uri@, path@);
            match pull {
                Ok(value) => r matches Ok(v) && wire::findings(v@) == wire::report_findings(
                    value,
                    path@,
                ),
                Err(LspError::Protocol(_)) => if pushed.len() > 0 {
                    r matches Ok(v) && wire::findings(v@) == pushed
                } else {
                    r matches Err(LspError::Protocol(m)) && m@
                        == "pull diagnostic unsupported and push diagnostics empty"@
                },
                Err(LspError::Timeout(limit)) => if pushed.len() > 0 {
                    r matches Ok(v) && wire::findings(v@) == pushed
                } else {
                    r == Err::<Vec<Diagnostic>, LspError>(LspError::Timeout(limit))
                },
                Err(err) => r == Err::<Vec<Diagnostic>, LspError>(err),
            }
        }),
{
    match pull {
        Ok(value) => Ok(wire::diagnostics_from_pull(&value, path)),
        Err(LspError::Protocol(_)) => {
            let pushed = push_diagnostics(published, uri, path);
            assert(wire::findings(pushed@).len() == pushed@.len());
            if pushed.len() == 0 {
                Err(
                    LspError::Protocol(
                        String::from_str("pull diagnostic unsupported and push diagnostics empty"),
                    ),
                )
            } else {
                Ok(pushed)
            }
        },
        Err(LspError::Timeout(limit)) => {
            let pushed = push_diagnostics(published, uri, path);
            assert(wire::findings(pushed@).len() == pushed@.len());
            if pushed.len() == 0 {
                Err(LspError::Timeout(limit))
            } else {
                Ok(pushed)
            }
        },
        Err(err) => Err(err),
    }
}

// --------------------------------------------------------------- handshake

/// A table that says yes or no to one thing.
pub open spec fn flag(name: Seq<char>, value: bool) -> json::Shape {
    json::Shape::Table(seq![(name, json::Shape::Bool(value))])
}

/// What the client says it can do.
pub open spec fn capabilities_shape() -> json::Shape {
    let none = json::Shape::Table(Seq::empty());
    json::Shape::Table(
        seq![
            (
                "workspace"@,
                json::Shape::Table(
                    seq![
                        ("applyEdit"@, json::Shape::Bool(false)),
                        ("workspaceFolders"@, json::Shape::Bool(true)),
                        ("configuration"@, json::Shape::Bool(true)),
                        ("symbol"@, none),
                    ],
                ),
            ),
            (
                "textDocument"@,
                json::Shape::Table(
                    seq![
                        ("publishDiagnostics"@, flag("relatedInformation"@, true)),
                        ("definition"@, flag("linkSupport"@, true)),
                        ("references"@, none),
                        ("rename"@, flag("prepareSupport"@, true)),
                        ("diagnostic"@, none),
                        ("synchronization"@, flag("didSave"@, true)),
                    ],
                ),
            ),
            (
                "window"@,
                json::Shape::Table(
                    seq![
                        ("workDoneProgress"@, json::Shape::Bool(true)),
                        (
                            "showMessage"@,
                            json::Shape::Table(
                                seq![
                                    (
                                        "messageActionItem"@,
                                        flag("additionalPropertiesSupport"@, false),
                                    ),
                                ],
                            ),
                        ),
                    ],
                ),
            ),
            (
                "general"@,
                json::Shape::Table(
                    seq![
                        (
                            "positionEncodings"@,
                            json::Shape::List(seq![json::Shape::Text("utf-16"@)]),
                        ),
                    ],
                ),
            ),
        ],
    )
}

fn one_flag(name: &str, value: bool) -> (r: Json)
    ensures
        json::shape(r) == flag(name@, value),
{
    json::table1(name, Json::Bool(value))
}

/// What the client says it can do.
pub fn client_capabilities() -> (r: Json)
    ensures
        json::shape(r) == capabilities_shape(),
{
    let ghost none = json::Shape::Table(Seq::empty());
    let workspace = json::table2(
        "applyEdit",
        Json::Bool(false),
        "workspaceFolders",
        Json::Bool(true),
    ).with("configuration", Json::Bool(true)).with("symbol", Json::table());
    let ghost w = seq![
        ("applyEdit"@, json::Shape::Bool(false)),
        ("workspaceFolders"@, json::Shape::Bool(true)),
        ("configuration"@, json::Shape::Bool(true)),
        ("symbol"@, none),
    ];
    assert(seq![
        ("applyEdit"@, json::Shape::Bool(false)),
        ("workspaceFolders"@, json::Shape::Bool(true)),
    ].push(("configuration"@, json::Shape::Bool(true))).push(("symbol"@, none)) =~= w);
    assert(json::shape(workspace) == json::Shape::Table(w));
    let document = json::table2(
        "publishDiagnostics",
        one_flag("relatedInformation", true),
        "definition",
        one_flag("linkSupport", true),
    ).with("references", Json::table()).with("rename", one_flag("prepareSupport", true)).with(
        "diagnostic",
        Json::table(),
    ).with("synchronization", one_flag("didSave", true));
    let ghost d = seq![
        ("publishDiagnostics"@, flag("relatedInformation"@, true)),
        ("definition"@, flag("linkSupport"@, true)),
        ("references"@, none),
        ("rename"@, flag("prepareSupport"@, true)),
        ("diagnostic"@, none),
        ("synchronization"@, flag("didSave"@, true)),
    ];
    assert(seq![
        ("publishDiagnostics"@, flag("relatedInformation"@, true)),
        ("definition"@, flag("linkSupport"@, true)),
    ].push(("references"@, none)).push(("rename"@, flag("prepareSupport"@, true))).push(
        ("diagnostic"@, none),
    ).push(("synchronization"@, flag("didSave"@, true))) =~= d);
    assert(json::shape(document) == json::Shape::Table(d));
    let window = json::table2(
        "workDoneProgress",
        Json::Bool(true),
        "showMessage",
        json::table1("messageActionItem", one_flag("additionalPropertiesSupport", false)),
    );
    let general = json::table1("positionEncodings", json::list1(Json::text("utf-16")));
    let ghost wi = json::shape(window);
    let ghost ge = json::shape(general);
    let r = json::table2("workspace", workspace, "textDocument", document).with(
        "window",
        window,
    ).with("general", general);
    assert(seq![
        ("workspace"@, json::Shape::Table(w)),
        ("textDocument"@, json::Shape::Table(d)),
    ].push(("window"@, wi)).push(("general"@, ge)) =~= seq![
        ("workspace"@, json::Shape::Table(w)),
        ("textDocument"@, json::Shape::Table(d)),
        ("window"@, wi),
        ("general"@, ge),
    ]);
    r
}

/// The name of a workspace: the last part of its root.
pub open spec fn folder_name_of(root: Seq<char>, windows: bool) -> Seq<char> {
    let parts = paths::parts_of(paths::behind_drive(root, windows));
    if parts.len() == 0 || parts.last() == seq!['.', '.'] {
        "workspace"@
    } else {
        parts.last()
    }
}

/// The name of a workspace.
pub fn folder_name(root: &str, windows: bool) -> (r: String)
    ensures
        r@ == folder_name_of(root@, windows),
{
    let (_, rest) = paths::split_drive(&text::chars_of(root), windows);
    let parts = paths::components(&rest);
    assert(text::rows(parts@).len() == parts@.len());
    if parts.len() == 0 || paths::is_parent(&parts[parts.len() - 1]) {
        String::from_str("workspace")
    } else {
        text::string_of(&parts[parts.len() - 1])
    }
}

/// What a server is told when the session starts.
pub open spec fn handshake_shape(
    process: u32,
    root: Seq<char>,
    uri: Seq<char>,
    folders: json::Shape,
    version: Seq<char>,
) -> Seq<(Seq<char>, json::Shape)> {
    seq![
        ("processId"@, json::Shape::Number(text::decimal(process as nat))),
        ("rootPath"@, json::Shape::Text(root)),
        ("rootUri"@, json::Shape::Text(uri)),
        ("capabilities"@, capabilities_shape()),
        ("workspaceFolders"@, folders),
        (
            "clientInfo"@,
            json::Shape::Table(
                seq![
                    ("name"@, json::Shape::Text("astrolabe"@)),
                    ("version"@, json::Shape::Text(version)),
                ],
            ),
        ),
        ("locale"@, json::Shape::Text("en"@)),
        ("trace"@, json::Shape::Text("off"@)),
    ]
}

/// What a server is told when the session starts: its parameters, and the URI
/// and the name of the workspace. `options` are settings for this server.
pub fn initialize_params(
    process: u32,
    root: &str,
    cwd: &str,
    version: &str,
    options: Option<Json>,
    windows: bool,
) -> (r: (Json, (String, String)))
    ensures
        r.1.0@ == wire::file_uri_of(root@, cwd@, windows),
        r.1.1@ == folder_name_of(root@, windows),
        ({
            let base = handshake_shape(
                process,
                root@,
                r.1.0@,
                transport::folders_shape(Some(r.1)),
                version@,
            );
            match options {
                Some(o) => json::shape(r.0) == json::Shape::Table(
                    base.push(("initializationOptions"@, json::shape(o))),
                ),
                None => json::shape(r.0) == json::Shape::Table(base),
            }
        }),
{
    let uri = wire::path_to_file_uri(root, cwd, windows);
    let name = folder_name(root, windows);
    let folders = transport::workspace_folders(&Some((uri.clone(), name.clone())));
    let ghost f = json::shape(folders);
    let info = json::table2("name", Json::text("astrolabe"), "version", Json::text(version));
    let ghost i = json::shape(info);
    let base = json::table2(
        "processId",
        Json::number(process as u64),
        "rootPath",
        Json::text(root),
    ).with("rootUri", Json::text(uri.as_str())).with("capabilities", client_capabilities()).with(
        "workspaceFolders",
        folders,
    ).with("clientInfo", info).with("locale", Json::text("en")).with("trace", Json::text("off"));
    let ghost b = handshake_shape(process, root@, uri@, f, version@);
    assert(seq![
        ("processId"@, json::Shape::Number(text::decimal(process as nat))),
        ("rootPath"@, json::Shape::Text(root@)),
    ].push(("rootUri"@, json::Shape::Text(uri@))).push(
        ("capabilities"@, capabilities_shape()),
    ).push(("workspaceFolders"@, f)).push(("clientInfo"@, i)).push(
        ("locale"@, json::Shape::Text("en"@)),
    ).push(("trace"@, json::Shape::Text("off"@))) =~= b);
    assert(json::shape(base) == json::Shape::Table(b));
    match options {
        Some(o) => (base.with("initializationOptions", o), (uri, name)),
        None => (base, (uri, name)),
    }
}

} // verus!
