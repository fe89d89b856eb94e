//! Finds the program of a language server before anyone tries to start one.
//!
//! A missing server is something to report, together with how to install it.
//! The file system is asked by the caller: [`Discovery::paths_to_check`] says
//! about which paths, and [`Discovery::with_found`] takes the answers.

use super::queries;
use super::{LspError, ServerSpec};
use crate::paths;
use crate::text;
use crate::types;
use crate::types::Language;
use vstd::prelude::*;
use vstd::string::*;

verus! {

// -------------------------------------------------------------- candidates

/// A program that may serve a language.
pub struct Candidate {
    pub bin: &'static str,
    pub args: Vec<&'static str>,
    pub install: &'static str,
}

/// A program that may serve a language, as mathematics.
pub ghost struct Choice {
    pub bin: Seq<char>,
    pub args: Seq<Seq<char>>,
    pub install: Seq<char>,
}

/// What a candidate is.
pub open spec fn choice(c: Candidate) -> Choice {
    Choice { bin: c.bin@, args: strs(c.args@), install: c.install@ }
}

/// The texts of string slices.
pub open spec fn strs(v: Seq<&'static str>) -> Seq<Seq<char>> {
    v.map_values(|s: &'static str| s@)
}

/// What candidates are.
pub open spec fn choices(v: Seq<Candidate>) -> Seq<Choice> {
    v.map_values(|c: Candidate| choice(c))
}

/// A program that is started without arguments.
pub open spec fn bare(bin: Seq<char>, install: Seq<char>) -> Choice {
    Choice { bin, args: Seq::empty(), install }
}

/// A program that is started with one argument.
pub open spec fn with_arg(bin: Seq<char>, arg: Seq<char>, install: Seq<char>) -> Choice {
    Choice { bin, args: seq![arg], install }
}

/// The programs for Python, the preferred one first.
pub open spec fn python_choices() -> Seq<Choice> {
    seq![
        with_arg("pyright-langserver"@, "--stdio"@, "npm i -g pyright"@),
        with_arg("basedpyright-langserver"@, "--stdio"@, "npm i -g basedpyright"@),
        bare("pylsp"@, "pip install python-lsp-server"@),
        bare("jedi-language-server"@, "pip install jedi-language-server"@),
        with_arg("ruff"@, "server"@, "pip install ruff"@),
        bare(
            "ruff-lsp"@,
            "pip install ruff-lsp  # deprecated; prefer `pip install ruff` then `ruff server`"@,
        ),
    ]
}

/// The programs for Go.
pub open spec fn go_choices() -> Seq<Choice> {
    seq![bare("gopls"@, "go install golang.org/x/tools/gopls@latest"@)]
}

/// The programs for Java.
pub open spec fn java_choices() -> Seq<Choice> {
    seq![bare("jdtls"@, "brew install jdtls"@)]
}

/// The programs for Rust.
pub open spec fn rust_choices() -> Seq<Choice> {
    seq![bare("rust-analyzer"@, "rustup component add rust-analyzer"@)]
}

/// The programs for TypeScript and JavaScript, the preferred one first.
pub open spec fn typescript_choices() -> Seq<Choice> {
    seq![
        with_arg(
            "typescript-language-server"@,
            "--stdio"@,
            "npm i -g typescript-language-server typescript"@,
        ),
        with_arg("vtsls"@, "--stdio"@, "npm i -g @vtsls/language-server"@),
    ]
}

/// The programs for a language, the preferred one first. For some languages no
/// program is known.
pub open spec fn choices_for(language: Language) -> Seq<Choice> {
    match language {
        Language::Python => python_choices(),
        Language::Go => go_choices(),
        Language::Java => java_choices(),
        Language::Rust => rust_choices(),
        Language::TypeScript | Language::Tsx | Language::JavaScript => typescript_choices(),
        _ => Seq::empty(),
    }
}

/// Every known program.
pub open spec fn all_choices() -> Seq<Choice> {
    python_choices() + go_choices() + java_choices() + rust_choices() + typescript_choices()
}

/// A program is known for the language.
pub open spec fn is_probed(language: Language) -> bool {
    match language {
        Language::Python | Language::Go | Language::Java | Language::Rust | Language::TypeScript
        | Language::Tsx | Language::JavaScript => true,
        _ => false,
    }
}

fn bare_candidate(bin: &'static str, install: &'static str) -> (r: Candidate)
    ensures
        choice(r) == bare(bin@, install@),
{
    let args: Vec<&'static str> = Vec::new();
    assert(strs(args@) =~= Seq::empty());
    Candidate { bin, args, install }
}

fn candidate_with(bin: &'static str, arg: &'static str, install: &'static str) -> (r: Candidate)
    ensures
        choice(r) == with_arg(bin@, arg@, install@),
{
    let mut args: Vec<&'static str> = Vec::new();
    args.push(arg);
    assert(strs(args@) =~= seq![arg@]);
    Candidate { bin, args, install }
}

fn python_candidates() -> (out: Vec<Candidate>)
    ensures
        choices(out@) == python_choices(),
{
    let mut out: Vec<Candidate> = Vec::new();
    out.push(candidate_with("pyright-langserver", "--stdio", "npm i -g pyright"));
    out.push(candidate_with("basedpyright-langserver", "--stdio", "npm i -g basedpyright"));
    out.push(bare_candidate("pylsp", "pip install python-lsp-server"));
    out.push(bare_candidate("jedi-language-server", "pip install jedi-language-server"));
    out.push(candidate_with("ruff", "server", "pip install ruff"));
    out.push(
        bare_candidate(
            "ruff-lsp",
            "pip install ruff-lsp  # deprecated; prefer `pip install ruff` then `ruff server`",
        ),
    );
    assert(choices(out@) =~= python_choices());
    out
}

fn one_candidate(c: Candidate) -> (out: Vec<Candidate>)
    ensures
        choices(out@) == seq![choice(c)],
{
    let ghost k = choice(c);
    let mut out: Vec<Candidate> = Vec::new();
    out.push(c);
    assert(choices(out@) =~= seq![k]);
    out
}

fn typescript_candidates() -> (out: Vec<Candidate>)
    ensures
        choices(out@) == typescript_choices(),
{
    let mut out: Vec<Candidate> = Vec::new();
    out.push(
        candidate_with(
            "typescript-language-server",
            "--stdio",
            "npm i -g typescript-language-server typescript",
        ),
    );
    out.push(candidate_with("vtsls", "--stdio", "npm i -g @vtsls/language-server"));
    assert(choices(out@) =~= typescript_choices());
    out
}

/// The programs for a language, the preferred one first.
pub fn candidates(language: Language) -> (out: Vec<Candidate>)
    ensures
        choices(out@) == choices_for(language),
{
    match language {
        Language::Python => python_candidates(),
        Language::Go => one_candidate(
            bare_candidate("gopls", "go install golang.org/x/tools/gopls@latest"),
        ),
        Language::Java => one_candidate(bare_candidate("jdtls", "brew install jdtls")),
        Language::Rust => one_candidate(
            bare_candidate("rust-analyzer", "rustup component add rust-analyzer"),
        ),
        Language::TypeScript | Language::Tsx | Language::JavaScript => typescript_candidates(),
        _ => {
            let none: Vec<Candidate> = Vec::new();
            assert(choices(none@) =~= Seq::empty());
            none
        },
    }
}

/// The languages that are probed, in the order of reports.
pub const PROBED_LANGUAGES: [Language; 7] = [
    Language::Python,
    Language::Go,
    Language::Java,
    Language::Rust,
    Language::TypeScript,
    Language::Tsx,
    Language::JavaScript,
];

/// The settings that name the program for a language, the first one to be
/// looked at first.
pub open spec fn setting_keys(language: Language) -> Seq<Seq<char>> {
    match language {
        Language::Python => seq!["ASTROLABE_LSP_PYTHON"@],
        Language::Go => seq!["ASTROLABE_LSP_GO"@],
        Language::Java => seq!["ASTROLABE_LSP_JAVA"@],
        Language::Rust => seq!["ASTROLABE_LSP_RUST"@],
        Language::TypeScript => seq!["ASTROLABE_LSP_TYPESCRIPT"@],
        Language::Tsx => seq!["ASTROLABE_LSP_TSX"@, "ASTROLABE_LSP_TYPESCRIPT"@],
        Language::JavaScript => seq!["ASTROLABE_LSP_JAVASCRIPT"@, "ASTROLABE_LSP_TYPESCRIPT"@],
        _ => Seq::empty(),
    }
}

/// The settings that name the program for a language.
pub fn env_override_keys(language: Language) -> (out: Vec<&'static str>)
    ensures
        strs(out@) == setting_keys(language),
{
    let out: Vec<&'static str> = match language {
        Language::Python => vec!["ASTROLABE_LSP_PYTHON"],
        Language::Go => vec!["ASTROLABE_LSP_GO"],
        Language::Java => vec!["ASTROLABE_LSP_JAVA"],
        Language::Rust => vec!["ASTROLABE_LSP_RUST"],
        Language::TypeScript => vec!["ASTROLABE_LSP_TYPESCRIPT"],
        Language::Tsx => vec!["ASTROLABE_LSP_TSX", "ASTROLABE_LSP_TYPESCRIPT"],
        Language::JavaScript => vec!["ASTROLABE_LSP_JAVASCRIPT", "ASTROLABE_LSP_TYPESCRIPT"],
        _ => Vec::new(),
    };
    assert(strs(out@) =~= setting_keys(language));
    out
}

/// The setting that names the program for a language.
pub fn env_override_var(language: Language) -> (r: &'static str)
    requires
        is_probed(language),
    ensures
        r@ == setting_keys(language)[0],
{
    let keys = env_override_keys(language);
    assert(strs(keys@).len() == keys@.len());
    assert(strs(keys@)[0] == keys@[0]@);
    keys[0]
}

// -------------------------------------------------------------------- names

/// `ext` with a dot in front.
pub open spec fn dotted(ext: Seq<char>) -> Seq<char> {
    if ext.len() > 0 && ext[0] == '.' {
        ext
    } else {
        seq!['.'] + ext
    }
}

/// The pieces that are not blank, trimmed, each with a dot in front.
pub open spec fn dotted_pieces(pieces: Seq<Seq<char>>) -> Seq<Seq<char>>
    decreases pieces.len(),
{
    if pieces.len() == 0 {
        Seq::empty()
    } else {
        let before = dotted_pieces(pieces.drop_last());
        let t = text::trimmed(pieces.last());
        if t.len() == 0 {
            before
        } else {
            before.push(dotted(t))
        }
    }
}

/// The extensions that a list of them names.
pub open spec fn extensions(pathext: Seq<char>) -> Seq<Seq<char>> {
    dotted_pieces(text::pieces(pathext, ';'))
}

/// The extensions that a list of them names.
pub fn parse_pathext(pathext: &str) -> (out: Vec<String>)
    ensures
        text::texts(out@) == extensions(pathext@),
{
    let pieces = text::split_on(&text::chars_of(pathext), ';');
    let ghost all = text::rows(pieces@);
    let mut out: Vec<String> = Vec::new();
    let mut i: usize = 0;
    assert(text::texts(out@) =~= dotted_pieces(all.take(0)));
    while i < pieces.len()
        invariant
            i <= pieces@.len(),
            all == text::rows(pieces@),
            text::texts(out@) == dotted_pieces(all.take(i as int)),
        decreases pieces.len() - i,
    {
        let ghost was = text::texts(out@);
        assert(all.take(i as int + 1).drop_last() =~= all.take(i as int));
        let mut t = text::trim(&pieces[i]);
        if t.len() > 0 {
            let ghost given = t@;
            if t[0] != '.' {
                let mut d: Vec<char> = Vec::new();
                d.push('.');
                d.append(&mut t);
                t = d;
            }
            assert(t@ =~= dotted(given));
            out.push(text::string_of(&t));
            assert(text::texts(out@) =~= was.push(dotted(given)));
        }
        i = i + 1;
    }
    assert(all.take(pieces@.len() as int) =~= all);
    out
}

/// `s` ends with `tail`, letter case aside.
pub open spec fn ends_loosely(s: Seq<char>, tail: Seq<char>) -> bool {
    text::stands_at(text::ascii_lower(s), text::ascii_lower(tail), s.len() - tail.len())
}

/// `name` has one of the extensions.
pub open spec fn has_extension_of(name: Seq<char>, exts: Seq<Seq<char>>) -> bool {
    exists|k: int| 0 <= k < exts.len() && ends_loosely(name, #[trigger] exts[k])
}

fn has_pathext_suffix(name: &str, exts: &Vec<String>) -> (r: bool)
    ensures
        r == has_extension_of(name@, text::texts(exts@)),
{
    let ghost all = text::texts(exts@);
    let lower = text::lower_chars(&text::chars_of(name));
    let mut i: usize = 0;
    while i < exts.len()
        invariant
            i <= exts@.len(),
            all == text::texts(exts@),
            lower@ == text::ascii_lower(name@),
            forall|k: int| 0 <= k < i ==> !ends_loosely(name@, #[trigger] all[k]),
        decreases exts.len() - i,
    {
        let ext = text::lower_chars(&text::chars_of(exts[i].as_str()));
        assert(all[i as int] == exts@[i as int]@);
        if text::ends_with(&lower, &ext) {
            assert(ends_loosely(name@, all[i as int]));
            return true;
        }
        i = i + 1;
    }
    false
}

/// The names under which a program may be found.
pub open spec fn names_of(bin: Seq<char>, windows: bool, pathext: Seq<char>) -> Seq<Seq<char>> {
    let exts = extensions(pathext);
    if !windows || has_extension_of(bin, exts) {
        seq![bin]
    } else {
        seq![bin] + exts.map_values(|e: Seq<char>| bin + e)
    }
}

/// The names under which a program may be found. On Windows those with the usual
/// extensions count too, unless it has one.
pub fn command_names(bin: &str, windows: bool, pathext: &str) -> (out: Vec<String>)
    ensures
        text::texts(out@) == names_of(bin@, windows, pathext@),
{
    let mut out: Vec<String> = Vec::new();
    out.push(text::string_of(&text::chars_of(bin)));
    assert(text::texts(out@) =~= seq![bin@]);
    if !windows {
        return out;
    }
    let exts = parse_pathext(pathext);
    if has_pathext_suffix(bin, &exts) {
        return out;
    }
    let ghost all = text::texts(exts@);
    let ghost longer = all.map_values(|e: Seq<char>| bin@ + e);
    let mut i: usize = 0;
    assert(text::texts(out@) =~= seq![bin@] + longer.take(0));
    while i < exts.len()
        invariant
            i <= exts@.len(),
            all == text::texts(exts@),
            longer == all.map_values(|e: Seq<char>| bin@ + e),
            text::texts(out@) == seq![bin@] + longer.take(i as int),
        decreases exts.len() - i,
    {
        let ghost was = text::texts(out@);
        let name = text::string_of(&text::chars_of(bin)).concat(exts[i].as_str());
        assert(longer[i as int] == bin@ + exts@[i as int]@);
        out.push(name);
        assert(text::texts(out@) =~= was.push(longer[i as int]));
        assert(text::texts(out@) =~= seq![bin@] + longer.take(i as int + 1));
        i = i + 1;
    }
    assert(longer.take(exts@.len() as int) =~= longer);
    out
}

/// The last part of a path, if it names anything.
pub open spec fn file_name_of(path: Seq<char>) -> Option<Seq<char>> {
    let parts = paths::parts_of(path);
    if parts.len() == 0 || parts.last() == seq!['.', '.'] {
        None
    } else {
        Some(parts.last())
    }
}

/// How many components a path has.
pub open spec fn component_count(path: Seq<char>) -> nat {
    let lead: nat = if paths::is_absolute(path) {
        1
    } else if path.len() > 0 && path[0] == '.' && (path.len() == 1 || path[1] == '/') {
        1
    } else {
        0
    };
    lead + paths::parts_of(path).len()
}

/// The last part of a path has an extension.
pub open spec fn has_extension(path: Seq<char>) -> bool {
    match file_name_of(path) {
        Some(name) => has_inner_dot(name),
        None => false,
    }
}

/// A dot stands in `name`, not at its start.
pub open spec fn has_inner_dot(name: Seq<char>) -> bool {
    exists|k: int| 0 < k < name.len() && #[trigger] name[k] == '.'
}

/// `path` with an extension put behind its last part, if it names anything.
pub open spec fn extended(path: Seq<char>, ext: Seq<char>) -> Seq<char> {
    if file_name_of(path) is None {
        path
    } else if ext.len() == 0 {
        paths::to_last_name(path)
    } else {
        paths::to_last_name(path).push('.') + ext
    }
}

/// `s` without dots at its start.
pub open spec fn without_dots(s: Seq<char>) -> Seq<char>
    decreases s.len(),
{
    if s.len() > 0 && s[0] == '.' {
        without_dots(s.drop_first())
    } else {
        s
    }
}

pub(crate) fn file_name(path: &[char]) -> (r: Option<Vec<char>>)
    ensures
        match r {
            Some(n) => file_name_of(path@) == Some(n@),
            None => file_name_of(path@) is None,
        },
{
    let parts = paths::components(path);
    assert(text::rows(parts@).len() == parts@.len());
    let n: usize = parts.len();
    if n == 0 || paths::is_parent(&parts[n - 1]) {
        None
    } else {
        let last = text::slice_of(&parts[n - 1], 0, parts[n - 1].len());
        assert(last@ =~= text::rows(parts@).last());
        Some(last)
    }
}

/// Whether a path is a mere name.
pub fn is_bare_name(path: &[char]) -> (r: bool)
    ensures
        r == (component_count(path@) == 1),
{
    let parts = paths::components(path);
    assert(text::rows(parts@).len() == parts@.len());
    let lead = path.len() > 0 && (path[0] == '/' || (path[0] == '.' && (path.len() == 1 || path[1]
        == '/')));
    if lead {
        parts.len() == 0
    } else {
        parts.len() == 1
    }
}

fn lacks_extension(path: &[char]) -> (r: bool)
    ensures
        r == !has_extension(path@),
{
    match file_name(path) {
        None => true,
        Some(name) => {
            let mut k: usize = 1;
            while k < name.len()
                invariant
                    1 <= k,
                    file_name_of(path@) == Some(name@),
                    forall|j: int| 0 < j < k && j < name@.len() ==> #[trigger] name@[j] != '.',
                decreases name.len() - k,
            {
                if name[k] == '.' {
                    assert(name@[k as int] == '.');
                    return false;
                }
                k = k + 1;
            }
            true
        },
    }
}

fn extend(path: &[char], ext: &[char]) -> (out: Vec<char>)
    ensures
        out@ == extended(path@, ext@),
{
    let names = file_name(path).is_some();
    if !names {
        let out = text::slice_of(path, 0, path.len());
        assert(out@ =~= path@);
        return out;
    }
    let mut out = paths::cut_to_last_name(path);
    if ext.len() == 0 {
        return out;
    }
    out.push('.');
    let mut tail = text::slice_of(ext, 0, ext.len());
    assert(tail@ =~= ext@);
    out.append(&mut tail);
    out
}

fn strip_dots(s: &[char]) -> (out: Vec<char>)
    ensures
        out@ == without_dots(s@),
{
    let mut from: usize = 0;
    assert(s@.skip(0) =~= s@);
    while from < s.len() && s[from] == '.'
        invariant
            from <= s@.len(),
            without_dots(s@) == without_dots(s@.skip(from as int)),
        decreases s.len() - from,
    {
        assert(s@.skip(from as int).drop_first() =~= s@.skip(from as int + 1));
        from = from + 1;
    }
    let out = text::slice_of(s, from, s.len());
    assert(out@ =~= s@.skip(from as int));
    out
}

/// A program's name without the extension that Windows gives it.
pub open spec fn without_windows_ext(name: Seq<char>) -> Seq<char> {
    if ends_loosely(name, ".cmd"@) || ends_loosely(name, ".exe"@) || ends_loosely(name, ".bat"@)
        || ends_loosely(name, ".com"@) {
        name.take(name.len() - 4)
    } else {
        name
    }
}

/// The name of a program by its path.
pub open spec fn stem_of(path: Seq<char>) -> Seq<char> {
    without_windows_ext(
        match file_name_of(path) {
            Some(name) => name,
            None => path,
        },
    )
}

fn strip_windows_ext(name: &[char]) -> (out: Vec<char>)
    ensures
        out@ == without_windows_ext(name@),
{
    proof {
        reveal_strlit(".cmd");
        reveal_strlit(".exe");
        reveal_strlit(".bat");
        reveal_strlit(".com");
        assert(text::ascii_lower(".cmd"@) =~= ".cmd"@);
        assert(text::ascii_lower(".exe"@) =~= ".exe"@);
        assert(text::ascii_lower(".bat"@) =~= ".bat"@);
        assert(text::ascii_lower(".com"@) =~= ".com"@);
    }
    let lower = text::lower_chars(name);
    if text::ends_with(&lower, &text::chars_of(".cmd")) || text::ends_with(
        &lower,
        &text::chars_of(".exe"),
    ) || text::ends_with(&lower, &text::chars_of(".bat")) || text::ends_with(
        &lower,
        &text::chars_of(".com"),
    ) {
        let out = text::slice_of(name, 0, name.len() - 4);
        assert(out@ =~= name@.take(name@.len() - 4));
        out
    } else {
        let out = text::slice_of(name, 0, name.len());
        assert(out@ =~= name@);
        out
    }
}

/// The name of a program by its path.
pub fn bin_stem(path: &str) -> (r: String)
    ensures
        r@ == stem_of(path@),
{
    let chars = text::chars_of(path);
    let out = match file_name(&chars) {
        Some(name) => strip_windows_ext(&name),
        None => strip_windows_ext(&chars),
    };
    text::string_of(&out)
}

// ------------------------------------------------------------------ probing

/// Where programs are looked for, with what was found there.
#[derive(Debug)]
pub struct Discovery {
    /// The directories that are searched, in their order.
    pub path_dirs: Vec<String>,
    /// Settings; where a name occurs twice, the first one counts.
    pub env: Vec<(String, String)>,
    pub windows: bool,
    /// Paths, each with the program that runs under it.
    pub found: Vec<(String, String)>,
}

/// A way to start a server, as mathematics.
pub ghost struct Server {
    pub language: Language,
    pub command: Seq<char>,
    pub args: Seq<Seq<char>>,
    pub hint: Seq<char>,
}

/// What a way to start a server is.
pub open spec fn server(s: ServerSpec) -> Server {
    Server {
        language: s.language,
        command: s.command@,
        args: text::texts(s.args@),
        hint: s.install_hint@,
    }
}

/// What came of looking for the server of one language.
#[derive(Debug, PartialEq, Eq)]
pub struct ProbeResult {
    pub language: Language,
    pub spec: Option<ServerSpec>,
    /// How to install the server: the one that was found, or one that is missing.
    pub install_hint: String,
}

/// What came of looking for a server, as mathematics.
pub ghost struct Probe {
    pub language: Language,
    pub server: Option<Server>,
    pub hint: Seq<char>,
}

/// What came of looking for a server.
pub open spec fn probe_view(p: ProbeResult) -> Probe {
    Probe {
        language: p.language,
        server: match p.spec {
            Some(s) => Some(server(s)),
            None => None,
        },
        hint: p.install_hint@,
    }
}

/// The first name under which something runs in a directory.
pub open spec fn first_in_dir(
    found: Seq<(String, String)>,
    dir: Seq<char>,
    names: Seq<Seq<char>>,
) -> Option<Seq<char>>
    decreases names.len(),
{
    if names.len() == 0 {
        None
    } else {
        match text::entry(found, paths::below(dir, names[0])) {
            Some(p) => Some(p),
            None => first_in_dir(found, dir, names.drop_first()),
        }
    }
}

/// The first directory in which something runs under one of the names.
pub open spec fn first_on_path(
    found: Seq<(String, String)>,
    dirs: Seq<Seq<char>>,
    names: Seq<Seq<char>>,
) -> Option<Seq<char>>
    decreases dirs.len(),
{
    if dirs.len() == 0 {
        None
    } else {
        match first_in_dir(found, dirs[0], names) {
            Some(p) => Some(p),
            None => first_on_path(found, dirs.drop_first(), names),
        }
    }
}

/// The extensions that programs have on Windows, as a setting names them.
pub open spec fn pathext_of(env: Seq<(String, String)>) -> Seq<char> {
    match text::entry(env, "PATHEXT"@) {
        Some(v) if text::trimmed(v).len() > 0 => v,
        _ => ".COM;.EXE;.BAT;.CMD"@,
    }
}

/// What runs under `path` with one of the extensions.
pub open spec fn first_extended(
    found: Seq<(String, String)>,
    path: Seq<char>,
    exts: Seq<Seq<char>>,
) -> Option<Seq<char>>
    decreases exts.len(),
{
    if exts.len() == 0 {
        None
    } else {
        match text::entry(found, extended(path, without_dots(exts[0]))) {
            Some(p) => Some(p),
            None => first_extended(found, path, exts.drop_first()),
        }
    }
}

/// The program of a name on the search path.
pub open spec fn program_on_path(d: Discovery, bin: Seq<char>) -> Option<Seq<char>> {
    first_on_path(
        d.found@,
        text::texts(d.path_dirs@),
        names_of(bin, d.windows, pathext_of(d.env@)),
    )
}

/// The program that a setting names: a path, or a name on the search path.
pub open spec fn program_of_setting(d: Discovery, value: Seq<char>) -> Option<Seq<char>> {
    match text::entry(d.found@, value) {
        Some(p) => Some(p),
        None => {
            let widened = if d.windows && !has_extension(value) {
                first_extended(d.found@, value, extensions(pathext_of(d.env@)))
            } else {
                None
            };
            match widened {
                Some(p) => Some(p),
                None => if component_count(value) == 1 {
                    program_on_path(d, value)
                } else {
                    None
                },
            }
        },
    }
}

/// The first of the settings that is not blank: its name and its value.
pub open spec fn first_setting(env: Seq<(String, String)>, keys: Seq<Seq<char>>) -> Option<
    (Seq<char>, Seq<char>),
>
    decreases keys.len(),
{
    if keys.len() == 0 {
        None
    } else {
        match text::entry(env, keys[0]) {
            Some(v) if text::trimmed(v).len() > 0 => Some((keys[0], text::trimmed(v))),
            _ => first_setting(env, keys.drop_first()),
        }
    }
}

/// The first candidate with the name.
pub open spec fn choice_named(cs: Seq<Choice>, bin: Seq<char>) -> Option<Choice>
    decreases cs.len(),
{
    if cs.len() == 0 {
        None
    } else if cs[0].bin == bin {
        Some(cs[0])
    } else {
        choice_named(cs.drop_first(), bin)
    }
}

/// How a program that a setting names is started: as the candidate of its name
/// is, or else without arguments, but for TypeScript's compilers.
pub open spec fn server_for_resolved(language: Language, command: Seq<char>) -> Server {
    let stem = stem_of(command);
    match choice_named(all_choices(), stem) {
        Some(c) => Server { language, command, args: c.args, hint: c.install },
        None => Server {
            language,
            command,
            args: if stem == "tsc"@ || stem == "tsgo"@ {
                seq!["--lsp"@, "--stdio"@]
            } else {
                Seq::empty()
            },
            hint: "user override via "@ + setting_keys(language)[0],
        },
    }
}

/// The first candidate that is on the search path.
pub open spec fn first_candidate(d: Discovery, language: Language, cs: Seq<Choice>) -> Option<Server>
    decreases cs.len(),
{
    if cs.len() == 0 {
        None
    } else {
        match program_on_path(d, cs[0].bin) {
            Some(command) => Some(
                Server { language, command, args: cs[0].args, hint: cs[0].install },
            ),
            None => first_candidate(d, language, cs.drop_first()),
        }
    }
}

/// How Java's server is installed.
pub open spec fn java_hint() -> Seq<char> {
    "jdtls not found on PATH. Eclipse JDT Language Server (eclipse.jdt.ls) is the mainstream Java LSP, but it is not a single static binary.\n\nInstall the wrapper so `jdtls` is on PATH (stdio is the default transport):\n  brew install jdtls\n  # or download a release from https://github.com/eclipse-jdtls/eclipse.jdt.ls/releases and add its bin/ directory to PATH (requires Java 17+)\n\nA unique per-project workspace directory is required at launch:\n  jdtls -data /path/to/unique/workspace\n\nAstrolabe does not auto-assemble the raw JVM launch, which looks like:\n  java -Declipse.application=org.eclipse.jdt.ls.core.id1 \\\n       -Dosgi.bundles.defaultStartLevel=4 \\\n       -Declipse.product=org.eclipse.jdt.ls.core.product \\\n       -jar plugins/org.eclipse.equinox.launcher_<version>.jar \\\n       -configuration ./config_{linux|mac|win} \\\n       -data /path/to/unique/workspace\nThe launcher jar version, OS-specific config directory, and a unique -data path must match the unpacked distribution; a shared -data directory corrupts the index.\n\nOverride with ASTROLABE_LSP_JAVA=/path/to/jdtls"@
}

/// What is added to the hint for TypeScript and JavaScript.
pub open spec fn typescript_note() -> Seq<char> {
    " TypeScript 7's native `tsc --lsp --stdio` is not auto-detected because older `tsc` binaries do not speak LSP; set ASTROLABE_LSP_TYPESCRIPT to that executable if you want it."@
}

/// How a server for a language is installed. Nothing is said where none is known.
pub open spec fn missing_hint_of(language: Language) -> Seq<char> {
    if language == Language::Java {
        java_hint()
    } else if !is_probed(language) {
        Seq::empty()
    } else {
        let cs = choices_for(language);
        "none of "@ + queries::joined_by(cs.map_values(|c: Choice| c.bin), ", "@)
            + " found on PATH. Install one of:\n  "@ + queries::joined_by(
            cs.map_values(|c: Choice| c.install),
            "\n  "@,
        ) + "\nOr set "@ + setting_keys(language)[0] + " to the executable."@ + (match language {
            Language::TypeScript | Language::Tsx | Language::JavaScript => typescript_note(),
            _ => Seq::empty(),
        })
    }
}

/// What comes of looking for the server of a language: the program that a
/// setting names, or else the first candidate on the search path.
pub open spec fn probe_of(d: Discovery, language: Language) -> Probe {
    match first_setting(d.env@, setting_keys(language)) {
        Some((key, value)) => match program_of_setting(d, value) {
            Some(command) => {
                let s = server_for_resolved(language, command);
                Probe { language, server: Some(s), hint: s.hint }
            },
            None => Probe {
                language,
                server: None,
                hint: key + " is set to `"@ + value
                    + "` but that executable was not found. "@ + missing_hint_of(language),
            },
        },
        None => match first_candidate(d, language, choices_for(language)) {
            Some(s) => Probe { language, server: Some(s), hint: s.hint },
            None => Probe { language, server: None, hint: missing_hint_of(language) },
        },
    }
}

fn strings_of(v: &Vec<&'static str>) -> (out: Vec<String>)
    ensures
        text::texts(out@) == strs(v@),
{
    let mut out: Vec<String> = Vec::new();
    let mut i: usize = 0;
    while i < v.len()
        invariant
            i <= v@.len(),
            out@.len() == i,
            forall|k: int| 0 <= k < i ==> #[trigger] out@[k]@ == v@[k]@,
        decreases v.len() - i,
    {
        out.push(text::string_of(&text::chars_of(v[i])));
        i = i + 1;
    }
    assert(text::texts(out@) =~= strs(v@));
    out
}

fn spec_from_candidate(language: Language, command: String, c: &Candidate) -> (r: ServerSpec)
    ensures
        server(r) == (Server {
            language,
            command: command@,
            args: choice(*c).args,
            hint: choice(*c).install,
        }),
{
    ServerSpec {
        language,
        command,
        args: strings_of(&c.args),
        install_hint: text::string_of(&text::chars_of(c.install)),
    }
}

fn all_candidates() -> (out: Vec<Candidate>)
    ensures
        choices(out@) == all_choices(),
{
    let mut out = candidates(Language::Python);
    let mut more = candidates(Language::Go);
    assert(choices(out@ + more@) =~= choices(out@) + choices(more@));
    out.append(&mut more);
    let mut more = candidates(Language::Java);
    assert(choices(out@ + more@) =~= choices(out@) + choices(more@));
    out.append(&mut more);
    let mut more = candidates(Language::Rust);
    assert(choices(out@ + more@) =~= choices(out@) + choices(more@));
    out.append(&mut more);
    let mut more = candidates(Language::TypeScript);
    assert(choices(out@ + more@) =~= choices(out@) + choices(more@));
    out.append(&mut more);
    out
}

fn spec_for_resolved(language: Language, command: String) -> (r: ServerSpec)
    requires
        is_probed(language),
    ensures
        server(r) == server_for_resolved(language, command@),
{
    let stem = bin_stem(command.as_str());
    let known = all_candidates();
    let ghost all = choices(known@);
    let mut i: usize = 0;
    assert(all.skip(0) =~= all);
    while i < known.len()
        invariant
            i <= known@.len(),
            all == choices(known@),
            all == all_choices(),
            stem@ == stem_of(command@),
            choice_named(all, stem@) == choice_named(all.skip(i as int), stem@),
        decreases known.len() - i,
    {
        assert(all.skip(i as int)[0] == choice(known@[i as int]));
        assert(all.skip(i as int).drop_first() =~= all.skip(i as int + 1));
        if text::same(known[i].bin, stem.as_str()) {
            return spec_from_candidate(language, command, &known[i]);
        }
        i = i + 1;
    }
    let args = if text::same(stem.as_str(), "tsc") || text::same(stem.as_str(), "tsgo") {
        let v: Vec<&'static str> = vec!["--lsp", "--stdio"];
        let out = strings_of(&v);
        assert(strs(v@) =~= seq!["--lsp"@, "--stdio"@]);
        out
    } else {
        let none: Vec<String> = Vec::new();
        assert(text::texts(none@) =~= Seq::empty());
        none
    };
    let install_hint = String::from_str("user override via ").concat(env_override_var(language));
    ServerSpec { language, command, args, install_hint }
}

/// How Java's server is installed.
fn java_unavailable() -> (r: String)
    ensures
        r@ == java_hint(),
{
    String::from_str(
        "jdtls not found on PATH. Eclipse JDT Language Server (eclipse.jdt.ls) is the mainstream Java LSP, but it is not a single static binary.\n\nInstall the wrapper so `jdtls` is on PATH (stdio is the default transport):\n  brew install jdtls\n  # or download a release from https://github.com/eclipse-jdtls/eclipse.jdt.ls/releases and add its bin/ directory to PATH (requires Java 17+)\n\nA unique per-project workspace directory is required at launch:\n  jdtls -data /path/to/unique/workspace\n\nAstrolabe does not auto-assemble the raw JVM launch, which looks like:\n  java -Declipse.application=org.eclipse.jdt.ls.core.id1 \\\n       -Dosgi.bundles.defaultStartLevel=4 \\\n       -Declipse.product=org.eclipse.jdt.ls.core.product \\\n       -jar plugins/org.eclipse.equinox.launcher_<version>.jar \\\n       -configuration ./config_{linux|mac|win} \\\n       -data /path/to/unique/workspace\nThe launcher jar version, OS-specific config directory, and a unique -data path must match the unpacked distribution; a shared -data directory corrupts the index.\n\nOverride with ASTROLABE_LSP_JAVA=/path/to/jdtls",
    )
}

/// How a server for a language is installed.
pub fn missing_hint(language: Language) -> (r: String)
    ensures
        r@ == missing_hint_of(language),
{
    match language {
        Language::Java => java_unavailable(),
        Language::Python | Language::Go | Language::Rust | Language::TypeScript | Language::Tsx
        | Language::JavaScript => {
            let cands = candidates(language);
            let ghost all = choices_for(language);
            let mut bins: Vec<String> = Vec::new();
            let mut installs: Vec<String> = Vec::new();
            let mut i: usize = 0;
            while i < cands.len()
                invariant
                    i <= cands@.len(),
                    all == choices(cands@),
                    bins@.len() == i,
                    installs@.len() == i,
                    forall|k: int| 0 <= k < i ==> #[trigger] bins@[k]@ == all[k].bin,
                    forall|k: int| 0 <= k < i ==> #[trigger] installs@[k]@ == all[k].install,
                decreases cands.len() - i,
            {
                assert(all[i as int] == choice(cands@[i as int]));
                bins.push(text::string_of(&text::chars_of(cands[i].bin)));
                installs.push(text::string_of(&text::chars_of(cands[i].install)));
                i = i + 1;
            }
            assert(all.len() == cands@.len());
            assert(text::texts(bins@) =~= all.map_values(|c: Choice| c.bin));
            assert(text::texts(installs@) =~= all.map_values(|c: Choice| c.install));
            assert(text::texts(bins@).take(bins@.len() as int) =~= text::texts(bins@));
            assert(text::texts(installs@).take(installs@.len() as int) =~= text::texts(installs@));
            let named = queries::join_strings(&bins, bins.len(), ", ");
            let ways = queries::join_strings(&installs, installs.len(), "\n  ");
            let body = String::from_str("none of ").concat(named.as_str()).concat(
                " found on PATH. Install one of:\n  ",
            ).concat(ways.as_str()).concat("\nOr set ").concat(env_override_var(language)).concat(
                " to the executable.",
            );
            match language {
                Language::TypeScript | Language::Tsx | Language::JavaScript => body.concat(
                    " TypeScript 7's native `tsc --lsp --stdio` is not auto-detected because older `tsc` binaries do not speak LSP; set ASTROLABE_LSP_TYPESCRIPT to that executable if you want it.",
                ),
                _ => {
                    assert(body@ + Seq::<char>::empty() =~= body@);
                    body
                },
            }
        },
        _ => {
            let none = String::new();
            assert(none@ =~= Seq::<char>::empty());
            none
        },
    }
}

impl Discovery {
    /// The directories of a search path, with nothing found in them.
    pub fn new(path: &str) -> (r: Discovery)
        ensures
            text::texts(r.path_dirs@) == search_dirs(path@),
            r.env@.len() == 0,
            !r.windows,
            r.found@.len() == 0,
    {
        let pieces = text::split_on(&text::chars_of(path), ':');
        let ghost all = text::rows(pieces@);
        let mut dirs: Vec<String> = Vec::new();
        let mut i: usize = 0;
        assert(text::texts(dirs@) =~= nonempty(all.take(0)));
        while i < pieces.len()
            invariant
                i <= pieces@.len(),
                all == text::rows(pieces@),
                text::texts(dirs@) == nonempty(all.take(i as int)),
            decreases pieces.len() - i,
        {
            let ghost was = text::texts(dirs@);
            assert(all.take(i as int + 1).drop_last() =~= all.take(i as int));
            if pieces[i].len() > 0 {
                dirs.push(text::string_of(&pieces[i]));
                assert(text::texts(dirs@) =~= was.push(all[i as int]));
            }
            i = i + 1;
        }
        assert(all.take(pieces@.len() as int) =~= all);
        Discovery { path_dirs: dirs, env: Vec::new(), windows: false, found: Vec::new() }
    }

    /// The same search with a setting changed.
    pub fn with_env(self, key: &str, value: &str) -> (r: Discovery)
        ensures
            text::entry(r.env@, key@) == Some(value@),
            forall|k: Seq<char>|
                k != key@ ==> #[trigger] text::entry(r.env@, k) == text::entry(self.env@, k),
            r.path_dirs == self.path_dirs,
            r.windows == self.windows,
            r.found == self.found,
    {
        let mut env = self.env;
        let ghost was = env@;
        let name = text::string_of(&text::chars_of(key));
        let set = text::string_of(&text::chars_of(value));
        env.insert(0, (name, set));
        assert(env@.drop_first() =~= was);
        assert(env@[0].0@ == key@ && env@[0].1@ == value@);
        Discovery { path_dirs: self.path_dirs, env, windows: self.windows, found: self.found }
    }

    /// The same search on another system.
    pub fn on_windows(self, windows: bool) -> (r: Discovery)
        ensures
            r.windows == windows,
            r.env == self.env,
            r.path_dirs == self.path_dirs,
            r.found == self.found,
    {
        Discovery { path_dirs: self.path_dirs, env: self.env, windows, found: self.found }
    }

    /// The same search, where `program` is what runs under `path`.
    pub fn with_found(self, path: &str, program: &str) -> (r: Discovery)
        ensures
            text::entry(r.found@, path@) == Some(program@),
            forall|k: Seq<char>|
                k != path@ ==> #[trigger] text::entry(r.found@, k) == text::entry(self.found@, k),
            r.env == self.env,
            r.path_dirs == self.path_dirs,
            r.windows == self.windows,
    {
        let mut found = self.found;
        let ghost was = found@;
        found.insert(
            0,
            (text::string_of(&text::chars_of(path)), text::string_of(&text::chars_of(program))),
        );
        assert(found@.drop_first() =~= was);
        assert(found@[0].0@ == path@ && found@[0].1@ == program@);
        Discovery { path_dirs: self.path_dirs, env: self.env, windows: self.windows, found }
    }

    fn pathext_joined(&self) -> (r: String)
        ensures
            r@ == pathext_of(self.env@),
    {
        match text::find_entry(&self.env, "PATHEXT") {
            Some(v) => {
                if text::trim(&text::chars_of(v.as_str())).len() > 0 {
                    v
                } else {
                    String::from_str(".COM;.EXE;.BAT;.CMD")
                }
            },
            None => String::from_str(".COM;.EXE;.BAT;.CMD"),
        }
    }

    fn find_in_dir(&self, dir: &str, names: &Vec<String>) -> (r: Option<String>)
        ensures
            match r {
                Some(p) => first_in_dir(self.found@, dir@, text::texts(names@)) == Some(p@),
                None => first_in_dir(self.found@, dir@, text::texts(names@)) is None,
            },
    {
        let ghost all = text::texts(names@);
        let mut i: usize = 0;
        assert(all.skip(0) =~= all);
        while i < names.len()
            invariant
                i <= names@.len(),
                all == text::texts(names@),
                first_in_dir(self.found@, dir@, all) == first_in_dir(
                    self.found@,
                    dir@,
                    all.skip(i as int),
                ),
            decreases names.len() - i,
        {
            assert(all.skip(i as int)[0] == names@[i as int]@);
            assert(all.skip(i as int).drop_first() =~= all.skip(i as int + 1));
            let path = paths::join(dir, names[i].as_str());
            if let Some(p) = text::find_entry(&self.found, path.as_str()) {
                return Some(p);
            }
            i = i + 1;
        }
        None
    }

    /// The program of a name on the search path.
    pub fn find_on_path(&self, bin: &str) -> (r: Option<String>)
        ensures
            match r {
                Some(p) => program_on_path(*self, bin@) == Some(p@),
                None => program_on_path(*self, bin@) is None,
            },
    {
        let pathext = self.pathext_joined();
        let names = command_names(bin, self.windows, pathext.as_str());
        let ghost all = text::texts(self.path_dirs@);
        let ghost ns = text::texts(names@);
        let mut i: usize = 0;
        assert(all.skip(0) =~= all);
        while i < self.path_dirs.len()
            invariant
                i <= self.path_dirs@.len(),
                all == text::texts(self.path_dirs@),
                ns == text::texts(names@),
                ns == names_of(bin@, self.windows, pathext_of(self.env@)),
                first_on_path(self.found@, all, ns) == first_on_path(
                    self.found@,
                    all.skip(i as int),
                    ns,
                ),
            decreases self.path_dirs.len() - i,
        {
            assert(all.skip(i as int)[0] == self.path_dirs@[i as int]@);
            assert(all.skip(i as int).drop_first() =~= all.skip(i as int + 1));
            if let Some(p) = self.find_in_dir(self.path_dirs[i].as_str(), &names) {
                return Some(p);
            }
            i = i + 1;
        }
        None
    }

    /// The first of the settings for a language that is not blank.
    pub fn override_value(&self, language: Language) -> (r: Option<(&'static str, String)>)
        ensures
            match r {
                Some((key, value)) => first_setting(self.env@, setting_keys(language)) == Some(
                    (key@, value@),
                ),
                None => first_setting(self.env@, setting_keys(language)) is None,
            },
    {
        let keys = env_override_keys(language);
        let ghost all = strs(keys@);
        let mut i: usize = 0;
        assert(all.skip(0) =~= all);
        while i < keys.len()
            invariant
                i <= keys@.len(),
                all == strs(keys@),
                all == setting_keys(language),
                first_setting(self.env@, all) == first_setting(self.env@, all.skip(i as int)),
            decreases keys.len() - i,
        {
            assert(all.skip(i as int)[0] == keys@[i as int]@);
            assert(all.skip(i as int).drop_first() =~= all.skip(i as int + 1));
            if let Some(v) = text::find_entry(&self.env, keys[i]) {
                let t = text::trim(&text::chars_of(v.as_str()));
                if t.len() > 0 {
                    return Some((keys[i], text::string_of(&t)));
                }
            }
            i = i + 1;
        }
        None
    }

    fn find_extended(&self, path: &[char]) -> (r: Option<String>)
        ensures
            match r {
                Some(p) => first_extended(
                    self.found@,
                    path@,
                    extensions(pathext_of(self.env@)),
                ) == Some(p@),
                None => first_extended(
                    self.found@,
                    path@,
                    extensions(pathext_of(self.env@)),
                ) is None,
            },
    {
        let pathext = self.pathext_joined();
        let exts = parse_pathext(pathext.as_str());
        let ghost all = text::texts(exts@);
        let mut i: usize = 0;
        assert(all.skip(0) =~= all);
        while i < exts.len()
            invariant
                i <= exts@.len(),
                all == text::texts(exts@),
                all == extensions(pathext_of(self.env@)),
                first_extended(self.found@, path@, all) == first_extended(
                    self.found@,
                    path@,
                    all.skip(i as int),
                ),
            decreases exts.len() - i,
        {
            assert(all.skip(i as int)[0] == exts@[i as int]@);
            assert(all.skip(i as int).drop_first() =~= all.skip(i as int + 1));
            let ext = strip_dots(&text::chars_of(exts[i].as_str()));
            let longer = text::string_of(&extend(path, &ext));
            if let Some(p) = text::find_entry(&self.found, longer.as_str()) {
                return Some(p);
            }
            i = i + 1;
        }
        None
    }

    /// The program that a setting names.
    pub fn resolve_override(&self, value: &str) -> (r: Option<String>)
        ensures
            match r {
                Some(p) => program_of_setting(*self, value@) == Some(p@),
                None => program_of_setting(*self, value@) is None,
            },
    {
        if let Some(p) = text::find_entry(&self.found, value) {
            return Some(p);
        }
        let chars = text::chars_of(value);
        if self.windows && lacks_extension(&chars) {
            if let Some(p) = self.find_extended(&chars) {
                return Some(p);
            }
        }
        if is_bare_name(&chars) {
            self.find_on_path(value)
        } else {
            None
        }
    }

    /// Looks for the server of a language. That there is none is a result too.
    pub fn probe(&self, language: Language) -> (r: ProbeResult)
        ensures
            probe_view(r) == probe_of(*self, language),
    {
        if let Some((key, value)) = self.override_value(language) {
            assert(is_probed(language));
            return match self.resolve_override(value.as_str()) {
                Some(command) => {
                    let spec = spec_for_resolved(language, command);
                    let install_hint = spec.install_hint.clone();
                    ProbeResult { language, spec: Some(spec), install_hint }
                },
                None => {
                    let rest = missing_hint(language);
                    ProbeResult {
                        language,
                        spec: None,
                        install_hint: text::string_of(&text::chars_of(key)).concat(
                            " is set to `",
                        ).concat(value.as_str()).concat(
                            "` but that executable was not found. ",
                        ).concat(rest.as_str()),
                    }
                },
            };
        }
        let cands = candidates(language);
        let ghost all = choices(cands@);
        let mut i: usize = 0;
        assert(all.skip(0) =~= all);
        while i < cands.len()
            invariant
                i <= cands@.len(),
                all == choices(cands@),
                all == choices_for(language),
                first_setting(self.env@, setting_keys(language)) is None,
                first_candidate(*self, language, all) == first_candidate(
                    *self,
                    language,
                    all.skip(i as int),
                ),
            decreases cands.len() - i,
        {
            assert(all.skip(i as int)[0] == choice(cands@[i as int]));
            assert(all.skip(i as int).drop_first() =~= all.skip(i as int + 1));
            if let Some(command) = self.find_on_path(cands[i].bin) {
                let spec = spec_from_candidate(language, command, &cands[i]);
                let install_hint = spec.install_hint.clone();
                return ProbeResult { language, spec: Some(spec), install_hint };
            }
            i = i + 1;
        }
        ProbeResult { language, spec: None, install_hint: missing_hint(language) }
    }

    /// The server of a language, or that there is none and how to get one.
    pub fn discover(&self, language: Language) -> (r: Result<ServerSpec, LspError>)
        ensures
            match r {
                Ok(s) => probe_of(*self, language).server == Some(server(s)),
                Err(LspError::Unavailable(l, hint)) => probe_of(*self, language).server is None && l
                    == language && hint@ == probe_of(*self, language).hint,
                Err(_) => false,
            },
    {
        let probed = self.probe(language);
        match probed.spec {
            Some(s) => Ok(s),
            None => Err(LspError::Unavailable(language, probed.install_hint)),
        }
    }

    /// Looks for the servers of all languages that are probed.
    pub fn probe_report(&self) -> (out: Vec<ProbeResult>)
        ensures
            out@.map_values(|p: ProbeResult| probe_view(p)) == PROBED_LANGUAGES@.map_values(
                |l: Language| probe_of(*self, l),
            ),
    {
        let languages = PROBED_LANGUAGES;
        let mut out: Vec<ProbeResult> = Vec::new();
        let mut i: usize = 0;
        while i < languages.len()
            invariant
                i <= languages@.len(),
                out@.len() == i,
                forall|k: int|
                    0 <= k < i ==> probe_view(#[trigger] out@[k]) == probe_of(*self, languages@[k]),
            decreases languages.len() - i,
        {
            out.push(self.probe(languages[i]));
            i = i + 1;
        }
        assert(out@.map_values(|p: ProbeResult| probe_view(p)) =~= PROBED_LANGUAGES@.map_values(
            |l: Language| probe_of(*self, l),
        ));
        out
    }
}

/// The pieces that are not empty.
pub open spec fn nonempty(pieces: Seq<Seq<char>>) -> Seq<Seq<char>>
    decreases pieces.len(),
{
    if pieces.len() == 0 {
        pieces
    } else if pieces.last().len() == 0 {
        nonempty(pieces.drop_last())
    } else {
        nonempty(pieces.drop_last()).push(pieces.last())
    }
}

/// The directories of a search path.
pub open spec fn search_dirs(path: Seq<char>) -> Seq<Seq<char>> {
    nonempty(text::pieces(path, ':'))
}

impl ProbeResult {
    pub fn available(&self) -> (r: bool)
        ensures
            r == (probe_view(*self).server is Some),
    {
        self.spec.is_some()
    }

    /// The result in one line.
    pub fn summary(&self) -> (r: String)
        ensures
            r@ == summary_of(probe_view(*self)),
    {
        let start = String::from_str(self.language.name()).concat(": ");
        match &self.spec {
            Some(s) => {
                let line = start.concat(s.command.as_str());
                assert(text::texts(s.args@).len() == s.args@.len());
                if s.args.len() == 0 {
                    line
                } else {
                    assert(text::texts(s.args@).take(s.args@.len() as int) =~= text::texts(
                        s.args@,
                    ));
                    let args = queries::join_strings(&s.args, s.args.len(), " ");
                    line.concat(" ").concat(args.as_str())
                }
            },
            None => start.concat("unavailable. ").concat(self.install_hint.as_str()),
        }
    }
}

/// A result in one line.
pub open spec fn summary_of(p: Probe) -> Seq<char> {
    types::language_name(p.language) + ": "@ + (match p.server {
        Some(s) => if s.args.len() == 0 {
            s.command
        } else {
            s.command + " "@ + queries::joined_by(s.args, " "@)
        },
        None => "unavailable. "@ + p.hint,
    })
}

// ------------------------------------------------------------ what is asked

/// The paths of the names in a directory.
pub open spec fn dir_paths(dir: Seq<char>, names: Seq<Seq<char>>) -> Seq<Seq<char>> {
    names.map_values(|n: Seq<char>| paths::below(dir, n))
}

/// The paths of the names in all directories.
pub open spec fn search_paths(dirs: Seq<Seq<char>>, names: Seq<Seq<char>>) -> Seq<Seq<char>>
    decreases dirs.len(),
{
    if dirs.len() == 0 {
        Seq::empty()
    } else {
        dir_paths(dirs[0], names) + search_paths(dirs.drop_first(), names)
    }
}

/// The paths at which a program is looked for.
pub open spec fn program_paths(d: Discovery, bin: Seq<char>) -> Seq<Seq<char>> {
    search_paths(text::texts(d.path_dirs@), names_of(bin, d.windows, pathext_of(d.env@)))
}

/// The paths at which candidates are looked for.
pub open spec fn candidate_paths(d: Discovery, cs: Seq<Choice>) -> Seq<Seq<char>>
    decreases cs.len(),
{
    if cs.len() == 0 {
        Seq::empty()
    } else {
        program_paths(d, cs[0].bin) + candidate_paths(d, cs.drop_first())
    }
}

/// `path` with each of the extensions.
pub open spec fn extended_paths(path: Seq<char>, exts: Seq<Seq<char>>) -> Seq<Seq<char>> {
    exts.map_values(|e: Seq<char>| extended(path, without_dots(e)))
}

/// The paths about which the file system has to be asked to probe a language.
pub open spec fn asked_paths(d: Discovery, language: Language) -> Seq<Seq<char>> {
    match first_setting(d.env@, setting_keys(language)) {
        Some((_, value)) => seq![value] + extended_paths(
            value,
            extensions(pathext_of(d.env@)),
        ) + program_paths(d, value),
        None => candidate_paths(d, choices_for(language)),
    }
}

fn append_all(out: &mut Vec<String>, more: Vec<String>)
    ensures
        text::texts(final(out)@) == text::texts(old(out)@) + text::texts(more@),
{
    let ghost a = out@;
    let mut more = more;
    let ghost b = more@;
    out.append(&mut more);
    assert(text::texts(a + b) =~= text::texts(a) + text::texts(b));
}

impl Discovery {
    fn paths_of(&self, bin: &str) -> (out: Vec<String>)
        ensures
            text::texts(out@) == program_paths(*self, bin@),
    {
        let pathext = self.pathext_joined();
        let names = command_names(bin, self.windows, pathext.as_str());
        let ghost ns = text::texts(names@);
        let ghost all = text::texts(self.path_dirs@);
        let mut out: Vec<String> = Vec::new();
        let mut i: usize = 0;
        assert(all.skip(0) =~= all);
        assert(text::texts(out@) + search_paths(all, ns) =~= search_paths(all, ns));
        while i < self.path_dirs.len()
            invariant
                i <= self.path_dirs@.len(),
                all == text::texts(self.path_dirs@),
                ns == text::texts(names@),
                search_paths(all, ns) == text::texts(out@) + search_paths(all.skip(i as int), ns),
            decreases self.path_dirs.len() - i,
        {
            assert(all.skip(i as int)[0] == self.path_dirs@[i as int]@);
            assert(all.skip(i as int).drop_first() =~= all.skip(i as int + 1));
            let ghost was = text::texts(out@);
            let ghost here = dir_paths(all[i as int], ns);
            let mut k: usize = 0;
            assert(was + here.take(0) =~= was);
            while k < names.len()
                invariant
                    k <= names@.len(),
                    i < self.path_dirs@.len(),
                    all == text::texts(self.path_dirs@),
                    ns == text::texts(names@),
                    here == dir_paths(all[i as int], ns),
                    text::texts(out@) == was + here.take(k as int),
                decreases names.len() - k,
            {
                let ghost now = text::texts(out@);
                assert(here[k as int] == paths::below(
                    self.path_dirs@[i as int]@,
                    names@[k as int]@,
                ));
                out.push(paths::join(self.path_dirs[i].as_str(), names[k].as_str()));
                assert(text::texts(out@) =~= now.push(here[k as int]));
                assert(text::texts(out@) =~= was + here.take(k as int + 1));
                k = k + 1;
            }
            assert(here.take(names@.len() as int) =~= here);
            assert((was + here) + search_paths(all.skip(i as int + 1), ns) =~= was + (here
                + search_paths(all.skip(i as int + 1), ns)));
            i = i + 1;
        }
        assert(all.skip(self.path_dirs@.len() as int) =~= Seq::<Seq<char>>::empty());
        assert(text::texts(out@) + Seq::<Seq<char>>::empty() =~= text::texts(out@));
        out
    }

    fn extensions_of(&self, path: &str) -> (out: Vec<String>)
        ensures
            text::texts(out@) == extended_paths(path@, extensions(pathext_of(self.env@))),
    {
        let pathext = self.pathext_joined();
        let exts = parse_pathext(pathext.as_str());
        let ghost all = text::texts(exts@);
        let chars = text::chars_of(path);
        let mut out: Vec<String> = Vec::new();
        let mut i: usize = 0;
        while i < exts.len()
            invariant
                i <= exts@.len(),
                all == text::texts(exts@),
                chars@ == path@,
                out@.len() == i,
                forall|k: int|
                    0 <= k < i ==> #[trigger] out@[k]@ == extended(path@, without_dots(all[k])),
            decreases exts.len() - i,
        {
            assert(all[i as int] == exts@[i as int]@);
            let ext = strip_dots(&text::chars_of(exts[i].as_str()));
            out.push(text::string_of(&extend(&chars, &ext)));
            i = i + 1;
        }
        assert(text::texts(out@) =~= extended_paths(path@, all));
        out
    }

    /// The paths about which the file system has to be asked to probe a language.
    pub fn paths_to_check(&self, language: Language) -> (out: Vec<String>)
        ensures
            text::texts(out@) == asked_paths(*self, language),
    {
        let mut out: Vec<String> = Vec::new();
        if let Some((_, value)) = self.override_value(language) {
            out.push(value.clone());
            assert(text::texts(out@) =~= seq![value@]);
            append_all(&mut out, self.extensions_of(value.as_str()));
            append_all(&mut out, self.paths_of(value.as_str()));
            return out;
        }
        let cands = candidates(language);
        let ghost all = choices(cands@);
        let mut i: usize = 0;
        assert(all.skip(0) =~= all);
        assert(text::texts(out@) + candidate_paths(*self, all) =~= candidate_paths(*self, all));
        while i < cands.len()
            invariant
                i <= cands@.len(),
                all == choices(cands@),
                candidate_paths(*self, all) == text::texts(out@) + candidate_paths(
                    *self,
                    all.skip(i as int),
                ),
            decreases cands.len() - i,
        {
            assert(all.skip(i as int)[0] == choice(cands@[i as int]));
            assert(all.skip(i as int).drop_first() =~= all.skip(i as int + 1));
            let ghost was = text::texts(out@);
            let more = self.paths_of(cands[i].bin);
            let ghost here = text::texts(more@);
            append_all(&mut out, more);
            i = i + 1;
            assert((was + here) + candidate_paths(*self, all.skip(i as int)) =~= was + (here
                + candidate_paths(*self, all.skip(i as int))));
        }
        assert(all.skip(cands@.len() as int) =~= Seq::<Choice>::empty());
        assert(text::texts(out@) + Seq::<Seq<char>>::empty() =~= text::texts(out@));
        out
    }
}

// -------------------------------------------------------------------- laws

/// Two tables say the same of some paths.
pub open spec fn agree(a: Seq<(String, String)>, b: Seq<(String, String)>, on: Seq<Seq<char>>) -> bool {
    forall|k: int|
        0 <= k < on.len() ==> text::entry(a, #[trigger] on[k]) == text::entry(b, on[k])
}

proof fn lemma_agree_parts(
    a: Seq<(String, String)>,
    b: Seq<(String, String)>,
    x: Seq<Seq<char>>,
    y: Seq<Seq<char>>,
)
    requires
        agree(a, b, x + y),
    ensures
        agree(a, b, x),
        agree(a, b, y),
{
    assert forall|k: int| 0 <= k < x.len() implies text::entry(a, #[trigger] x[k]) == text::entry(
        b,
        x[k],
    ) by {
        assert((x + y)[k] == x[k]);
    }
    assert forall|k: int| 0 <= k < y.len() implies text::entry(a, #[trigger] y[k]) == text::entry(
        b,
        y[k],
    ) by {
        assert((x + y)[x.len() + k] == y[k]);
    }
}

proof fn lemma_agree_in_dir(
    a: Seq<(String, String)>,
    b: Seq<(String, String)>,
    dir: Seq<char>,
    names: Seq<Seq<char>>,
)
    requires
        agree(a, b, dir_paths(dir, names)),
    ensures
        first_in_dir(a, dir, names) == first_in_dir(b, dir, names),
    decreases names.len(),
{
    if names.len() > 0 {
        assert(dir_paths(dir, names)[0] == paths::below(dir, names[0]));
        assert(dir_paths(dir, names) =~= seq![paths::below(dir, names[0])] + dir_paths(
            dir,
            names.drop_first(),
        ));
        lemma_agree_parts(
            a,
            b,
            seq![paths::below(dir, names[0])],
            dir_paths(dir, names.drop_first()),
        );
        lemma_agree_in_dir(a, b, dir, names.drop_first());
    }
}

proof fn lemma_agree_on_path(
    a: Seq<(String, String)>,
    b: Seq<(String, String)>,
    dirs: Seq<Seq<char>>,
    names: Seq<Seq<char>>,
)
    requires
        agree(a, b, search_paths(dirs, names)),
    ensures
        first_on_path(a, dirs, names) == first_on_path(b, dirs, names),
    decreases dirs.len(),
{
    if dirs.len() > 0 {
        lemma_agree_parts(
            a,
            b,
            dir_paths(dirs[0], names),
            search_paths(dirs.drop_first(), names),
        );
        lemma_agree_in_dir(a, b, dirs[0], names);
        lemma_agree_on_path(a, b, dirs.drop_first(), names);
    }
}

proof fn lemma_agree_extended(
    a: Seq<(String, String)>,
    b: Seq<(String, String)>,
    path: Seq<char>,
    exts: Seq<Seq<char>>,
)
    requires
        agree(a, b, extended_paths(path, exts)),
    ensures
        first_extended(a, path, exts) == first_extended(b, path, exts),
    decreases exts.len(),
{
    if exts.len() > 0 {
        let first = extended(path, without_dots(exts[0]));
        assert(extended_paths(path, exts)[0] == first);
        assert(extended_paths(path, exts) =~= seq![first] + extended_paths(
            path,
            exts.drop_first(),
        ));
        lemma_agree_parts(a, b, seq![first], extended_paths(path, exts.drop_first()));
        lemma_agree_extended(a, b, path, exts.drop_first());
    }
}

proof fn lemma_agree_candidates(d: Discovery, e: Discovery, language: Language, cs: Seq<Choice>)
    requires
        d.path_dirs == e.path_dirs,
        d.env == e.env,
        d.windows == e.windows,
        agree(d.found@, e.found@, candidate_paths(d, cs)),
    ensures
        first_candidate(d, language, cs) == first_candidate(e, language, cs),
    decreases cs.len(),
{
    if cs.len() > 0 {
        lemma_agree_parts(
            d.found@,
            e.found@,
            program_paths(d, cs[0].bin),
            candidate_paths(d, cs.drop_first()),
        );
        lemma_agree_on_path(
            d.found@,
            e.found@,
            text::texts(d.path_dirs@),
            names_of(cs[0].bin, d.windows, pathext_of(d.env@)),
        );
        lemma_agree_candidates(d, e, language, cs.drop_first());
    }
}

/// What comes of a probe depends on the file system only through the paths that
/// are to be asked about.
pub proof fn law_probes_ask_no_more(d: Discovery, e: Discovery, language: Language)
    requires
        d.path_dirs == e.path_dirs,
        d.env == e.env,
        d.windows == e.windows,
        agree(d.found@, e.found@, asked_paths(d, language)),
    ensures
        probe_of(d, language) == probe_of(e, language),
{
    match first_setting(d.env@, setting_keys(language)) {
        Some((_, value)) => {
            let exts = extensions(pathext_of(d.env@));
            let x = seq![value];
            let y = extended_paths(value, exts);
            let z = program_paths(d, value);
            lemma_agree_parts(d.found@, e.found@, x + y, z);
            lemma_agree_parts(d.found@, e.found@, x, y);
            assert(text::entry(d.found@, x[0]) == text::entry(e.found@, x[0]));
            lemma_agree_extended(d.found@, e.found@, value, exts);
            lemma_agree_on_path(
                d.found@,
                e.found@,
                text::texts(d.path_dirs@),
                names_of(value, d.windows, pathext_of(d.env@)),
            );
        },
        None => {
            lemma_agree_candidates(d, e, language, choices_for(language));
        },
    }
}

/// Every language that is probed has a hint, whether its server was found or
/// not: a missing server is never met with silence.
pub proof fn law_hints_are_never_empty(d: Discovery, language: Language)
    requires
        is_probed(language),
    ensures
        probe_of(d, language).hint.len() > 0,
{
    reveal_strlit("none of ");
    reveal_strlit("user override via ");
    reveal_strlit(" is set to `");
    lemma_java_hint();
    lemma_installs();
    assert(missing_hint_of(language).len() > 0);
    if first_setting(d.env@, setting_keys(language)) is None {
        lemma_candidate_hint(d, language, choices_for(language));
    } else {
        let (_, value) = first_setting(d.env@, setting_keys(language)).unwrap();
        if let Some(command) = program_of_setting(d, value) {
            lemma_named_hint(all_choices(), stem_of(command));
        }
    }
}

/// A setting wins over the search path. One that names no program is not passed
/// over: no server is found, and the hint names the setting and what it holds.
pub proof fn law_settings_win(d: Discovery, language: Language, key: Seq<char>, value: Seq<char>)
    requires
        first_setting(d.env@, setting_keys(language)) == Some((key, value)),
    ensures
        match program_of_setting(d, value) {
            Some(command) => probe_of(d, language).server matches Some(s) && s.command == command,
            None => probe_of(d, language).server is None && text::contains_text(
                probe_of(d, language).hint,
                key,
            ) && text::contains_text(probe_of(d, language).hint, value),
        },
{
    let hint = probe_of(d, language).hint;
    if program_of_setting(d, value) is None {
        let head = key + " is set to `"@;
        assert(text::stands_at(hint, key, 0)) by {
            assert(hint.subrange(0, key.len() as int) =~= key);
        }
        assert(text::stands_at(hint, value, head.len() as int)) by {
            assert(hint.subrange(head.len() as int, (head.len() + value.len()) as int) =~= value);
        }
    }
}

proof fn lemma_java_hint()
    ensures
        java_hint().len() > 0,
{
    reveal_strlit(
        "jdtls not found on PATH. Eclipse JDT Language Server (eclipse.jdt.ls) is the mainstream Java LSP, but it is not a single static binary.\n\nInstall the wrapper so `jdtls` is on PATH (stdio is the default transport):\n  brew install jdtls\n  # or download a release from https://github.com/eclipse-jdtls/eclipse.jdt.ls/releases and add its bin/ directory to PATH (requires Java 17+)\n\nA unique per-project workspace directory is required at launch:\n  jdtls -data /path/to/unique/workspace\n\nAstrolabe does not auto-assemble the raw JVM launch, which looks like:\n  java -Declipse.application=org.eclipse.jdt.ls.core.id1 \\\n       -Dosgi.bundles.defaultStartLevel=4 \\\n       -Declipse.product=org.eclipse.jdt.ls.core.product \\\n       -jar plugins/org.eclipse.equinox.launcher_<version>.jar \\\n       -configuration ./config_{linux|mac|win} \\\n       -data /path/to/unique/workspace\nThe launcher jar version, OS-specific config directory, and a unique -data path must match the unpacked distribution; a shared -data directory corrupts the index.\n\nOverride with ASTROLABE_LSP_JAVA=/path/to/jdtls",
    );
}

spec fn all_say_how(cs: Seq<Choice>) -> bool {
    forall|k: int| 0 <= k < cs.len() ==> (#[trigger] cs[k]).install.len() > 0
}

proof fn lemma_installs()
    ensures
        all_say_how(all_choices()),
        forall|l: Language| all_say_how(#[trigger] choices_for(l)),
{
    reveal_strlit("npm i -g pyright");
    reveal_strlit("npm i -g basedpyright");
    reveal_strlit("pip install python-lsp-server");
    reveal_strlit("pip install jedi-language-server");
    reveal_strlit("pip install ruff");
    reveal_strlit(
        "pip install ruff-lsp  # deprecated; prefer `pip install ruff` then `ruff server`",
    );
    reveal_strlit("go install golang.org/x/tools/gopls@latest");
    reveal_strlit("brew install jdtls");
    reveal_strlit("rustup component add rust-analyzer");
    reveal_strlit("npm i -g typescript-language-server typescript");
    reveal_strlit("npm i -g @vtsls/language-server");
    assert(all_say_how(python_choices()));
    assert(all_say_how(typescript_choices()));
}

proof fn lemma_named_hint(cs: Seq<Choice>, bin: Seq<char>)
    requires
        all_say_how(cs),
    ensures
        choice_named(cs, bin) matches Some(c) ==> c.install.len() > 0,
    decreases cs.len(),
{
    if cs.len() > 0 {
        assert(cs[0].install.len() > 0);
        assert(all_say_how(cs.drop_first())) by {
            assert forall|k: int| 0 <= k < cs.drop_first().len() implies (
            #[trigger] cs.drop_first()[k]).install.len() > 0 by {
                assert(cs.drop_first()[k] == cs[k + 1]);
            }
        }
        lemma_named_hint(cs.drop_first(), bin);
    }
}

proof fn lemma_candidate_hint(d: Discovery, language: Language, cs: Seq<Choice>)
    requires
        all_say_how(cs),
    ensures
        first_candidate(d, language, cs) matches Some(s) ==> s.hint.len() > 0,
    decreases cs.len(),
{
    if cs.len() > 0 {
        assert(cs[0].install.len() > 0);
        assert(all_say_how(cs.drop_first())) by {
            assert forall|k: int| 0 <= k < cs.drop_first().len() implies (
            #[trigger] cs.drop_first()[k]).install.len() > 0 by {
                assert(cs.drop_first()[k] == cs[k + 1]);
            }
        }
        lemma_candidate_hint(d, language, cs.drop_first());
    }
}

} // verus!
