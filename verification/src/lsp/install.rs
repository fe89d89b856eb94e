//! Installing language servers, once the user has agreed to it.
//!
//! A plan is made from what is found locally and downloads nothing. Only a plan
//! that was confirmed is carried out.

use super::discovery;
use super::discovery::{Discovery, ProbeResult};
use super::installer::InstallSpec;
use super::router;
use crate::text;
use crate::types;
use crate::types::Language;
use vstd::prelude::*;
use vstd::string::*;

verus! {

/// Which version is installed.
#[derive(Debug, PartialEq, Eq)]
pub enum VersionPolicy {
    /// The latest one that is supported.
    Latest,
    /// This one and no other.
    Pinned(String),
}

/// What a policy is called.
pub open spec fn policy_label(p: VersionPolicy) -> Seq<char> {
    match p {
        VersionPolicy::Latest => "latest"@,
        VersionPolicy::Pinned(v) => "pinned:"@ + v@,
    }
}

impl VersionPolicy {
    /// The policy that a pinned version asks for; a blank one asks for the latest.
    pub fn from_pin(pin: Option<&str>) -> (r: VersionPolicy)
        ensures
            match pin {
                Some(p) => if text::trimmed(p@).len() > 0 {
                    r matches VersionPolicy::Pinned(v) && v@ == text::trimmed(p@)
                } else {
                    r == VersionPolicy::Latest
                },
                None => r == VersionPolicy::Latest,
            },
    {
        match pin {
            Some(p) => {
                let t = text::trim(&text::chars_of(p));
                if t.len() > 0 {
                    VersionPolicy::Pinned(text::string_of(&t))
                } else {
                    VersionPolicy::Latest
                }
            },
            None => VersionPolicy::Latest,
        }
    }

    pub fn label(&self) -> (r: String)
        ensures
            r@ == policy_label(*self),
    {
        match self {
            VersionPolicy::Latest => String::from_str("latest"),
            VersionPolicy::Pinned(v) => String::from_str("pinned:").concat(v.as_str()),
        }
    }
}

/// Whether a language has a server.
#[derive(Debug, PartialEq, Eq)]
pub enum LspStatus {
    /// The server can be started.
    Ready { server_name: String, command: String },
    /// The server can be installed.
    NeedsInstall { server_name: String, install_hint: String },
    /// No server is known.
    AstOnly { reason: String },
}

/// What a status is called.
pub open spec fn status_token(s: LspStatus) -> Seq<char> {
    match s {
        LspStatus::Ready { .. } => "Ready"@,
        LspStatus::NeedsInstall { .. } => "needs_install"@,
        LspStatus::AstOnly { .. } => "AST-only"@,
    }
}

/// What a status adds to a line about a language.
pub open spec fn status_suffix(s: LspStatus) -> Seq<char> {
    match s {
        LspStatus::Ready { server_name, command } => " — Ready ("@ + server_name@ + " @ "@
            + command@ + ")"@,
        LspStatus::NeedsInstall { server_name, .. } => " — needs_install ("@ + server_name@
            + "; ask user then ensure_language_server)"@,
        LspStatus::AstOnly { reason } => " — AST-only ("@ + reason@ + ")"@,
    }
}

impl LspStatus {
    pub fn token(&self) -> (r: &'static str)
        ensures
            r@ == status_token(*self),
    {
        match self {
            LspStatus::Ready { .. } => "Ready",
            LspStatus::NeedsInstall { .. } => "needs_install",
            LspStatus::AstOnly { .. } => "AST-only",
        }
    }

    /// What a status adds to a line about a language.
    pub fn summary_suffix(&self) -> (r: String)
        ensures
            r@ == status_suffix(*self),
    {
        match self {
            LspStatus::Ready { server_name, command } => String::from_str(" — Ready (").concat(
                server_name.as_str(),
            ).concat(" @ ").concat(command.as_str()).concat(")"),
            LspStatus::NeedsInstall { server_name, .. } => String::from_str(
                " — needs_install (",
            ).concat(server_name.as_str()).concat("; ask user then ensure_language_server)"),
            LspStatus::AstOnly { reason } => String::from_str(" — AST-only (").concat(
                reason.as_str(),
            ).concat(")"),
        }
    }
}

/// What an installation would do.
#[derive(Debug, PartialEq, Eq)]
pub struct InstallPlan {
    pub language: Language,
    pub server_name: String,
    pub version_policy: VersionPolicy,
    /// The size of the download, where it is known.
    pub approximate_size_bytes: Option<u64>,
    pub install_hint: String,
    pub status: LspStatus,
}

/// The size of a download in words.
pub open spec fn size_text(size: Option<u64>) -> Seq<char> {
    match size {
        Some(n) => "~"@ + text::decimal(n as nat) + " bytes"@,
        None => "size unknown (catalog not wired)"@,
    }
}

/// What follows from the status of a plan.
pub open spec fn status_lines(p: InstallPlan) -> Seq<char> {
    match p.status {
        LspStatus::Ready { command, .. } => "already available at "@ + command@
            + "; no download needed.\n"@,
        LspStatus::NeedsInstall { .. } =>
        "needs_install: no download performed.\nnext_step: ask the user for permission, then call again with confirm_install=true.\n"@
            + "install_hint: "@ + p.install_hint@ + "\n"@,
        LspStatus::AstOnly { reason } => "AST-only: cannot install via this tool yet ("@ + reason@
            + ").\n"@,
    }
}

/// A plan in words.
pub open spec fn plan_text(p: InstallPlan) -> Seq<char> {
    "ensure_language_server plan\nlanguage: "@ + types::language_name(p.language) + "\nserver: "@
        + p.server_name@ + "\nversion_policy: "@ + policy_label(p.version_policy)
        + "\napproximate_size: "@ + size_text(p.approximate_size_bytes) + "\nstatus: "@
        + status_token(p.status) + "\n"@ + status_lines(p)
}

impl InstallPlan {
    fn status_text(&self) -> (r: String)
        ensures
            r@ == status_lines(*self),
    {
        match &self.status {
            LspStatus::Ready { command, .. } => String::from_str("already available at ").concat(
                command.as_str(),
            ).concat("; no download needed.\n"),
            LspStatus::NeedsInstall { .. } => String::from_str(
                "needs_install: no download performed.\nnext_step: ask the user for permission, then call again with confirm_install=true.\n",
            ).concat("install_hint: ").concat(self.install_hint.as_str()).concat("\n"),
            LspStatus::AstOnly { reason } => String::from_str(
                "AST-only: cannot install via this tool yet (",
            ).concat(reason.as_str()).concat(").\n"),
        }
    }

    /// The plan in words.
    pub fn render(&self) -> (r: String)
        ensures
            r@ == plan_text(*self),
    {
        let size = match self.approximate_size_bytes {
            Some(n) => String::from_str("~").concat(
                text::string_of(&text::to_decimal(n)).as_str(),
            ).concat(" bytes"),
            None => String::from_str("size unknown (catalog not wired)"),
        };
        let label = self.version_policy.label();
        let rest = self.status_text();
        String::from_str("ensure_language_server plan\nlanguage: ").concat(
            self.language.name(),
        ).concat("\nserver: ").concat(self.server_name.as_str()).concat(
            "\nversion_policy: ",
        ).concat(label.as_str()).concat("\napproximate_size: ").concat(size.as_str()).concat(
            "\nstatus: ",
        ).concat(self.status.token()).concat("\n").concat(rest.as_str())
    }
}

/// What an installation did.
#[derive(Debug, PartialEq, Eq)]
pub struct InstallRecord {
    pub language: Language,
    pub server_name: String,
    pub version: String,
    pub command: Option<String>,
    pub note: String,
}

/// Why nothing was installed.
#[derive(Debug, PartialEq, Eq)]
pub enum InstallError {
    UnknownLanguage(String),
    AstOnly(String, String),
    NotConfirmed,
    /// Nothing is known of where to get the server.
    NotImplemented(String, String),
    Failed(String),
}

/// The message of an error.
pub open spec fn install_error_text(e: InstallError) -> Seq<char> {
    match e {
        InstallError::UnknownLanguage(name) => "unknown language `"@ + name@
            + "` for ensure_language_server"@,
        InstallError::AstOnly(name, reason) => "language `"@ + name@ + "` is AST-only: "@
            + reason@,
        InstallError::NotConfirmed => "install declined or confirm_install not set"@,
        InstallError::NotImplemented(server, policy) => unwired_text(server@, policy@),
        InstallError::Failed(why) => "install failed: "@ + why@,
    }
}

/// The message where nothing is known of where to get a server.
pub open spec fn unwired_text(server: Seq<char>, policy: Seq<char>) -> Seq<char> {
    "TODO: language-server installer not merged yet; plan accepted but no download performed (server="@
        + server + ", version_policy="@ + policy + ")"@
}

impl InstallError {
    /// The message.
    pub fn message(&self) -> (r: String)
        ensures
            r@ == install_error_text(*self),
    {
        match self {
            InstallError::UnknownLanguage(name) => String::from_str("unknown language `").concat(
                name.as_str(),
            ).concat("` for ensure_language_server"),
            InstallError::AstOnly(name, reason) => String::from_str("language `").concat(
                name.as_str(),
            ).concat("` is AST-only: ").concat(reason.as_str()),
            InstallError::NotConfirmed => String::from_str(
                "install declined or confirm_install not set",
            ),
            InstallError::NotImplemented(server, policy) => String::from_str(
                "TODO: language-server installer not merged yet; plan accepted but no download performed (server=",
            ).concat(server.as_str()).concat(", version_policy=").concat(policy.as_str()).concat(
                ")",
            ),
            InstallError::Failed(why) => String::from_str("install failed: ").concat(why.as_str()),
        }
    }
}

/// Installs language servers.
pub trait LanguageServerInstaller: Send + Sync {
    /// What an installation would do. Nothing is downloaded.
    fn plan(&self, language: Language, version_pin: Option<&str>) -> Result<
        InstallPlan,
        InstallError,
    >;

    /// Carries out a plan that was confirmed.
    fn install(&self, plan: &InstallPlan) -> Result<InstallRecord, InstallError>;
}

/// Plans from what is found locally, and installs nothing.
#[derive(Debug)]
pub struct StubInstaller {
    pub discovery: Discovery,
}

/// The reason why there is no server for a language, if a hint gives one.
pub open spec fn ast_only_reason(hint: Seq<char>) -> Option<Seq<char>> {
    if hint.len() == 0 {
        Some("language server probe not wired"@)
    } else if text::contains_text(hint, "not wired"@) || text::contains_text(hint, "AST-only"@) {
        Some(hint)
    } else {
        None
    }
}

/// `s` is the status that a probe gives.
pub open spec fn is_status(s: LspStatus, p: discovery::Probe) -> bool {
    match p.server {
        Some(found) => s matches LspStatus::Ready { server_name, command } && server_name@
            == router::server_name_of(p.language) && command@ == found.command,
        None => match ast_only_reason(p.hint) {
            Some(why) => s matches LspStatus::AstOnly { reason } && reason@ == why,
            None => s matches LspStatus::NeedsInstall { server_name, install_hint } && server_name@
                == router::server_name_of(p.language) && install_hint@ == p.hint,
        },
    }
}

/// The status that a probe gives.
pub fn status_from_probe(probe: &ProbeResult) -> (r: LspStatus)
    ensures
        is_status(r, discovery::probe_view(*probe)),
{
    let server_name = text::string_of(
        &text::chars_of(router::primary_server_name(probe.language)),
    );
    match &probe.spec {
        Some(s) => LspStatus::Ready { server_name, command: s.command.clone() },
        None => {
            let hint = text::chars_of(probe.install_hint.as_str());
            if hint.len() == 0 {
                LspStatus::AstOnly { reason: String::from_str("language server probe not wired") }
            } else if text::has_text(&hint, &text::chars_of("not wired")) || text::has_text(
                &hint,
                &text::chars_of("AST-only"),
            ) {
                LspStatus::AstOnly { reason: probe.install_hint.clone() }
            } else {
                LspStatus::NeedsInstall { server_name, install_hint: probe.install_hint.clone() }
            }
        },
    }
}

impl StubInstaller {
    pub fn new(discovery: Discovery) -> (r: StubInstaller)
        ensures
            r.discovery == discovery,
    {
        StubInstaller { discovery }
    }

    /// Whether a language has a server.
    pub fn status_for(&self, language: Language) -> (r: LspStatus)
        ensures
            is_status(r, discovery::probe_of(self.discovery, language)),
    {
        status_from_probe(&self.discovery.probe(language))
    }

    /// Which of the languages that are probed have a server.
    pub fn probed_statuses(&self) -> (out: Vec<(Language, LspStatus)>)
        ensures
            out@.len() == discovery::PROBED_LANGUAGES@.len(),
            forall|k: int|
                0 <= k < out@.len() ==> (#[trigger] out@[k]).0 == discovery::PROBED_LANGUAGES@[k]
                    && is_status(out@[k].1, discovery::probe_of(self.discovery, out@[k].0)),
    {
        let languages = discovery::PROBED_LANGUAGES;
        let mut out: Vec<(Language, LspStatus)> = Vec::new();
        let mut i: usize = 0;
        while i < languages.len()
            invariant
                i <= languages@.len(),
                languages == discovery::PROBED_LANGUAGES,
                out@.len() == i,
                forall|k: int|
                    0 <= k < i ==> (#[trigger] out@[k]).0 == languages@[k] && is_status(
                        out@[k].1,
                        discovery::probe_of(self.discovery, out@[k].0),
                    ),
            decreases languages.len() - i,
        {
            let language = languages[i];
            out.push((language, self.status_for(language)));
            i = i + 1;
        }
        out
    }
}

impl Default for StubInstaller {
    fn default() -> (r: StubInstaller)
        ensures
            r.discovery.path_dirs@.len() == 0,
            r.discovery.env@.len() == 0,
            r.discovery.found@.len() == 0,
            !r.discovery.windows,
    {
        StubInstaller {
            discovery: Discovery {
                path_dirs: Vec::new(),
                env: Vec::new(),
                windows: false,
                found: Vec::new(),
            },
        }
    }
}

/// `p` is the plan for a language that a probe gives.
pub open spec fn is_plan(
    p: InstallPlan,
    language: Language,
    pin: Option<Seq<char>>,
    probe: discovery::Probe,
) -> bool {
    &&& p.language == language
    &&& p.server_name@ == router::server_name_of(language)
    &&& p.approximate_size_bytes is None
    &&& p.install_hint@ == probe.hint
    &&& is_status(p.status, probe)
    &&& match pin {
        Some(v) if text::trimmed(v).len() > 0 => p.version_policy matches VersionPolicy::Pinned(w)
            && w@ == text::trimmed(v),
        _ => p.version_policy == VersionPolicy::Latest,
    }
}

impl LanguageServerInstaller for StubInstaller {
    fn plan(&self, language: Language, version_pin: Option<&str>) -> (r: Result<
        InstallPlan,
        InstallError,
    >)
        ensures
            r matches Ok(p) && is_plan(
                p,
                language,
                match version_pin {
                    Some(v) => Some(v@),
                    None => None,
                },
                discovery::probe_of(self.discovery, language),
            ),
    {
        let version_policy = VersionPolicy::from_pin(version_pin);
        let probe = self.discovery.probe(language);
        let status = status_from_probe(&probe);
        let server_name = text::string_of(&text::chars_of(router::primary_server_name(language)));
        Ok(
            InstallPlan {
                language,
                server_name,
                version_policy,
                approximate_size_bytes: None,
                install_hint: probe.install_hint,
                status,
            },
        )
    }

    fn install(&self, plan: &InstallPlan) -> (r: Result<InstallRecord, InstallError>)
        ensures
            is_settled(r, *plan),
    {
        match install_step(plan, None) {
            InstallStep::Done(r) => r,
            InstallStep::Fetch(_) => Err(InstallError::NotConfirmed),
        }
    }
}

/// What carrying out a plan comes to.
#[derive(Debug)]
pub enum InstallStep {
    Done(Result<InstallRecord, InstallError>),
    /// The server is to be fetched.
    Fetch(InstallSpec),
}

/// `r` is what carrying out a plan comes to where nothing is known of where to
/// get the server.
pub open spec fn is_settled(r: Result<InstallRecord, InstallError>, plan: InstallPlan) -> bool {
    match plan.status {
        LspStatus::Ready { command, .. } => r matches Ok(record) && record.language
            == plan.language && record.server_name@ == plan.server_name@ && record.version@
            == policy_label(plan.version_policy) && (record.command matches Some(c) && c@
            == command@) && record.note@ == "already installed; nothing downloaded"@,
        LspStatus::AstOnly { reason } => r matches Err(InstallError::AstOnly(name, why)) && name@
            == types::language_name(plan.language) && why@ == reason@,
        LspStatus::NeedsInstall { .. } => r matches Err(InstallError::NotImplemented(server, policy))
            && server@ == plan.server_name@ && policy@ == policy_label(plan.version_policy),
    }
}

/// Starts to carry out a plan. `catalog` says where to get the server, if that is
/// known; a pinned version takes the place of the one that it names.
pub fn install_step(plan: &InstallPlan, catalog: Option<InstallSpec>) -> (r: InstallStep)
    ensures
        match (plan.status, catalog) {
            (LspStatus::NeedsInstall { .. }, Some(spec)) => r matches InstallStep::Fetch(wanted)
                && wanted.name == spec.name && wanted.url == spec.url && wanted.sha256
                == spec.sha256 && wanted.archive == spec.archive && wanted.binary_relative
                == spec.binary_relative && wanted.version@ == (match plan.version_policy {
                VersionPolicy::Pinned(v) => v@,
                VersionPolicy::Latest => spec.version@,
            }),
            _ => r matches InstallStep::Done(done) && is_settled(done, *plan),
        },
{
    match &plan.status {
        LspStatus::Ready { command, .. } => InstallStep::Done(
            Ok(
                InstallRecord {
                    language: plan.language,
                    server_name: plan.server_name.clone(),
                    version: plan.version_policy.label(),
                    command: Some(command.clone()),
                    note: String::from_str("already installed; nothing downloaded"),
                },
            ),
        ),
        LspStatus::AstOnly { reason } => InstallStep::Done(
            Err(
                InstallError::AstOnly(
                    text::string_of(&text::chars_of(plan.language.name())),
                    reason.clone(),
                ),
            ),
        ),
        LspStatus::NeedsInstall { .. } => match catalog {
            Some(spec) => {
                let mut wanted = spec;
                if let VersionPolicy::Pinned(v) = &plan.version_policy {
                    wanted.version = v.clone();
                }
                InstallStep::Fetch(wanted)
            },
            None => InstallStep::Done(
                Err(
                    InstallError::NotImplemented(
                        plan.server_name.clone(),
                        plan.version_policy.label(),
                    ),
                ),
            ),
        },
    }
}

/// Ends carrying out a plan, given the program that was installed or why it was
/// not.
pub fn finish_install(plan: &InstallPlan, version: &str, outcome: Result<&str, &str>) -> (r: Result<
    InstallRecord,
    InstallError,
>)
    ensures
        match outcome {
            Ok(command) => r matches Ok(record) && record.language == plan.language
                && record.server_name@ == plan.server_name@ && record.version@ == version@ && (
            record.command matches Some(c) && c@ == command@) && record.note@
                == "installed via astrolabe lsp installer"@,
            Err(why) => r matches Err(InstallError::Failed(text)) && text@ == why@,
        },
{
    match outcome {
        Ok(command) => Ok(
            InstallRecord {
                language: plan.language,
                server_name: plan.server_name.clone(),
                version: text::string_of(&text::chars_of(version)),
                command: Some(text::string_of(&text::chars_of(command))),
                note: String::from_str("installed via astrolabe lsp installer"),
            },
        ),
        Err(why) => Err(InstallError::Failed(text::string_of(&text::chars_of(why)))),
    }
}

/// The language that a name stands for, letter case and blanks around it aside.
pub fn parse_language_name(raw: &str) -> (r: Result<Language, InstallError>)
    ensures
        ({
            let name = text::trimmed(raw@);
            if text::ascii_lower(name) == "jsx"@ {
                r == Ok::<Language, InstallError>(Language::JavaScript)
            } else {
                match types::language_named(text::ascii_lower(name)) {
                    Some(l) => r == Ok::<Language, InstallError>(l),
                    None => r matches Err(InstallError::UnknownLanguage(n)) && n@
                        == text::ascii_lower(name),
                }
            }
        }),
{
    let trimmed = text::string_of(&text::trim(&text::chars_of(raw)));
    let lower = text::to_ascii_lower(trimmed.as_str());
    if text::same(lower.as_str(), "jsx") {
        return Ok(Language::JavaScript);
    }
    match Language::from_name(trimmed.as_str()) {
        Some(l) => Ok(l),
        None => Err(InstallError::UnknownLanguage(lower)),
    }
}

/// How a server for a language is installed.
pub fn default_install_hint(language: Language) -> (r: String)
    ensures
        r@ == router::hint_of(language),
{
    text::string_of(&text::chars_of(router::install_hint_for(language)))
}

// --------------------------------------------------------------------- laws

/// A plan is carried out without a download wherever the server is there or is
/// not known: something is fetched only for a language whose server is missing
/// and can be had.
pub proof fn law_only_missing_servers_are_fetched(
    r: Result<InstallRecord, InstallError>,
    plan: InstallPlan,
    language: Language,
    pin: Option<Seq<char>>,
    probe: discovery::Probe,
)
    requires
        is_plan(plan, language, pin, probe),
        is_settled(r, plan),
    ensures
        r is Ok <==> probe.server is Some,
        probe.server is Some ==> !(plan.status is NeedsInstall),
        probe.server is None && ast_only_reason(probe.hint) is Some ==> !(
        plan.status is NeedsInstall),
{
}

} // verus!
