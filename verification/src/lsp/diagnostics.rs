//! The diagnostics of a file, and whether they can be relied on.
//!
//! A server is asked for them where it can be asked. Otherwise they are waited
//! for. A server that stays silent has not said that a file is clean.

use super::queries;
use super::wire;
use super::wire::Published;
use super::{Diagnostic, LanguageServer, LspError, Precise, Severity};
use crate::order;
use crate::text;
use crate::types;
use crate::types::{Confidence, Language, RelPath};
use vstd::prelude::*;
use vstd::string::*;

verus! {

/// How long diagnostics are waited for, in milliseconds.
pub const DEFAULT_PUSH_TIMEOUT: u64 = 2500;

/// The place of a severity, the gravest first.
pub open spec fn severity_level(s: Severity) -> int {
    match s {
        Severity::Error => 0,
        Severity::Warning => 1,
        Severity::Information => 2,
        Severity::Hint => 3,
    }
}

fn level_of(s: Severity) -> (r: u8)
    ensures
        r == severity_level(s),
{
    match s {
        Severity::Error => 0,
        Severity::Warning => 1,
        Severity::Information => 2,
        Severity::Hint => 3,
    }
}

/// Which severities are kept.
#[derive(Clone, Copy, Debug, PartialEq, Eq, Structural)]
pub enum SeverityFilter {
    Errors,
    ErrorsAndWarnings,
    All,
}

impl Default for SeverityFilter {
    fn default() -> (r: SeverityFilter)
        ensures
            r == SeverityFilter::ErrorsAndWarnings,
    {
        SeverityFilter::ErrorsAndWarnings
    }
}

impl SeverityFilter {
    /// A diagnostic of this severity is kept.
    pub open spec fn keeps(self, severity: Severity) -> bool {
        match self {
            SeverityFilter::Errors => severity == Severity::Error,
            SeverityFilter::ErrorsAndWarnings => severity_level(severity) <= 1,
            SeverityFilter::All => true,
        }
    }

    /// Whether a diagnostic of this severity is kept.
    pub fn allows(self, severity: Severity) -> (r: bool)
        ensures
            r == self.keeps(severity),
    {
        match self {
            SeverityFilter::Errors => level_of(severity) == 0,
            SeverityFilter::ErrorsAndWarnings => level_of(severity) <= 1,
            SeverityFilter::All => true,
        }
    }
}

/// What is asked of one fetch of diagnostics.
#[derive(Clone, Copy, Debug, PartialEq, Eq, Structural)]
pub struct FetchOptions {
    pub filter: SeverityFilter,
    /// How long diagnostics are waited for, in milliseconds.
    pub push_timeout: u64,
}

impl Default for FetchOptions {
    fn default() -> (r: FetchOptions)
        ensures
            r == (FetchOptions {
                filter: SeverityFilter::ErrorsAndWarnings,
                push_timeout: DEFAULT_PUSH_TIMEOUT,
            }),
    {
        FetchOptions {
            filter: SeverityFilter::ErrorsAndWarnings,
            push_timeout: DEFAULT_PUSH_TIMEOUT,
        }
    }
}

/// What waiting for diagnostics came to. An empty list is the server's word that
/// the file is clean; silence is not.
#[derive(Debug)]
pub enum PushWait {
    Received(Vec<Diagnostic>),
    NeverReceived,
}

/// A server that diagnostics can be fetched from.
pub trait DiagnosticClient: Send + Sync {
    /// Whether the server can be asked. Some servers do not survive a request
    /// that they do not know.
    fn supports_pull(&self) -> bool;

    /// Asks for the diagnostics of an open document.
    fn pull(&self, path: &RelPath) -> Result<Vec<Diagnostic>, LspError>;

    /// Opens a document.
    fn did_open(&self, path: &RelPath) -> Result<(), LspError>;

    /// Closes a document.
    fn did_close(&self, path: &RelPath) -> Result<(), LspError>;

    /// Waits as many milliseconds for diagnostics.
    fn wait_push(&self, path: &RelPath, timeout: u64) -> Result<PushWait, LspError>;
}

/// A language server as something that can only be asked.
pub struct ServerAdapter<'a, S: LanguageServer> {
    pub server: &'a S,
}

impl<S: LanguageServer> DiagnosticClient for ServerAdapter<'_, S> {
    fn supports_pull(&self) -> (r: bool)
        ensures
            r,
    {
        true
    }

    fn pull(&self, path: &RelPath) -> (r: Result<Vec<Diagnostic>, LspError>)
        ensures
            call_ensures(S::diagnostics, (self.server, path), r),
    {
        self.server.diagnostics(path)
    }

    fn did_open(&self, _path: &RelPath) -> (r: Result<(), LspError>)
        ensures
            r is Ok,
    {
        Ok(())
    }

    fn did_close(&self, _path: &RelPath) -> (r: Result<(), LspError>)
        ensures
            r is Ok,
    {
        Ok(())
    }

    fn wait_push(&self, _path: &RelPath, _timeout: u64) -> (r: Result<PushWait, LspError>)
        ensures
            r == Ok::<PushWait, LspError>(PushWait::NeverReceived),
    {
        Ok(PushWait::NeverReceived)
    }
}

// ----------------------------------------------------------------- answers

/// A code may stand before another: none before any, then by text.
pub open spec fn code_le(a: Option<String>, b: Option<String>) -> bool {
    match (a, b) {
        (None, _) => true,
        (Some(_), None) => false,
        (Some(x), Some(y)) => text::text_le(x@, y@),
    }
}

/// By path, then by range, by severity, by message and by code.
pub open spec fn diagnostic_le(a: Diagnostic, b: Diagnostic) -> bool {
    if a.path@ != b.path@ {
        text::text_le(a.path@, b.path@)
    } else if a.range != b.range {
        queries::range_le(a.range, b.range)
    } else if a.severity != b.severity {
        severity_level(a.severity) <= severity_level(b.severity)
    } else if a.message@ != b.message@ {
        text::text_le(a.message@, b.message@)
    } else {
        code_le(a.code, b.code)
    }
}

/// [`diagnostic_le`] as an order.
pub open spec fn diagnostic_order() -> spec_fn(Diagnostic, Diagnostic) -> bool {
    |a: Diagnostic, b: Diagnostic| diagnostic_le(a, b)
}

proof fn lemma_text_chain(a: Seq<char>, b: Seq<char>, c: Seq<char>)
    ensures
        text::text_le(a, b) || text::text_le(b, a),
        text::text_le(a, b) && text::text_le(b, a) ==> a == b,
        text::text_le(a, b) && text::text_le(b, c) ==> text::text_le(a, c),
        text::text_le(a, b) && text::text_le(b, c) && a == c ==> a == b,
{
    text::lemma_text_le_total(a, b);
    if text::text_le(a, b) && text::text_le(b, a) {
        text::lemma_text_le_antisymmetric(a, b);
    }
    if text::text_le(a, b) && text::text_le(b, c) {
        text::lemma_text_le_transitive(a, b, c);
    }
}

pub(crate) proof fn lemma_diagnostic_le(a: Diagnostic, b: Diagnostic, c: Diagnostic)
    ensures
        diagnostic_le(a, b) || diagnostic_le(b, a),
        diagnostic_le(a, b) && diagnostic_le(b, c) ==> diagnostic_le(a, c),
{
    lemma_text_chain(a.path@, b.path@, c.path@);
    lemma_text_chain(a.message@, b.message@, c.message@);
    if let (Some(x), Some(y)) = (a.code, b.code) {
        let z = match c.code {
            Some(z) => z@,
            None => Seq::empty(),
        };
        lemma_text_chain(x@, y@, z);
    }
}

/// The diagnostics that a filter keeps, in their order.
pub open spec fn kept(v: Seq<Diagnostic>, filter: SeverityFilter) -> Seq<Diagnostic>
    decreases v.len(),
{
    if v.len() == 0 {
        v
    } else if filter.keeps(v.last().severity) {
        kept(v.drop_last(), filter).push(v.last())
    } else {
        kept(v.drop_last(), filter)
    }
}

fn rank_code(a: &Option<String>, b: &Option<String>) -> (r: bool)
    ensures
        r == code_le(*a, *b),
{
    match (a, b) {
        (None, _) => true,
        (Some(_), None) => false,
        (Some(x), Some(y)) => text::at_most(x.as_str(), y.as_str()),
    }
}

/// Sorts diagnostics by path, then by range, by severity, by message and by code.
pub fn sort_diagnostics(v: Vec<Diagnostic>) -> (out: Vec<Diagnostic>)
    ensures
        out@ == order::arranged(v@, diagnostic_order()),
{
    let ghost le = diagnostic_order();
    proof {
        assert forall|a: Diagnostic, b: Diagnostic| #[trigger] le(a, b) || le(b, a) by {
            lemma_diagnostic_le(a, b, b);
        }
        assert forall|a: Diagnostic, b: Diagnostic, c: Diagnostic| #[trigger]
            le(a, b) && #[trigger] le(b, c) implies le(a, c) by {
            lemma_diagnostic_le(a, b, c);
        }
    }
    let f = |a: &Diagnostic, b: &Diagnostic| -> (r: bool)
        ensures
            r == diagnostic_order()(*a, *b),
        {
            match text::rank(a.path.as_str(), b.path.as_str()) {
                text::Rank::Before => {
                    return true;
                },
                text::Rank::After => {
                    return false;
                },
                text::Rank::Same => {},
            }
            if !queries::same_range(a.range, b.range) {
                return queries::range_at_most(a.range, b.range);
            }
            let x: u8 = level_of(a.severity);
            let y: u8 = level_of(b.severity);
            if x != y {
                return x <= y;
            }
            match text::rank(a.message.as_str(), b.message.as_str()) {
                text::Rank::Before => true,
                text::Rank::After => false,
                text::Rank::Same => rank_code(&a.code, &b.code),
            }
        };
    order::sort_by(v, &f, Ghost(le))
}

/// `r` is an answer that can be relied on: the kept diagnostics in order.
pub open spec fn is_exact_answer(
    r: Precise<Vec<Diagnostic>>,
    given: Seq<Diagnostic>,
    filter: SeverityFilter,
) -> bool {
    r.value@ == order::arranged(kept(given, filter), diagnostic_order()) && r.confidence
        == Confidence::Exact && r.note is None
}

/// `r` says nothing but why it could not be found out.
pub open spec fn is_unknown_answer(r: Precise<Vec<Diagnostic>>, note: Seq<char>) -> bool {
    r.value@.len() == 0 && r.confidence == Confidence::Unknown && (r.note matches Some(n) && n@
        == note)
}

/// The note of a fetch that failed.
pub open spec fn failed_note(err: LspError, path: Seq<char>) -> Seq<char> {
    "could not fetch diagnostics for "@ + path + ": "@ + super::error_text(err)
}

/// The note of a fetch that waited in vain.
pub open spec fn silent_note(path: Seq<char>, waited: Seq<char>) -> Seq<char> {
    "timed out after "@ + waited + " waiting for textDocument/publishDiagnostics on "@ + path
        + "; the server never published, so an empty list does not mean the file is clean"@
}

/// The note of a fetch without a server.
pub open spec fn no_server_text(path: Seq<char>) -> Seq<char> {
    match types::language_of_path(path) {
        Some(language) => "no language server available for "@ + super::language_title(language)
            + "; cannot check diagnostics for "@ + path,
        None => "no language server available; cannot check diagnostics for "@ + path,
    }
}

/// Filters and sorts what a server found.
pub fn finalize(diagnostics: &Vec<Diagnostic>, filter: SeverityFilter) -> (r: Precise<
    Vec<Diagnostic>,
>)
    ensures
        is_exact_answer(r, diagnostics@, filter),
{
    let mut left: Vec<Diagnostic> = Vec::new();
    let mut i: usize = 0;
    assert(diagnostics@.take(0) =~= Seq::<Diagnostic>::empty());
    while i < diagnostics.len()
        invariant
            i <= diagnostics@.len(),
            left@ == kept(diagnostics@.take(i as int), filter),
        decreases diagnostics.len() - i,
    {
        assert(diagnostics@.take(i as int + 1).drop_last() =~= diagnostics@.take(i as int));
        if filter.allows(diagnostics[i].severity) {
            left.push(diagnostics[i].clone());
        }
        i = i + 1;
    }
    assert(diagnostics@.take(diagnostics@.len() as int) =~= diagnostics@);
    Precise::exact(sort_diagnostics(left))
}

/// The answer to a fetch that failed.
pub fn unknown_from_err(err: &LspError, path: &RelPath) -> (r: Precise<Vec<Diagnostic>>)
    ensures
        is_unknown_answer(r, failed_note(*err, path@)),
{
    let why = err.message();
    Precise::unknown(
        Vec::new(),
        String::from_str("could not fetch diagnostics for ").concat(path.as_str()).concat(
            ": ",
        ).concat(why.as_str()),
    )
}

/// The note of a fetch that waited in vain, where `waited` writes for how long.
pub fn never_received_note(path: &RelPath, waited: &str) -> (r: String)
    ensures
        r@ == silent_note(path@, waited@),
{
    String::from_str("timed out after ").concat(waited).concat(
        " waiting for textDocument/publishDiagnostics on ",
    ).concat(path.as_str()).concat(
        "; the server never published, so an empty list does not mean the file is clean",
    )
}

/// The note of a fetch without a server.
pub fn no_server_note(path: &RelPath) -> (r: String)
    ensures
        r@ == no_server_text(path@),
{
    match Language::from_path(path) {
        Some(language) => String::from_str("no language server available for ").concat(
            super::title(language),
        ).concat("; cannot check diagnostics for ").concat(path.as_str()),
        None => String::from_str(
            "no language server available; cannot check diagnostics for ",
        ).concat(path.as_str()),
    }
}

/// A failed request after which diagnostics are waited for.
pub open spec fn falls_back(err: LspError) -> bool {
    err is Protocol || err is Timeout
}

/// Whether diagnostics are waited for after a request for them failed. Servers
/// that cannot be asked say so, or say nothing; where there is no server, there
/// is nothing to wait for.
pub fn pull_should_fall_back(err: &LspError) -> (r: bool)
    ensures
        r == falls_back(*err),
{
    match err {
        LspError::Protocol(_) => true,
        LspError::Timeout(_) => true,
        _ => false,
    }
}

/// What a request for diagnostics settles: an answer, or that they are to be
/// waited for.
pub fn after_pull(
    reply: &Result<Vec<Diagnostic>, LspError>,
    path: &RelPath,
    filter: SeverityFilter,
) -> (r: Option<Precise<Vec<Diagnostic>>>)
    ensures
        match reply {
            Ok(v) => r matches Some(a) && is_exact_answer(a, v@, filter),
            Err(err) => if falls_back(*err) {
                r is None
            } else {
                r matches Some(a) && is_unknown_answer(a, failed_note(*err, path@))
            },
        },
{
    match reply {
        Ok(v) => Some(finalize(v, filter)),
        Err(err) => {
            if pull_should_fall_back(err) {
                None
            } else {
                Some(unknown_from_err(err, path))
            }
        },
    }
}

/// `r` is the answer that a wait for diagnostics gives.
pub open spec fn is_push_answer(
    r: Precise<Vec<Diagnostic>>,
    waited: Result<PushWait, LspError>,
    path: Seq<char>,
    options: FetchOptions,
) -> bool {
    match waited {
        Ok(PushWait::Received(v)) => is_exact_answer(r, v@, options.filter),
        Ok(PushWait::NeverReceived) => is_unknown_answer(
            r,
            silent_note(path, super::duration_debug(options.push_timeout)),
        ),
        Err(err) => is_unknown_answer(r, failed_note(err, path)),
    }
}

/// The answer that a wait for diagnostics gives.
pub fn after_push(
    waited: &Result<PushWait, LspError>,
    path: &RelPath,
    options: FetchOptions,
) -> (r: Precise<Vec<Diagnostic>>)
    ensures
        is_push_answer(r, *waited, path@, options),
{
    match waited {
        Ok(PushWait::Received(v)) => finalize(v, options.filter),
        Ok(PushWait::NeverReceived) => {
            let time = super::duration_text(options.push_timeout);
            Precise::unknown(Vec::new(), never_received_note(path, time.as_str()))
        },
        Err(err) => unknown_from_err(err, path),
    }
}

/// `r` is the answer to a fetch in which opening the document came to `open`, a
/// request to `pull` and a wait to `push`.
pub open spec fn is_answer(
    r: Precise<Vec<Diagnostic>>,
    path: Seq<char>,
    options: FetchOptions,
    open: Result<(), LspError>,
    asks: bool,
    pull: Result<Vec<Diagnostic>, LspError>,
    push: Result<PushWait, LspError>,
) -> bool {
    match open {
        Err(err) => is_unknown_answer(r, failed_note(err, path)),
        Ok(_) => if asks {
            match pull {
                Ok(v) => is_exact_answer(r, v@, options.filter),
                Err(err) => if falls_back(err) {
                    is_push_answer(r, push, path, options)
                } else {
                    is_unknown_answer(r, failed_note(err, path))
                },
            }
        } else {
            is_push_answer(r, push, path, options)
        },
    }
}

// ----------------------------------------------------------------- fetches

/// How far a fetch has come: what is waited for.
#[derive(Clone, Copy, Debug, PartialEq, Eq, Structural)]
pub enum Stage {
    /// The document, to be opened.
    Opening,
    /// Whether the server can be asked.
    Choosing,
    /// The reply of the server.
    Pulling,
    /// What the server publishes.
    Waiting,
    /// The document, to be closed.
    Closing,
    /// Nothing.
    Over,
}

/// What came of an action.
#[derive(Debug)]
pub enum FetchEvent {
    Opened(Result<(), LspError>),
    CanPull(bool),
    Pulled(Result<Vec<Diagnostic>, LspError>),
    Waited(Result<PushWait, LspError>),
    Closed(Result<(), LspError>),
}

/// What is to be done next.
#[derive(Debug)]
pub enum FetchAction {
    Open,
    /// Find out whether the server can be asked.
    AskPull,
    Pull,
    /// Wait as many milliseconds.
    Wait(u64),
    Close,
    Done(Precise<Vec<Diagnostic>>),
}

/// A fetch of the diagnostics of one document.
#[derive(Debug)]
pub struct Fetch {
    pub options: FetchOptions,
    pub stage: Stage,
    /// The answer, while the document is closed.
    pub answer: Option<Precise<Vec<Diagnostic>>>,
}

/// What a fetch waits for after an event, if the event is one that it waited for.
pub open spec fn next_stage(stage: Stage, event: FetchEvent) -> Option<Stage> {
    match (stage, event) {
        (Stage::Opening, FetchEvent::Opened(open)) => Some(
            if open is Ok {
                Stage::Choosing
            } else {
                Stage::Over
            },
        ),
        (Stage::Choosing, FetchEvent::CanPull(asks)) => Some(
            if asks {
                Stage::Pulling
            } else {
                Stage::Waiting
            },
        ),
        (Stage::Pulling, FetchEvent::Pulled(pull)) => Some(
            if pull matches Err(err) && falls_back(err) {
                Stage::Waiting
            } else {
                Stage::Closing
            },
        ),
        (Stage::Waiting, FetchEvent::Waited(_)) => Some(Stage::Closing),
        (Stage::Closing, FetchEvent::Closed(_)) => Some(Stage::Over),
        _ => None,
    }
}

/// An event settles that `r` is the answer.
pub open spec fn settles(
    event: FetchEvent,
    path: Seq<char>,
    options: FetchOptions,
    r: Precise<Vec<Diagnostic>>,
) -> bool {
    match event {
        FetchEvent::Opened(Err(err)) => is_unknown_answer(r, failed_note(err, path)),
        FetchEvent::Pulled(Ok(v)) => is_exact_answer(r, v@, options.filter),
        FetchEvent::Pulled(Err(err)) => !falls_back(err) && is_unknown_answer(
            r,
            failed_note(err, path),
        ),
        FetchEvent::Waited(push) => is_push_answer(r, push, path, options),
        _ => false,
    }
}

impl Fetch {
    /// An answer is held exactly while the document is closed.
    pub open spec fn wf(self) -> bool {
        self.answer is Some <==> self.stage == Stage::Closing
    }

    /// Starts a fetch: the document is opened first.
    pub fn start(options: FetchOptions) -> (r: (Fetch, FetchAction))
        ensures
            r.0.wf(),
            r.0.options == options,
            r.0.stage == Stage::Opening,
            r.1 is Open,
    {
        (Fetch { options, stage: Stage::Opening, answer: None }, FetchAction::Open)
    }

    fn close(&mut self, answer: Precise<Vec<Diagnostic>>) -> (r: FetchAction)
        ensures
            r is Close,
            final(self).stage == Stage::Closing,
            final(self).answer == Some(answer),
            final(self).options == old(self).options,
    {
        self.stage = Stage::Closing;
        self.answer = Some(answer);
        FetchAction::Close
    }

    fn wait(&mut self) -> (r: FetchAction)
        ensures
            r == FetchAction::Wait(old(self).options.push_timeout),
            final(self).stage == Stage::Waiting,
            final(self).answer == old(self).answer,
            final(self).options == old(self).options,
    {
        self.stage = Stage::Waiting;
        FetchAction::Wait(self.options.push_timeout)
    }

    /// Goes on with a fetch, given what came of the last action. A document that
    /// was opened is closed before the answer is given, whatever it is.
    pub fn step(&mut self, path: &RelPath, event: FetchEvent) -> (action: FetchAction)
        requires
            old(self).wf(),
            next_stage(old(self).stage, event) is Some,
        ensures
            final(self).wf(),
            final(self).options == old(self).options,
            Some(final(self).stage) == next_stage(old(self).stage, event),
            match final(self).stage {
                Stage::Opening => false,
                Stage::Choosing => action is AskPull,
                Stage::Pulling => action is Pull,
                Stage::Waiting => action == FetchAction::Wait(old(self).options.push_timeout),
                Stage::Closing => action is Close && settles(
                    event,
                    path@,
                    old(self).options,
                    final(self).answer.unwrap(),
                ),
                Stage::Over => action matches FetchAction::Done(r) && (if old(self).stage
                    == Stage::Closing {
                    old(self).answer == Some(r)
                } else {
                    settles(event, path@, old(self).options, r)
                }),
            },
    {
        match event {
            FetchEvent::Opened(Ok(())) => {
                self.stage = Stage::Choosing;
                FetchAction::AskPull
            },
            FetchEvent::Opened(Err(err)) => {
                self.stage = Stage::Over;
                FetchAction::Done(unknown_from_err(&err, path))
            },
            FetchEvent::CanPull(true) => {
                self.stage = Stage::Pulling;
                FetchAction::Pull
            },
            FetchEvent::CanPull(false) => self.wait(),
            FetchEvent::Pulled(pull) => match after_pull(&pull, path, self.options.filter) {
                Some(answer) => self.close(answer),
                None => self.wait(),
            },
            FetchEvent::Waited(push) => {
                let answer = after_push(&push, path, self.options);
                self.close(answer)
            },
            FetchEvent::Closed(_) => {
                self.stage = Stage::Over;
                let mut answer: Option<Precise<Vec<Diagnostic>>> = None;
                std::mem::swap(&mut answer, &mut self.answer);
                match answer {
                    Some(r) => FetchAction::Done(r),
                    // Not reached: there is an answer while the document is closed.
                    None => FetchAction::Done(Precise::unknown(Vec::new(), String::new())),
                }
            },
        }
    }
}

/// A fetch from the client can come to these results: it opens the document, asks
/// or waits as it has to, and closes the document that was opened.
pub open spec fn is_course<C: DiagnosticClient>(
    client: C,
    path: RelPath,
    options: FetchOptions,
    open: Result<(), LspError>,
    asks: bool,
    pull: Result<Vec<Diagnostic>, LspError>,
    push: Result<PushWait, LspError>,
    close: Result<(), LspError>,
) -> bool {
    &&& call_ensures(C::did_open, (&client, &path), open)
    &&& open is Ok ==> {
        &&& is_asked(client, path, options, asks, pull, push)
        &&& call_ensures(C::did_close, (&client, &path), close)
    }
}

/// Asking the client and waiting for it, as far as it has to be done, can come to
/// these results.
pub open spec fn is_asked<C: DiagnosticClient>(
    client: C,
    path: RelPath,
    options: FetchOptions,
    asks: bool,
    pull: Result<Vec<Diagnostic>, LspError>,
    push: Result<PushWait, LspError>,
) -> bool {
    &&& call_ensures(C::supports_pull, (&client,), asks)
    &&& asks ==> call_ensures(C::pull, (&client, &path), pull)
    &&& waits(asks, pull) ==> call_ensures(
        C::wait_push,
        (&client, &path, options.push_timeout),
        push,
    )
}

/// What the server publishes is waited for: it cannot be asked, or it was asked in
/// vain.
pub open spec fn waits(asks: bool, pull: Result<Vec<Diagnostic>, LspError>) -> bool {
    !asks || (pull matches Err(err) && falls_back(err))
}

/// The events of a fetch that comes to these results, in their order.
pub open spec fn events_of(
    open: Result<(), LspError>,
    asks: bool,
    pull: Result<Vec<Diagnostic>, LspError>,
    push: Result<PushWait, LspError>,
    close: Result<(), LspError>,
) -> Seq<FetchEvent> {
    let start = seq![FetchEvent::Opened(open)];
    if open is Err {
        start
    } else {
        let chosen = start.push(FetchEvent::CanPull(asks));
        let asked = if asks {
            chosen.push(FetchEvent::Pulled(pull))
        } else {
            chosen
        };
        let waited = if waits(asks, pull) {
            asked.push(FetchEvent::Waited(push))
        } else {
            asked
        };
        waited.push(FetchEvent::Closed(close))
    }
}

/// `r` is the answer to a fetch from the client.
pub open spec fn is_fetched<C: DiagnosticClient>(
    r: Precise<Vec<Diagnostic>>,
    client: C,
    path: RelPath,
    options: FetchOptions,
) -> bool {
    exists|
        open: Result<(), LspError>,
        asks: bool,
        pull: Result<Vec<Diagnostic>, LspError>,
        push: Result<PushWait, LspError>,
        close: Result<(), LspError>,
    | #[trigger]
        is_course(client, path, options, open, asks, pull, push, close) && is_answer(
            r,
            path@,
            options,
            open,
            asks,
            pull,
            push,
        )
}

/// The results so far of a fetch that takes `action` next.
spec fn is_underway<C: DiagnosticClient>(
    client: C,
    path: RelPath,
    fetch: Fetch,
    action: FetchAction,
    open: Result<(), LspError>,
    asks: bool,
    pull: Result<Vec<Diagnostic>, LspError>,
    push: Result<PushWait, LspError>,
    close: Result<(), LspError>,
) -> bool {
    let options = fetch.options;
    &&& fetch.wf()
    &&& fetch.stage != Stage::Opening ==> call_ensures(C::did_open, (&client, &path), open)
    &&& match fetch.stage {
        Stage::Opening => action is Open,
        Stage::Choosing => action is AskPull && open is Ok,
        Stage::Pulling => action is Pull && open is Ok && asks && call_ensures(
            C::supports_pull,
            (&client,),
            asks,
        ),
        Stage::Waiting => action == FetchAction::Wait(options.push_timeout) && open is Ok && waits(
            asks,
            pull,
        ) && call_ensures(C::supports_pull, (&client,), asks) && (asks ==> call_ensures(
            C::pull,
            (&client, &path),
            pull,
        )),
        Stage::Closing => action is Close && open is Ok && is_asked(
            client,
            path,
            options,
            asks,
            pull,
            push,
        ) && is_answer(fetch.answer.unwrap(), path@, options, open, asks, pull, push),
        Stage::Over => (action matches FetchAction::Done(r) && is_answer(
            r,
            path@,
            options,
            open,
            asks,
            pull,
            push,
        )) && is_course(client, path, options, open, asks, pull, push, close),
    }
}

/// How far a fetch has come.
pub open spec fn stage_rank(stage: Stage) -> int {
    match stage {
        Stage::Opening => 0,
        Stage::Choosing => 1,
        Stage::Pulling => 2,
        Stage::Waiting => 3,
        Stage::Closing => 4,
        Stage::Over => 5,
    }
}

/// Fetches the diagnostics of a file, as [`Fetch`] says: opens it, asks for them
/// where the server can be asked, waits for them otherwise or where asking fails,
/// and closes the file again if it was opened. Which answer comes, the server
/// decides.
pub fn query<C: DiagnosticClient>(client: &C, path: &RelPath, options: FetchOptions) -> (r: Precise<
    Vec<Diagnostic>,
>)
    ensures
        is_fetched(r, *client, *path, options),
{
    let (mut fetch, mut action) = Fetch::start(options);
    let ghost mut open: Result<(), LspError> = Ok(());
    let ghost mut asks = false;
    let ghost mut pull: Result<Vec<Diagnostic>, LspError> = Err(LspError::Crashed);
    let ghost mut push: Result<PushWait, LspError> = Ok(PushWait::NeverReceived);
    let ghost mut close: Result<(), LspError> = Ok(());
    loop
        invariant
            fetch.options == options,
            is_underway(*client, *path, fetch, action, open, asks, pull, push, close),
        decreases 5 - stage_rank(fetch.stage),
    {
        let event = match action {
            FetchAction::Open => FetchEvent::Opened(client.did_open(path)),
            FetchAction::AskPull => FetchEvent::CanPull(client.supports_pull()),
            FetchAction::Pull => FetchEvent::Pulled(client.pull(path)),
            FetchAction::Wait(timeout) => FetchEvent::Waited(client.wait_push(path, timeout)),
            FetchAction::Close => FetchEvent::Closed(client.did_close(path)),
            FetchAction::Done(r) => {
                return r;
            },
        };
        proof {
            if event is Opened {
                open = event->Opened_0;
            } else if event is CanPull {
                asks = event->CanPull_0;
            } else if event is Pulled {
                pull = event->Pulled_0;
            } else if event is Waited {
                push = event->Waited_0;
            } else {
                close = event->Closed_0;
            }
        }
        action = fetch.step(path, event);
    }
}

/// Fetches the diagnostics of a file from a language server, if there is one.
/// Without one, nothing was found out.
pub fn query_server<S: LanguageServer>(
    server: Option<&S>,
    path: &RelPath,
    options: FetchOptions,
) -> (r: Precise<Vec<Diagnostic>>)
    ensures
        match server {
            Some(server) => exists|reply: Result<Vec<Diagnostic>, LspError>| #[trigger]
                call_ensures(S::diagnostics, (server, path), reply) && is_answer(
                    r,
                    path@,
                    options,
                    Ok(()),
                    true,
                    reply,
                    Ok(PushWait::NeverReceived),
                ),
            None => is_unknown_answer(r, no_server_text(path@)),
        },
{
    match server {
        Some(server) => query(&ServerAdapter { server }, path, options),
        None => Precise::unknown(Vec::new(), no_server_note(path)),
    }
}

// -------------------------------------------------------------- conversion

/// What a published diagnostic says of a file, where one without a severity
/// counts as an error.
pub open spec fn strict_finding(path: Seq<char>, d: Published) -> wire::Finding {
    wire::Finding {
        severity: match d.severity {
            Some(s) => s,
            None => Severity::Error,
        },
        ..wire::published_finding(path, wire::notice(d))
    }
}

/// A published diagnostic, as one of a file. One without a severity counts as an
/// error, so that no problem is missed.
pub fn from_lsp_diagnostic(path: &RelPath, diagnostic: &Published) -> (r: Diagnostic)
    ensures
        wire::finding(r) == strict_finding(path@, *diagnostic),
{
    let severity = match diagnostic.severity {
        Some(s) => s,
        None => Severity::Error,
    };
    Diagnostic { severity, ..wire::diagnostic_from_lsp(path, diagnostic) }
}

/// What a server reports of a document.
#[derive(Debug)]
pub enum Report {
    Full(Vec<Published>),
    /// Nothing has changed since the last report.
    Unchanged,
}

/// The diagnostics of a report; none at all where nothing has changed.
pub fn from_document_diagnostic_report(path: &RelPath, report: &Report) -> (r: Option<
    Vec<Diagnostic>,
>)
    ensures
        match report {
            Report::Full(items) => r matches Some(v) && wire::findings(v@) == items@.map_values(
                |d: Published| strict_finding(path@, d),
            ),
            Report::Unchanged => r is None,
        },
{
    match report {
        Report::Unchanged => None,
        Report::Full(items) => {
            let mut out: Vec<Diagnostic> = Vec::new();
            let mut i: usize = 0;
            while i < items.len()
                invariant
                    i <= items@.len(),
                    out@.len() == i,
                    forall|k: int|
                        0 <= k < i ==> wire::finding(#[trigger] out@[k]) == strict_finding(
                            path@,
                            items@[k],
                        ),
                decreases items.len() - i,
            {
                out.push(from_lsp_diagnostic(path, &items[i]));
                i = i + 1;
            }
            assert(wire::findings(out@) =~= items@.map_values(
                |d: Published| strict_finding(path@, d),
            ));
            Some(out)
        },
    }
}

// -------------------------------------------------------------------- laws

/// A file is reported clean only where the server said so: an answer that can be
/// relied on comes from a reply or from published diagnostics, never from
/// silence or from a failure, and any other answer says why.
pub proof fn law_silence_is_not_clean(
    r: Precise<Vec<Diagnostic>>,
    path: Seq<char>,
    options: FetchOptions,
    open: Result<(), LspError>,
    asks: bool,
    pull: Result<Vec<Diagnostic>, LspError>,
    push: Result<PushWait, LspError>,
)
    requires
        is_answer(r, path, options, open, asks, pull, push),
    ensures
        r.confidence == Confidence::Exact <==> open is Ok && ((asks && pull is Ok) || ((!asks || (
        pull matches Err(e) && falls_back(e))) && push matches Ok(PushWait::Received(_)))),
        r.confidence == Confidence::Unknown <==> r.note is Some,
        r.confidence == Confidence::Exact || r.confidence == Confidence::Unknown,
        r.confidence == Confidence::Unknown ==> r.value@.len() == 0,
{
}

/// What a fetch waits for after events, if each of them is one that it waited for.
pub open spec fn stage_after(events: Seq<FetchEvent>) -> Option<Stage>
    decreases events.len(),
{
    if events.len() == 0 {
        Some(Stage::Opening)
    } else {
        match stage_after(events.drop_last()) {
            Some(stage) => next_stage(stage, events.last()),
            None => None,
        }
    }
}

/// A fetch that is over has opened the document first and once. If that failed,
/// nothing else was done. Otherwise it asked exactly where the server can be
/// asked, waited exactly where it could not be or was asked in vain, and closed
/// the document last and once. Every such course can come about.
pub proof fn law_fetches_open_first_and_close_last(events: Seq<FetchEvent>)
    ensures
        stage_after(events) == Some(Stage::Over) <==> exists|
            open: Result<(), LspError>,
            asks: bool,
            pull: Result<Vec<Diagnostic>, LspError>,
            push: Result<PushWait, LspError>,
            close: Result<(), LspError>,
        |
            events == #[trigger] events_of(open, asks, pull, push, close),
{
    if stage_after(events) == Some(Stage::Over) {
        lemma_course(events);
    }
    assert forall|
        open: Result<(), LspError>,
        asks: bool,
        pull: Result<Vec<Diagnostic>, LspError>,
        push: Result<PushWait, LspError>,
        close: Result<(), LspError>,
    |
        events == #[trigger] events_of(open, asks, pull, push, close) implies stage_after(events)
        == Some(Stage::Over) by {
        let start = seq![FetchEvent::Opened(open)];
        let chosen = start.push(FetchEvent::CanPull(asks));
        let pulled = chosen.push(FetchEvent::Pulled(pull));
        assert(start.drop_last() =~= Seq::<FetchEvent>::empty());
        assert(stage_after(start.drop_last()) == Some(Stage::Opening));
        assert(chosen.drop_last() =~= start);
        assert(pulled.drop_last() =~= chosen);
        let asked = if asks {
            pulled
        } else {
            chosen
        };
        assert(asked.push(FetchEvent::Waited(push)).drop_last() =~= asked);
        if open is Ok {
            assert(stage_after(start) == Some(Stage::Choosing));
            assert(stage_after(chosen) == Some(
                if asks {
                    Stage::Pulling
                } else {
                    Stage::Waiting
                },
            ));
            assert(stage_after(asked) == Some(
                if waits(asks, pull) {
                    Stage::Waiting
                } else {
                    Stage::Closing
                },
            ));
            let waited = events.drop_last();
            assert(waited =~= if waits(asks, pull) {
                asked.push(FetchEvent::Waited(push))
            } else {
                asked
            });
            assert(stage_after(waited) == Some(Stage::Closing));
        }
    }
}

proof fn lemma_course(events: Seq<FetchEvent>)
    requires
        stage_after(events) == Some(Stage::Over),
    ensures
        exists|
            open: Result<(), LspError>,
            asks: bool,
            pull: Result<Vec<Diagnostic>, LspError>,
            push: Result<PushWait, LspError>,
            close: Result<(), LspError>,
        |
            events == #[trigger] events_of(open, asks, pull, push, close),
{
    let no_pull: Result<Vec<Diagnostic>, LspError> = Err(LspError::Crashed);
    let no_push: Result<PushWait, LspError> = Ok(PushWait::NeverReceived);
    let no_close: Result<(), LspError> = Ok(());
    match events.last() {
        FetchEvent::Opened(open) => {
            let e = events.drop_last();
            assert(stage_after(e) == Some(Stage::Opening));
            lemma_opening(e);
            assert(events =~= events_of(open, false, no_pull, no_push, no_close));
        },
        FetchEvent::Closed(close) => {
            let e = events.drop_last();
            assert(stage_after(e) == Some(Stage::Closing));
            let d = e.drop_last();
            let open = events[0]->Opened_0;
            match e.last() {
                FetchEvent::Pulled(pull) => {
                    lemma_pulling(d);
                    assert(events =~= events_of(open, true, pull, no_push, close));
                },
                FetchEvent::Waited(push) => {
                    assert(stage_after(d) == Some(Stage::Waiting));
                    let c = d.drop_last();
                    match d.last() {
                        FetchEvent::Pulled(pull) => {
                            lemma_pulling(c);
                            assert(events =~= events_of(open, true, pull, push, close));
                        },
                        _ => {
                            lemma_choosing(c);
                            assert(events =~= events_of(open, false, no_pull, push, close));
                        },
                    }
                },
                _ => {},
            }
        },
        _ => {},
    }
}

proof fn lemma_opening(events: Seq<FetchEvent>)
    requires
        stage_after(events) == Some(Stage::Opening),
    ensures
        events.len() == 0,
{
}

proof fn lemma_choosing(events: Seq<FetchEvent>)
    requires
        stage_after(events) == Some(Stage::Choosing),
    ensures
        events == seq![events[0]],
        events[0] matches FetchEvent::Opened(Ok(_)),
{
    lemma_opening(events.drop_last());
    assert(events =~= seq![events[0]]);
}

proof fn lemma_pulling(events: Seq<FetchEvent>)
    requires
        stage_after(events) == Some(Stage::Pulling),
    ensures
        events == seq![events[0]].push(FetchEvent::CanPull(true)),
        events[0] matches FetchEvent::Opened(Ok(_)),
{
    lemma_choosing(events.drop_last());
    assert(events.drop_last().len() == 1);
    assert(events.drop_last()[0] == events[0]);
    assert(events =~= seq![events[0]].push(FetchEvent::CanPull(true)));
}

/// A stricter filter keeps no diagnostic that a looser one drops.
pub proof fn law_filters_nest(severity: Severity)
    ensures
        SeverityFilter::Errors.keeps(severity) ==> SeverityFilter::ErrorsAndWarnings.keeps(
            severity,
        ),
        SeverityFilter::ErrorsAndWarnings.keeps(severity) ==> SeverityFilter::All.keeps(severity),
{
}

} // verus!
