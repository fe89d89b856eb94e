//! The life of language servers: started when they are first asked for, kept
//! while they are in use, and stopped when they have been idle for long or have
//! grown too large.
//!
//! One [`Slot`] keeps the server of one language. The caller holds a lock while
//! it calls a method of a slot, and none while it starts, asks or stops a server.
//! Times are in milliseconds.

use super::discovery;
use super::discovery::Discovery;
use super::{LanguageServer, LspError, ServerSpec};
use crate::types::Language;
use std::sync::Arc;
use vstd::prelude::*;
use vstd::string::*;

verus! {

/// How long a server may be idle.
pub const DEFAULT_IDLE_TTL: u64 = 300_000;

/// How much memory a server may use once it has built its index.
pub const DEFAULT_MEMORY_LIMIT_BYTES: u64 = 2_147_483_648;

/// How much memory a server may use at any time.
pub const DEFAULT_MEMORY_HARD_LIMIT_BYTES: u64 = 4_294_967_296;

/// How long a new server is waited for.
pub const DEFAULT_READY_TIMEOUT: u64 = 120_000;

/// How long a start is not tried again after it failed.
pub const DEFAULT_START_COOLDOWN: u64 = 60_000;

/// How often servers are looked at.
pub const DEFAULT_MONITOR_INTERVAL: u64 = 10_000;

// ------------------------------------------------------------------ starting

/// Finds out how the server of a language is started.
pub trait DiscoverServers: Send + Sync {
    fn discover(&self, language: Language) -> Result<ServerSpec, LspError>;
}

/// Starts servers for a workspace.
pub trait SpawnServer: Send + Sync {
    type Server: LanguageServer;

    fn spawn(&self, spec: &ServerSpec, root: &str) -> Result<Self::Server, LspError>;
}

/// Starts the server of a language.
pub trait ServerFactory: Send + Sync {
    type Server: LanguageServer;

    fn start(&self, language: Language) -> Result<Self::Server, LspError>;
}

impl DiscoverServers for Discovery {
    fn discover(&self, language: Language) -> (r: Result<ServerSpec, LspError>)
        ensures
            match r {
                Ok(s) => discovery::probe_of(*self, language).server == Some(discovery::server(s)),
                Err(LspError::Unavailable(l, hint)) => discovery::probe_of(
                    *self,
                    language,
                ).server is None && l == language && hint@ == discovery::probe_of(
                    *self,
                    language,
                ).hint,
                Err(_) => false,
            },
    {
        Discovery::discover(self, language)
    }
}

/// Finds out how a server is started, and starts it for a workspace.
pub struct CompositeFactory<D, T> {
    pub discovery: D,
    pub transport: T,
    /// The root of the workspace.
    pub root: String,
}

impl<D, T> CompositeFactory<D, T> {
    pub fn new(discovery: D, transport: T, root: String) -> (r: CompositeFactory<D, T>)
        ensures
            r.discovery == discovery,
            r.transport == transport,
            r.root == root,
    {
        CompositeFactory { discovery, transport, root }
    }
}

/// `r` is what finding a server and then starting it comes to.
pub open spec fn is_started<D: DiscoverServers, T: SpawnServer>(
    factory: CompositeFactory<D, T>,
    language: Language,
    r: Result<T::Server, LspError>,
) -> bool {
    exists|found: Result<ServerSpec, LspError>, root: &str| #[trigger]
        call_ensures(D::discover, (&factory.discovery, language), found) && #[trigger] root@
            == factory.root@ && match found {
            Ok(spec) => call_ensures(T::spawn, (&factory.transport, &spec, root), r),
            Err(err) => r == Err::<T::Server, LspError>(err),
        }
}

impl<D: DiscoverServers, T: SpawnServer> ServerFactory for CompositeFactory<D, T> {
    type Server = T::Server;

    /// Finds the server of a language and starts it for the root. Where none is
    /// found, nothing is started.
    fn start(&self, language: Language) -> (r: Result<T::Server, LspError>)
        ensures
            is_started(*self, language, r),
    {
        let found = self.discovery.discover(language);
        let root = self.root.as_str();
        assert(call_ensures(D::discover, (&self.discovery, language), found));
        assert(root@ == self.root@);
        match found {
            Ok(spec) => self.transport.spawn(&spec, root),
            Err(err) => Err(err),
        }
    }
}

// ------------------------------------------------------------------- limits

/// When servers are stopped and started. Zero switches a limit off.
#[derive(Clone, Copy, Debug, PartialEq, Eq, Structural)]
pub struct LspPoolConfig {
    pub idle_ttl: u64,
    pub ready_timeout: u64,
    /// How much memory a server may use once it has built its index.
    pub memory_limit_bytes: u64,
    /// How much memory a server may use at any time.
    pub memory_hard_limit_bytes: u64,
    pub start_cooldown: u64,
    pub monitor_interval: u64,
}

impl Default for LspPoolConfig {
    fn default() -> (r: LspPoolConfig)
        ensures
            r == (LspPoolConfig {
                idle_ttl: DEFAULT_IDLE_TTL,
                ready_timeout: DEFAULT_READY_TIMEOUT,
                memory_limit_bytes: DEFAULT_MEMORY_LIMIT_BYTES,
                memory_hard_limit_bytes: DEFAULT_MEMORY_HARD_LIMIT_BYTES,
                start_cooldown: DEFAULT_START_COOLDOWN,
                monitor_interval: DEFAULT_MONITOR_INTERVAL,
            }),
    {
        LspPoolConfig {
            idle_ttl: DEFAULT_IDLE_TTL,
            ready_timeout: DEFAULT_READY_TIMEOUT,
            memory_limit_bytes: DEFAULT_MEMORY_LIMIT_BYTES,
            memory_hard_limit_bytes: DEFAULT_MEMORY_HARD_LIMIT_BYTES,
            start_cooldown: DEFAULT_START_COOLDOWN,
            monitor_interval: DEFAULT_MONITOR_INTERVAL,
        }
    }
}

/// A limit is set, and a server uses as much memory or more.
pub open spec fn reaches_limit(bytes: u64, limit: u64) -> bool {
    limit > 0 && bytes >= limit
}

/// A server uses more memory than it may: more than it may at any time, or more
/// than it may once it has built its index.
pub open spec fn over_budget(config: LspPoolConfig, memory: Option<u64>, busy: bool) -> bool {
    memory matches Some(bytes) && (reaches_limit(bytes, config.memory_hard_limit_bytes) || (!busy
        && reaches_limit(bytes, config.memory_limit_bytes)))
}

/// A server has been idle for longer than it may.
pub open spec fn idle_too_long(config: LspPoolConfig, idle: u64) -> bool {
    config.idle_ttl > 0 && idle >= config.idle_ttl
}

/// A server is to be stopped.
pub open spec fn is_spent(
    config: LspPoolConfig,
    idle: u64,
    memory: Option<u64>,
    busy: bool,
) -> bool {
    idle_too_long(config, idle) || over_budget(config, memory, busy)
}

/// Whether a server uses more memory than it may.
pub fn memory_over_budget(config: &LspPoolConfig, memory: Option<u64>, busy: bool) -> (r: bool)
    ensures
        r == over_budget(*config, memory, busy),
{
    let hard: u64 = config.memory_hard_limit_bytes;
    let steady: u64 = config.memory_limit_bytes;
    match memory {
        Some(bytes) => (hard > 0 && bytes >= hard) || (!busy && steady > 0 && bytes >= steady),
        None => false,
    }
}

/// Whether a server is to be stopped.
pub fn should_reclaim(config: &LspPoolConfig, idle: u64, memory: Option<u64>, busy: bool) -> (r:
    bool)
    ensures
        r == is_spent(*config, idle, memory, busy),
{
    (config.idle_ttl > 0 && idle >= config.idle_ttl) || memory_over_budget(config, memory, busy)
}

/// Why a server is to be stopped.
pub fn reclaim_reason(
    config: &LspPoolConfig,
    idle: u64,
    memory: Option<u64>,
    busy: bool,
) -> (r: &'static str)
    ensures
        r@ == (match (over_budget(*config, memory, busy), idle_too_long(*config, idle)) {
            (true, true) => "idle+memory"@,
            (true, false) => "memory"@,
            (false, true) => "idle"@,
            (false, false) => "none"@,
        }),
{
    let large = memory_over_budget(config, memory, busy);
    let idle = config.idle_ttl > 0 && idle >= config.idle_ttl;
    if large && idle {
        "idle+memory"
    } else if large {
        "memory"
    } else if idle {
        "idle"
    } else {
        "none"
    }
}

// --------------------------------------------------------------------- slots

/// A start that failed.
#[derive(Debug)]
pub struct StartFailure {
    pub at: u64,
    pub error: LspError,
}

/// `r` is what is said of an earlier failure when the server of `language` is
/// asked for again.
pub open spec fn is_recalled(r: LspError, error: LspError, language: Language) -> bool {
    match error {
        LspError::Unavailable(_, why) => r matches LspError::Unavailable(l, w) && l == language
            && w@ == why@,
        LspError::Startup(_, why) => r matches LspError::Startup(l, w) && l == language && w@
            == why@,
        LspError::ContentModified => r matches LspError::Protocol(w) && w@ == super::error_text(
            error,
        ),
        _ => r == error,
    }
}

impl StartFailure {
    /// What is said of the failure when the server is asked for again.
    pub fn to_error(&self, language: Language) -> (r: LspError)
        ensures
            is_recalled(r, self.error, language),
    {
        match &self.error {
            LspError::Unavailable(_, why) => LspError::Unavailable(language, why.clone()),
            LspError::Startup(_, why) => LspError::Startup(language, why.clone()),
            LspError::ContentModified => LspError::Protocol(self.error.message()),
            other => other.clone(),
        }
    }
}

/// The server of one language.
#[derive(Debug)]
pub struct Slot<S> {
    pub server: Option<Arc<S>>,
    /// How many callers use the server.
    pub in_flight: usize,
    /// Which server this is: it grows with every start and every stop.
    pub generation: u64,
    pub last_used: u64,
    pub failure: Option<StartFailure>,
}

/// What comes of asking for a server.
pub enum Checkout<S> {
    /// The server, and which one it is.
    Held(Arc<S>, u64),
    /// Starting it failed a moment ago.
    Cooling(LspError),
    /// It has to be started.
    Start,
}

/// A server that is not in use.
pub struct Peeked<S> {
    pub server: Arc<S>,
    pub generation: u64,
    pub idle_for: u64,
}

/// How much time has passed.
pub open spec fn elapsed(since: u64, now: u64) -> u64 {
    if now >= since {
        (now - since) as u64
    } else {
        0
    }
}

fn time_since(since: u64, now: u64) -> (r: u64)
    ensures
        r == elapsed(since, now),
{
    if now >= since {
        now - since
    } else {
        0
    }
}

/// A start failed a moment ago.
pub open spec fn is_cooling<S>(s: Slot<S>, cooldown: u64, now: u64) -> bool {
    s.failure matches Some(f) && cooldown > 0 && elapsed(f.at, now) < cooldown
}

/// A caller that asks for the server now has to start it.
pub open spec fn wants_start<S>(s: Slot<S>, cooldown: u64, now: u64) -> bool {
    s.server is None && !is_cooling(s, cooldown, now)
}

/// The slot after its server was handed out.
pub open spec fn after_checkout<S>(s: Slot<S>, now: u64) -> Slot<S> {
    Slot { in_flight: (s.in_flight + 1) as usize, last_used: now, ..s }
}

/// The slot after its server was started and handed out.
pub open spec fn after_start<S>(s: Slot<S>, server: Arc<S>, now: u64) -> Slot<S> {
    Slot {
        server: Some(server),
        in_flight: 1,
        generation: (s.generation + 1) as u64,
        last_used: now,
        failure: None,
    }
}

/// The slot after its server could not be started.
pub open spec fn after_failure<S>(s: Slot<S>, error: LspError, now: u64) -> Slot<S> {
    Slot { server: None, failure: Some(StartFailure { at: now, error }), ..s }
}

/// The slot after a caller is done with the server of a generation.
pub open spec fn after_release<S>(s: Slot<S>, generation: u64, now: u64) -> Slot<S> {
    if s.generation != generation {
        s
    } else {
        Slot {
            in_flight: if s.in_flight == 0 {
                0
            } else {
                (s.in_flight - 1) as usize
            },
            last_used: now,
            ..s
        }
    }
}

/// The slot after its server was taken out.
pub open spec fn after_take<S>(s: Slot<S>) -> Slot<S> {
    Slot { server: None, in_flight: 0, generation: (s.generation + 1) as u64, ..s }
}

/// The server may be taken out to be stopped: it is still the one that was
/// looked at, nobody uses it, and it is still to be stopped.
pub open spec fn may_take<S>(
    s: Slot<S>,
    generation: u64,
    config: LspPoolConfig,
    memory: Option<u64>,
    busy: bool,
    now: u64,
) -> bool {
    s.server is Some && s.generation == generation && s.in_flight == 0 && is_spent(
        config,
        elapsed(s.last_used, now),
        memory,
        busy,
    )
}

impl<S> Slot<S> {
    /// A slot without a server.
    pub fn new(now: u64) -> (r: Slot<S>)
        ensures
            r.server is None,
            r.in_flight == 0,
            r.generation == 0,
            r.last_used == now,
            r.failure is None,
    {
        Slot { server: None, in_flight: 0, generation: 0, last_used: now, failure: None }
    }

    /// Whether there is a server.
    pub fn is_resident(&self) -> (r: bool)
        ensures
            r == (self.server is Some),
    {
        self.server.is_some()
    }

    /// Asks for the server. One that is there is handed out; one that failed to
    /// start a moment ago is not started again.
    pub fn acquire(&mut self, language: Language, cooldown: u64, now: u64) -> (r: Checkout<S>)
        requires
            old(self).in_flight < usize::MAX,
        ensures
            match old(self).server {
                Some(server) => *final(self) == after_checkout(*old(self), now) && r
                    == Checkout::Held(server, old(self).generation),
                None => *final(self) == *old(self) && if wants_start(*old(self), cooldown, now) {
                    r is Start
                } else {
                    r matches Checkout::Cooling(err) && is_recalled(
                        err,
                        old(self).failure.unwrap().error,
                        language,
                    )
                },
            },
    {
        if let Some(server) = &self.server {
            let handle = server.clone();
            self.in_flight = self.in_flight + 1;
            self.last_used = now;
            return Checkout::Held(handle, self.generation);
        }
        if let Some(failure) = &self.failure {
            if cooldown > 0 && time_since(failure.at, now) < cooldown {
                return Checkout::Cooling(failure.to_error(language));
            }
        }
        Checkout::Start
    }

    /// Notes that the server was started, and hands it out: which one it is.
    pub fn note_started(&mut self, server: Arc<S>, now: u64) -> (generation: u64)
        requires
            old(self).generation < u64::MAX,
        ensures
            *final(self) == after_start(*old(self), server, now),
            generation == old(self).generation + 1,
    {
        self.generation = self.generation + 1;
        self.in_flight = 1;
        self.last_used = now;
        self.failure = None;
        self.server = Some(server);
        self.generation
    }

    /// Notes that the server could not be started.
    pub fn note_failed(&mut self, err: &LspError, now: u64)
        ensures
            *final(self) == after_failure(*old(self), *err, now),
    {
        self.failure = Some(StartFailure { at: now, error: err.clone() });
        self.server = None;
    }

    /// Notes what came of starting the server: one that was started is handed out,
    /// and why it could not be started is said.
    pub fn settle_start(&mut self, start: Result<Arc<S>, LspError>, now: u64) -> (r: Result<
        (Arc<S>, u64),
        LspError,
    >)
        requires
            old(self).generation < u64::MAX,
        ensures
            match start {
                Ok(server) => *final(self) == after_start(*old(self), server, now) && r == Ok::<
                    (Arc<S>, u64),
                    LspError,
                >((server, (old(self).generation + 1) as u64)),
                Err(err) => *final(self) == after_failure(*old(self), err, now) && r == Err::<
                    (Arc<S>, u64),
                    LspError,
                >(err),
            },
    {
        match start {
            Ok(server) => {
                let generation = self.note_started(server.clone(), now);
                Ok((server, generation))
            },
            Err(err) => {
                self.note_failed(&err, now);
                Err(err)
            },
        }
    }

    /// Notes that a caller is done with the server of a generation. Says whether
    /// nobody uses it any more.
    pub fn release(&mut self, generation: u64, now: u64) -> (last: bool)
        ensures
            *final(self) == after_release(*old(self), generation, now),
            last == (old(self).generation == generation && final(self).in_flight == 0
                && old(self).server is Some),
    {
        if self.generation != generation {
            return false;
        }
        if self.in_flight > 0 {
            self.in_flight = self.in_flight - 1;
        }
        self.last_used = now;
        self.in_flight == 0 && self.server.is_some()
    }

    /// Looks at the server, if there is one and nobody uses it.
    pub fn peek(&self, now: u64) -> (r: Option<Peeked<S>>)
        ensures
            match self.server {
                Some(server) if self.in_flight == 0 => r == Some(
                    Peeked {
                        server,
                        generation: self.generation,
                        idle_for: elapsed(self.last_used, now),
                    },
                ),
                _ => r is None,
            },
    {
        match &self.server {
            Some(server) => {
                if self.in_flight > 0 {
                    return None;
                }
                Some(
                    Peeked {
                        server: server.clone(),
                        generation: self.generation,
                        idle_for: time_since(self.last_used, now),
                    },
                )
            },
            None => None,
        }
    }

    /// Takes the server that was looked at out of the slot, to be stopped, unless
    /// something has changed since: someone uses it or has used it, or it is
    /// another one. Says how long it was idle.
    pub fn take_spent(
        &mut self,
        generation: u64,
        config: &LspPoolConfig,
        memory: Option<u64>,
        busy: bool,
        now: u64,
    ) -> (r: Option<(Arc<S>, u64)>)
        requires
            old(self).generation < u64::MAX,
        ensures
            if may_take(*old(self), generation, *config, memory, busy, now) {
                *final(self) == after_take(*old(self)) && r == Some(
                    (old(self).server.unwrap(), elapsed(old(self).last_used, now)),
                )
            } else {
                *final(self) == *old(self) && r is None
            },
    {
        if self.generation != generation || self.in_flight > 0 {
            return None;
        }
        let idle: u64 = time_since(self.last_used, now);
        if !should_reclaim(config, idle, memory, busy) {
            return None;
        }
        let mut taken: Option<Arc<S>> = None;
        std::mem::swap(&mut taken, &mut self.server);
        match taken {
            Some(server) => {
                self.generation = self.generation + 1;
                self.in_flight = 0;
                Some((server, idle))
            },
            None => None,
        }
    }

    /// Takes a server that has crashed out of the slot, unless it is gone already.
    pub fn retire(&mut self, generation: u64) -> (r: Option<Arc<S>>)
        requires
            old(self).generation < u64::MAX,
        ensures
            r == (if old(self).generation == generation {
                old(self).server
            } else {
                None
            }),
            *final(self) == (if r is Some {
                after_take(*old(self))
            } else {
                *old(self)
            }),
    {
        if self.generation != generation {
            return None;
        }
        self.take_any()
    }

    fn take_any(&mut self) -> (r: Option<Arc<S>>)
        requires
            old(self).generation < u64::MAX,
        ensures
            r == old(self).server,
            *final(self) == (if r is Some {
                after_take(*old(self))
            } else {
                *old(self)
            }),
    {
        let mut taken: Option<Arc<S>> = None;
        std::mem::swap(&mut taken, &mut self.server);
        if taken.is_some() {
            self.generation = self.generation + 1;
            self.in_flight = 0;
        }
        taken
    }

    /// Takes the server out of the slot at the end. One that is in use stays,
    /// unless it is forced out.
    pub fn tear_down(&mut self, force: bool) -> (r: Option<Arc<S>>)
        requires
            old(self).generation < u64::MAX,
        ensures
            r == (if force || old(self).in_flight == 0 {
                old(self).server
            } else {
                None
            }),
            *final(self) == (if r is Some {
                after_take(*old(self))
            } else {
                *old(self)
            }),
    {
        if !force && self.in_flight > 0 {
            return None;
        }
        self.take_any()
    }
}

/// Whether a new server is waited for.
pub fn waits_for_ready(config: &LspPoolConfig) -> (r: bool)
    ensures
        r == (config.ready_timeout > 0),
{
    config.ready_timeout > 0
}

/// Whether a reply means that the server is gone for good.
pub fn means_crash<T>(reply: &Result<T, LspError>) -> (r: bool)
    ensures
        r == (reply == Err::<T, LspError>(LspError::Crashed)),
{
    match reply {
        Err(LspError::Crashed) => true,
        _ => false,
    }
}

// --------------------------------------------------------------------- laws

/// How many of the callers hold a server of this generation.
pub open spec fn holders(guards: Seq<u64>, generation: u64) -> nat
    decreases guards.len(),
{
    if guards.len() == 0 {
        0
    } else {
        holders(guards.drop_last(), generation) + (if guards.last() == generation {
            1nat
        } else {
            0nat
        })
    }
}

/// The slot counts its callers: `guards` are the generations of the servers that
/// callers hold.
pub open spec fn counts<S>(s: Slot<S>, guards: Seq<u64>) -> bool {
    &&& s.in_flight == holders(guards, s.generation)
    &&& forall|k: int| 0 <= k < guards.len() ==> #[trigger] guards[k] <= s.generation
    &&& s.server is None ==> s.in_flight == 0
}

proof fn lemma_holders_push(guards: Seq<u64>, generation: u64, added: u64)
    ensures
        holders(guards.push(added), generation) == holders(guards, generation) + (if added
            == generation {
            1nat
        } else {
            0nat
        }),
{
    assert(guards.push(added).drop_last() =~= guards);
}

proof fn lemma_no_holders(guards: Seq<u64>, generation: u64)
    requires
        forall|k: int| 0 <= k < guards.len() ==> #[trigger] guards[k] < generation,
    ensures
        holders(guards, generation) == 0,
    decreases guards.len(),
{
    if guards.len() > 0 {
        assert(guards[guards.len() - 1] < generation);
        assert forall|k: int| 0 <= k < guards.drop_last().len() implies
            #[trigger] guards.drop_last()[k] < generation by {
            assert(guards.drop_last()[k] == guards[k]);
        }
        lemma_no_holders(guards.drop_last(), generation);
    }
}

proof fn lemma_holders_remove(guards: Seq<u64>, generation: u64, at: int)
    requires
        0 <= at < guards.len(),
    ensures
        holders(guards, generation) == holders(guards.remove(at), generation) + (if guards[at]
            == generation {
            1nat
        } else {
            0nat
        }),
    decreases guards.len(),
{
    if at == guards.len() - 1 {
        assert(guards.remove(at) =~= guards.drop_last());
    } else {
        lemma_holders_remove(guards.drop_last(), generation, at);
        assert(guards.remove(at).drop_last() =~= guards.drop_last().remove(at));
        assert(guards.remove(at).last() == guards.last());
    }
}

/// A slot counts its callers: handing out, starting and taking out a server keep
/// the count right.
pub proof fn law_callers_are_counted<S>(s: Slot<S>, guards: Seq<u64>, server: Arc<S>, now: u64)
    requires
        counts(s, guards),
        s.in_flight < usize::MAX,
        s.generation < u64::MAX,
    ensures
        s.server is Some ==> counts(after_checkout(s, now), guards.push(s.generation)),
        s.server is None ==> counts(
            after_start(s, server, now),
            guards.push((s.generation + 1) as u64),
        ),
        counts(after_take(s), guards),
{
    let next = (s.generation + 1) as u64;
    lemma_holders_push(guards, s.generation, s.generation);
    lemma_holders_push(guards, next, next);
    lemma_no_holders(guards, next);
    let pushed = guards.push(s.generation);
    assert forall|k: int| 0 <= k < pushed.len() implies #[trigger] pushed[k] <= s.generation by {
        if k < guards.len() {
            assert(pushed[k] == guards[k]);
        }
    }
    let started = guards.push(next);
    assert forall|k: int| 0 <= k < started.len() implies #[trigger] started[k] <= next by {
        if k < guards.len() {
            assert(started[k] == guards[k]);
        }
    }
}

/// A slot that nobody has used counts no callers.
pub proof fn law_new_slots_are_unused<S>(s: Slot<S>)
    requires
        s.server is None,
        s.in_flight == 0,
    ensures
        counts(s, Seq::empty()),
{
}

/// Giving a server back keeps the count right, whether it is still the one in the
/// slot or not.
pub proof fn law_giving_back_is_counted<S>(s: Slot<S>, guards: Seq<u64>, at: int, now: u64)
    requires
        counts(s, guards),
        0 <= at < guards.len(),
    ensures
        counts(after_release(s, guards[at], now), guards.remove(at)),
{
    lemma_holders_remove(guards, s.generation, at);
    let rest = guards.remove(at);
    assert forall|k: int| 0 <= k < rest.len() implies #[trigger] rest[k] <= s.generation by {
        if k < at {
            assert(rest[k] == guards[k]);
        } else {
            assert(rest[k] == guards[k + 1]);
        }
    }
}

/// A server that a caller holds is never taken out to be stopped for being idle
/// or too large, whatever its size and however long ago it was used.
pub proof fn law_servers_in_use_are_not_reclaimed<S>(
    s: Slot<S>,
    guards: Seq<u64>,
    at: int,
    generation: u64,
    config: LspPoolConfig,
    memory: Option<u64>,
    busy: bool,
    now: u64,
)
    requires
        counts(s, guards),
        0 <= at < guards.len(),
        guards[at] == s.generation,
    ensures
        !may_take(s, generation, config, memory, busy, now),
{
    lemma_holders_remove(guards, s.generation, at);
}

/// A server is started exactly where there is none and no start has failed within
/// the time to cool down. Once it was started it is the one that is handed out, to
/// every caller. Once it could not be started there is none; what went wrong is
/// said until the time to cool down has passed, and then it is started again.
pub proof fn law_servers_are_started_once<S>(
    s: Slot<S>,
    server: Arc<S>,
    error: LspError,
    cooldown: u64,
    at: u64,
    now: u64,
)
    ensures
        wants_start(s, cooldown, now) <==> s.server is None && (s.failure matches Some(f)
            ==> cooldown == 0 || elapsed(f.at, now) >= cooldown),
        after_start(s, server, at).server == Some(server),
        !wants_start(after_start(s, server, at), cooldown, now),
        after_checkout(s, now).server == s.server,
        after_checkout(s, now).generation == s.generation,
        after_failure(s, error, at).server is None,
        wants_start(after_failure(s, error, at), cooldown, now) <==> cooldown == 0 || elapsed(
            at,
            now,
        ) >= cooldown,
        after_failure(s, error, at).failure.unwrap().error == error,
{
}

/// Someone asks for the server.
pub ghost struct Ask<S> {
    pub now: u64,
    /// What comes of starting it, if it has to be started.
    pub start: Result<Arc<S>, LspError>,
}

/// The slot after someone has asked for its server.
pub open spec fn after_ask<S>(s: Slot<S>, ask: Ask<S>, cooldown: u64) -> Slot<S> {
    if s.server is Some {
        after_checkout(s, ask.now)
    } else if wants_start(s, cooldown, ask.now) {
        match ask.start {
            Ok(server) => after_start(s, server, ask.now),
            Err(error) => after_failure(s, error, ask.now),
        }
    } else {
        s
    }
}

/// Someone who asks for a server gets the one that is there, or starts it, or is
/// told that it failed a moment ago. What was started is there for the next one;
/// what could not be started is not, and is remembered; and nothing else changes.
pub proof fn law_asks_change_what_they_start<S>(s: Slot<S>, ask: Ask<S>, cooldown: u64)
    ensures
        s.server is Some ==> after_ask(s, ask, cooldown).server == s.server && after_ask(
            s,
            ask,
            cooldown,
        ).generation == s.generation,
        wants_start(s, cooldown, ask.now) ==> match ask.start {
            Ok(server) => after_ask(s, ask, cooldown) == after_start(s, server, ask.now)
                && after_ask(s, ask, cooldown).server == Some(server),
            Err(error) => after_ask(s, ask, cooldown) == after_failure(s, error, ask.now)
                && after_ask(s, ask, cooldown).server is None,
        },
        s.server is None && is_cooling(s, cooldown, ask.now) ==> after_ask(s, ask, cooldown) == s,
{
}

/// The slot after all of them have asked, one behind the other.
pub open spec fn after_asks<S>(s: Slot<S>, asks: Seq<Ask<S>>, cooldown: u64) -> Slot<S>
    decreases asks.len(),
{
    if asks.len() == 0 {
        s
    } else {
        after_ask(after_asks(s, asks.drop_last(), cooldown), asks.last(), cooldown)
    }
}

/// The `k`th of them has to start the server.
pub open spec fn starts<S>(s: Slot<S>, asks: Seq<Ask<S>>, cooldown: u64, k: int) -> bool {
    wants_start(after_asks(s, asks.take(k), cooldown), cooldown, asks[k].now)
}

/// What the slot remembers of the start that the `i`th of them made.
proof fn lemma_start_is_remembered<S>(
    s: Slot<S>,
    asks: Seq<Ask<S>>,
    cooldown: u64,
    i: int,
    k: int,
)
    requires
        0 <= i < k <= asks.len(),
        forall|a: int, b: int| 0 <= a <= b < asks.len() ==> asks[a].now <= asks[b].now,
        starts(s, asks, cooldown, i),
    ensures
        ({
            let now = after_asks(s, asks.take(k), cooldown);
            now.server is Some || (asks[i].start is Err && (now.failure matches Some(f) && f.at
                >= asks[i].now))
        }),
    decreases k,
{
    assert(asks.take(k).drop_last() =~= asks.take(k - 1));
    assert(asks.take(k).last() == asks[k - 1]);
    if i < k - 1 {
        lemma_start_is_remembered(s, asks, cooldown, i, k - 1);
        assert(asks[i].now <= asks[k - 1].now);
    }
}

/// However many callers ask for a server, as long as it is not taken out: where it
/// is started a second time the first start has failed, and the time to cool down
/// has passed since.
pub proof fn law_failed_starts_are_not_repeated_at_once<S>(
    s: Slot<S>,
    asks: Seq<Ask<S>>,
    cooldown: u64,
    i: int,
    j: int,
)
    requires
        0 <= i < j < asks.len(),
        forall|a: int, b: int| 0 <= a <= b < asks.len() ==> asks[a].now <= asks[b].now,
        starts(s, asks, cooldown, i),
        starts(s, asks, cooldown, j),
    ensures
        asks[i].start is Err,
        asks[j].now - asks[i].now >= cooldown,
{
    lemma_start_is_remembered(s, asks, cooldown, i, j);
    assert(asks[i].now <= asks[j].now);
}

/// Limits of zero never stop a server.
pub proof fn law_zero_limits_stop_nothing(
    config: LspPoolConfig,
    idle: u64,
    memory: Option<u64>,
    busy: bool,
)
    requires
        config.idle_ttl == 0,
        config.memory_limit_bytes == 0,
        config.memory_hard_limit_bytes == 0,
    ensures
        !is_spent(config, idle, memory, busy),
{
}

} // verus!
