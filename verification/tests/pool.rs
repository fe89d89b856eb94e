use astrolabe_core::lsp::json::Json;
use astrolabe_core::lsp::pool::{
    means_crash, memory_over_budget, reclaim_reason, should_reclaim, waits_for_ready, Checkout,
    CompositeFactory, DiscoverServers, LspPoolConfig, ServerFactory, Slot, SpawnServer,
    DEFAULT_IDLE_TTL, DEFAULT_MEMORY_HARD_LIMIT_BYTES, DEFAULT_MEMORY_LIMIT_BYTES,
    DEFAULT_READY_TIMEOUT, DEFAULT_START_COOLDOWN,
};
use astrolabe_core::lsp::{
    Diagnostic, LanguageServer, Location, LspError, Position, ServerSpec, WorkspaceEdit,
};
use astrolabe_core::types::{Language, RelPath};
use std::cell::{Cell, RefCell};
use std::sync::atomic::{AtomicBool, AtomicU64, AtomicUsize, Ordering};
use std::sync::{Arc, Mutex};

fn assert_send_sync<T: Send + Sync>() {}

#[derive(Clone)]
struct FakeFactory {
    starts: Arc<AtomicUsize>,
    shutdowns: Arc<AtomicUsize>,
    memory: Arc<AtomicU64>,
    fail_starts: Arc<AtomicBool>,
    crash_on_use: Arc<AtomicBool>,
}

struct FakeServer {
    language: Language,
    memory: Arc<AtomicU64>,
    shutdowns: Arc<AtomicUsize>,
    crash_on_use: bool,
}

impl FakeFactory {
    fn new() -> Self {
        FakeFactory {
            starts: Arc::new(AtomicUsize::new(0)),
            shutdowns: Arc::new(AtomicUsize::new(0)),
            memory: Arc::new(AtomicU64::new(1_048_576)),
            fail_starts: Arc::new(AtomicBool::new(false)),
            crash_on_use: Arc::new(AtomicBool::new(false)),
        }
    }

    fn starts(&self) -> usize {
        self.starts.load(Ordering::SeqCst)
    }

    fn shutdowns(&self) -> usize {
        self.shutdowns.load(Ordering::SeqCst)
    }
}

impl ServerFactory for FakeFactory {
    type Server = FakeServer;

    fn start(&self, language: Language) -> Result<FakeServer, LspError> {
        self.starts.fetch_add(1, Ordering::SeqCst);
        if self.fail_starts.load(Ordering::SeqCst) {
            return Err(LspError::Unavailable(
                language,
                "rust-analyzer is not installed; try rustup component add rust-analyzer".into(),
            ));
        }
        Ok(FakeServer {
            language,
            memory: Arc::clone(&self.memory),
            shutdowns: Arc::clone(&self.shutdowns),
            crash_on_use: self.crash_on_use.load(Ordering::SeqCst),
        })
    }
}

impl FakeServer {
    fn fail_if_crashed(&self) -> Result<(), LspError> {
        if self.crash_on_use {
            Err(LspError::Crashed)
        } else {
            Ok(())
        }
    }
}

impl LanguageServer for FakeServer {
    fn language(&self) -> Language {
        self.language
    }

    fn references(&self, _path: &RelPath, _at: Position) -> Result<Vec<Location>, LspError> {
        self.fail_if_crashed()?;
        Ok(Vec::new())
    }

    fn definition(&self, _path: &RelPath, _at: Position) -> Result<Vec<Location>, LspError> {
        self.fail_if_crashed()?;
        Ok(Vec::new())
    }

    fn hover(&self, _path: &RelPath, _at: Position) -> Result<Json, LspError> {
        self.fail_if_crashed()?;
        Ok(Json::Null)
    }

    fn diagnostics(&self, _path: &RelPath) -> Result<Vec<Diagnostic>, LspError> {
        self.fail_if_crashed()?;
        Ok(Vec::new())
    }

    fn prepare_rename(
        &self,
        _path: &RelPath,
        _at: Position,
        _new_name: &str,
    ) -> Result<WorkspaceEdit, LspError> {
        self.fail_if_crashed()?;
        Ok(WorkspaceEdit::default())
    }

    fn memory_bytes(&self) -> Option<u64> {
        Some(self.memory.load(Ordering::SeqCst))
    }

    fn shutdown(&self) -> Result<(), LspError> {
        self.shutdowns.fetch_add(1, Ordering::SeqCst);
        Ok(())
    }
}

/// A slot for one language, with a clock that the test moves.
struct Pool<F: ServerFactory> {
    factory: F,
    config: LspPoolConfig,
    slot: RefCell<Slot<F::Server>>,
    now: Cell<u64>,
}

struct Guard<'a, F: ServerFactory> {
    pool: &'a Pool<F>,
    server: Arc<F::Server>,
    generation: u64,
}

impl<F: ServerFactory> Drop for Guard<'_, F> {
    fn drop(&mut self) {
        let now = self.pool.now.get();
        self.pool.slot.borrow_mut().release(self.generation, now);
    }
}

impl<F: ServerFactory> Pool<F> {
    fn new(factory: F, config: LspPoolConfig) -> Self {
        Pool {
            factory,
            config,
            slot: RefCell::new(Slot::new(0)),
            now: Cell::new(0),
        }
    }

    fn is_resident(&self) -> bool {
        self.slot.borrow().is_resident()
    }

    fn acquire(&self, language: Language) -> Result<Guard<'_, F>, LspError> {
        let now = self.now.get();
        let mut slot = self.slot.borrow_mut();
        let (server, generation) =
            match slot.acquire(language, self.config.start_cooldown, now) {
                Checkout::Held(server, generation) => (server, generation),
                Checkout::Cooling(err) => return Err(err),
                Checkout::Start => {
                    slot.settle_start(self.factory.start(language).map(Arc::new), now)?
                }
            };
        Ok(Guard {
            pool: self,
            server,
            generation,
        })
    }

    fn with_server<T>(
        &self,
        language: Language,
        ask: impl FnOnce(&F::Server) -> Result<T, LspError>,
    ) -> Result<T, LspError> {
        let guard = self.acquire(language)?;
        let reply = ask(&guard.server);
        if means_crash(&reply) {
            self.slot.borrow_mut().retire(guard.generation);
        }
        reply
    }

    fn reclaim(&self) {
        let now = self.now.get();
        let peeked = self.slot.borrow().peek(now);
        if let Some(peeked) = peeked {
            let memory = peeked.server.memory_bytes();
            let busy = peeked.server.is_busy();
            let taken = self.slot.borrow_mut().take_spent(
                peeked.generation,
                &self.config,
                memory,
                busy,
                now,
            );
            if let Some((server, _)) = taken {
                let _ = server.shutdown();
            }
        }
    }

    fn pass(&self, ms: u64) {
        self.now.set(self.now.get() + ms);
    }
}

fn quiet_config() -> LspPoolConfig {
    LspPoolConfig {
        idle_ttl: 0,
        ready_timeout: 0,
        memory_limit_bytes: 0,
        memory_hard_limit_bytes: 0,
        start_cooldown: 60_000,
        monitor_interval: 0,
    }
}

fn dummy_pos() -> Position {
    Position {
        line: 0,
        character: 0,
    }
}

fn dummy_path() -> RelPath {
    RelPath::new("src/lib.rs")
}

#[test]
fn pool_and_guard_are_send_sync() {
    assert_send_sync::<Slot<FakeServer>>();
    assert_send_sync::<Checkout<FakeServer>>();
}

#[test]
fn starts_on_first_request_only() {
    let factory = FakeFactory::new();
    let pool = Pool::new(factory.clone(), quiet_config());

    assert_eq!(factory.starts(), 0);
    assert!(!pool.is_resident());

    let first = pool.acquire(Language::Python).expect("start");
    assert_eq!(factory.starts(), 1);
    assert!(pool.is_resident());

    let second = pool.acquire(Language::Python).expect("reuse");
    assert_eq!(factory.starts(), 1);
    assert_eq!(pool.slot.borrow().in_flight, 2);

    drop(first);
    drop(second);
    assert_eq!(pool.slot.borrow().in_flight, 0);
    assert_eq!(factory.starts(), 1);
}

#[test]
fn idle_timeout_reclaims_unused_server() {
    let factory = FakeFactory::new();
    let mut config = quiet_config();
    config.idle_ttl = 40;
    let pool = Pool::new(factory.clone(), config);

    drop(pool.acquire(Language::Go).expect("start"));
    assert_eq!(factory.shutdowns(), 0);
    assert!(pool.is_resident());

    pool.pass(80);
    pool.reclaim();

    assert_eq!(factory.shutdowns(), 1);
    assert!(!pool.is_resident());
}

#[test]
fn memory_over_budget_reclaims_unused_server() {
    let factory = FakeFactory::new();
    let mut config = quiet_config();
    config.memory_limit_bytes = 8 * 1024 * 1024;
    let pool = Pool::new(factory.clone(), config);

    drop(pool.acquire(Language::Rust).expect("start"));
    assert_eq!(factory.shutdowns(), 0);

    factory.memory.store(32 * 1024 * 1024, Ordering::SeqCst);
    pool.reclaim();

    assert_eq!(factory.shutdowns(), 1);
    assert!(!pool.is_resident());
}

#[test]
fn in_use_server_is_not_reclaimed() {
    let factory = FakeFactory::new();
    let mut config = quiet_config();
    config.idle_ttl = 1;
    config.memory_limit_bytes = 1;
    let pool = Pool::new(factory.clone(), config);

    let guard = pool.acquire(Language::Java).expect("start");
    factory.memory.store(64 * 1024 * 1024, Ordering::SeqCst);
    pool.pass(20);
    pool.reclaim();

    assert_eq!(factory.shutdowns(), 0);
    assert!(pool.is_resident());
    drop(guard);
}

#[test]
fn reclaim_then_next_request_restarts_transparently() {
    let factory = FakeFactory::new();
    let mut config = quiet_config();
    config.memory_limit_bytes = 8 * 1024 * 1024;
    let pool = Pool::new(factory.clone(), config);

    let first = pool.acquire(Language::TypeScript).expect("start");
    first
        .server
        .references(&dummy_path(), dummy_pos())
        .expect("query on first generation");
    drop(first);

    factory.memory.store(32 * 1024 * 1024, Ordering::SeqCst);
    pool.reclaim();
    assert_eq!(factory.starts(), 1);
    assert_eq!(factory.shutdowns(), 1);

    factory.memory.store(1_048_576, Ordering::SeqCst);
    let second = pool.acquire(Language::TypeScript).expect("restart");
    assert_eq!(factory.starts(), 2);
    second
        .server
        .definition(&dummy_path(), dummy_pos())
        .expect("query on second generation");
    drop(second);
}

#[test]
fn failed_start_is_cooled_down_and_not_retried_every_request() {
    let factory = FakeFactory::new();
    factory.fail_starts.store(true, Ordering::SeqCst);
    let mut config = quiet_config();
    config.start_cooldown = 80;
    let pool = Pool::new(factory.clone(), config);

    let refused = |result: Result<Guard<'_, FakeFactory>, LspError>| {
        assert!(matches!(
            result.err(),
            Some(LspError::Unavailable(Language::Rust, _))
        ));
    };
    refused(pool.acquire(Language::Rust));
    assert_eq!(factory.starts(), 1);

    refused(pool.acquire(Language::Rust));
    assert_eq!(
        factory.starts(),
        1,
        "cooldown must suppress the second spawn"
    );

    pool.pass(120);
    refused(pool.acquire(Language::Rust));
    assert_eq!(factory.starts(), 2, "cooldown elapsed; start is retried");
}

#[test]
fn crash_is_healed_on_the_next_request() {
    let factory = FakeFactory::new();
    factory.crash_on_use.store(true, Ordering::SeqCst);
    let pool = Pool::new(factory.clone(), quiet_config());

    let crashed = pool
        .with_server(Language::Python, |server| {
            server.references(&dummy_path(), dummy_pos())
        })
        .expect_err("first generation crashes");
    assert!(matches!(crashed, LspError::Crashed));
    assert_eq!(factory.starts(), 1);
    assert!(!pool.is_resident());

    factory.crash_on_use.store(false, Ordering::SeqCst);
    let recovered = pool
        .with_server(Language::Python, |server| {
            server.references(&dummy_path(), dummy_pos())
        })
        .expect("second generation is healthy");
    assert!(recovered.is_empty());
    assert_eq!(factory.starts(), 2);
}

#[test]
fn zero_thresholds_disable_reclaim() {
    let factory = FakeFactory::new();
    let pool = Pool::new(factory.clone(), quiet_config());

    drop(pool.acquire(Language::JavaScript).expect("start"));
    factory.memory.store(u64::MAX, Ordering::SeqCst);
    pool.pass(20);
    pool.reclaim();

    assert_eq!(factory.shutdowns(), 0);
    assert!(pool.is_resident());
}

struct StaticDiscovery {
    language: Language,
}

impl DiscoverServers for StaticDiscovery {
    fn discover(&self, language: Language) -> Result<ServerSpec, LspError> {
        if language == self.language {
            Ok(ServerSpec {
                language: Language::Go,
                command: "gopls".into(),
                args: vec!["serve".into()],
                install_hint: "go install golang.org/x/tools/gopls@latest".into(),
            })
        } else {
            Err(LspError::Unavailable(
                language,
                "no server configured".into(),
            ))
        }
    }
}

struct CountingTransport {
    factory: FakeFactory,
    seen_roots: Arc<Mutex<Vec<String>>>,
}

impl SpawnServer for CountingTransport {
    type Server = FakeServer;

    fn spawn(&self, spec: &ServerSpec, root: &str) -> Result<FakeServer, LspError> {
        self.seen_roots
            .lock()
            .expect("roots poisoned")
            .push(root.to_string());
        self.factory.start(spec.language)
    }
}

#[test]
fn composite_factory_wires_discovery_then_transport() {
    let factory = FakeFactory::new();
    let discovery = StaticDiscovery {
        language: Language::Go,
    };
    let seen_roots = Arc::new(Mutex::new(Vec::new()));
    let transport = CountingTransport {
        factory: factory.clone(),
        seen_roots: Arc::clone(&seen_roots),
    };
    let root = "/workspace/under/test".to_string();
    let pool = Pool::new(
        CompositeFactory::new(discovery, transport, root.clone()),
        quiet_config(),
    );

    drop(pool.acquire(Language::Go).expect("discovered + spawned"));
    assert_eq!(factory.starts(), 1);
    assert_eq!(
        *seen_roots.lock().expect("roots poisoned"),
        vec![root.clone()]
    );

    let other = Pool::new(
        CompositeFactory::new(
            StaticDiscovery {
                language: Language::Go,
            },
            CountingTransport {
                factory: factory.clone(),
                seen_roots,
            },
            root,
        ),
        quiet_config(),
    );
    let missing = other.acquire(Language::Python);
    assert!(matches!(
        missing.err(),
        Some(LspError::Unavailable(Language::Python, _))
    ));
    assert_eq!(factory.starts(), 1);
}

#[test]
fn concurrent_checkouts_share_one_process() {
    let factory = FakeFactory::new();
    let pool = Pool::new(factory.clone(), quiet_config());
    let guards: Vec<_> = (0..8)
        .map(|_| pool.acquire(Language::Rust).expect("checkout"))
        .collect();
    assert_eq!(pool.slot.borrow().in_flight, 8);
    for guard in guards {
        guard
            .server
            .diagnostics(&dummy_path())
            .expect("query under checkout");
    }
    assert_eq!(factory.starts(), 1);
    assert_eq!(pool.slot.borrow().in_flight, 0);
}

#[test]
fn indexing_server_is_spared_the_steady_state_limit_but_not_the_hard_one() {
    let config = LspPoolConfig {
        memory_limit_bytes: 1024,
        memory_hard_limit_bytes: 4096,
        ..quiet_config()
    };

    assert!(
        !memory_over_budget(&config, Some(2048), true),
        "a server at its indexing peak must be allowed to finish"
    );
    assert!(
        memory_over_budget(&config, Some(2048), false),
        "once indexed, the steady-state ceiling applies"
    );
    assert!(
        memory_over_budget(&config, Some(8192), true),
        "the hard ceiling is never waived, or a runaway server takes the machine"
    );
}

#[test]
fn a_server_is_not_taken_if_something_has_changed() {
    let mut slot: Slot<u8> = Slot::new(0);
    let config = LspPoolConfig {
        idle_ttl: 10,
        ..quiet_config()
    };
    let generation = slot.note_started(Arc::new(7), 0);
    assert!(slot.release(generation, 5));
    assert!(slot.take_spent(generation + 1, &config, None, false, 50).is_none());
    assert!(slot.take_spent(generation, &config, None, false, 14).is_none());
    let (server, idle) = slot
        .take_spent(generation, &config, None, false, 15)
        .expect("spent");
    assert_eq!((*server, idle), (7, 10));
    assert!(!slot.release(generation, 16), "a late return counts for nothing");
    assert!(slot.tear_down(true).is_none());
}

#[test]
fn a_server_in_use_is_only_forced_out() {
    let mut slot: Slot<u8> = Slot::new(0);
    slot.note_started(Arc::new(7), 0);
    assert!(slot.tear_down(false).is_none());
    assert!(slot.is_resident());
    assert_eq!(slot.tear_down(true).map(|s| *s), Some(7));
    assert!(!slot.is_resident());
}

#[test]
fn the_hard_limit_holds_at_all_times() {
    let config = LspPoolConfig {
        memory_limit_bytes: 0,
        memory_hard_limit_bytes: 4096,
        ..LspPoolConfig::default()
    };
    assert!(memory_over_budget(&config, Some(8192), false));
    assert!(memory_over_budget(&config, Some(4096), true));
    assert!(!memory_over_budget(&config, Some(4095), false));
    assert!(!memory_over_budget(&config, None, false));
}

#[test]
fn reasons_are_named() {
    let config = LspPoolConfig {
        idle_ttl: 10,
        memory_limit_bytes: 100,
        ..quiet_config()
    };
    assert_eq!(reclaim_reason(&config, 10, Some(101), false), "idle+memory");
    assert_eq!(reclaim_reason(&config, 9, Some(101), false), "memory");
    assert_eq!(reclaim_reason(&config, 10, Some(99), false), "idle");
    assert_eq!(reclaim_reason(&config, 9, None, false), "none");
    assert!(!should_reclaim(&config, 9, None, false));
    assert!(should_reclaim(&config, 10, None, false));
}

#[test]
fn limits_by_default() {
    let config = LspPoolConfig::default();
    assert_eq!(config.idle_ttl, DEFAULT_IDLE_TTL);
    assert_eq!(config.memory_limit_bytes, DEFAULT_MEMORY_LIMIT_BYTES);
    assert_eq!(config.memory_hard_limit_bytes, DEFAULT_MEMORY_HARD_LIMIT_BYTES);
    assert_eq!(config.ready_timeout, DEFAULT_READY_TIMEOUT);
    assert_eq!(config.start_cooldown, DEFAULT_START_COOLDOWN);
    assert!(waits_for_ready(&config));
    assert!(!waits_for_ready(&quiet_config()));
}

#[test]
fn what_came_of_a_start_is_noted_and_said() {
    let mut slot: Slot<u8> = Slot::new(0);
    let failed = slot.settle_start(Err(LspError::Crashed), 10);
    assert!(matches!(failed, Err(LspError::Crashed)));
    assert!(!slot.is_resident());
    assert!(matches!(
        slot.acquire(Language::Go, 5, 14),
        Checkout::Cooling(LspError::Crashed)
    ));
    assert!(matches!(slot.acquire(Language::Go, 5, 15), Checkout::Start));
    let (server, generation) = slot.settle_start(Ok(Arc::new(7)), 20).unwrap();
    assert_eq!((*server, generation), (7, 1));
    assert!(matches!(
        slot.acquire(Language::Go, 5, 21),
        Checkout::Held(s, 1) if *s == 7
    ));
    assert_eq!(slot.in_flight, 2);
}
