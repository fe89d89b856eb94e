//! A bounded cache of file contents.
//!
//! The cache declares a budget in bytes, not a number of entries, and lets go
//! of what has not been used for a while.

use crate::text;
use std::sync::Arc;
use std::time::Duration;
use vstd::prelude::*;

verus! {

/// The default ceiling for everything that is held in memory.
pub const DEFAULT_MEMORY_BUDGET_BYTES: u64 = 268_435_456;

/// Unused contents are let go after this many milliseconds.
pub const DEFAULT_IDLE_TTL_MS: u64 = 900_000;

/// The longest time in milliseconds that unused contents can be kept for.
pub const MAX_IDLE_TTL_MS: u64 = 31_536_000_000_000;

/// How much a cache holds, and for how long.
#[derive(Clone, Copy, Debug, PartialEq, Eq, Structural)]
pub struct CacheConfig {
    pub budget_bytes: u64,
    pub idle_ttl_ms: u64,
}

impl Default for CacheConfig {
    fn default() -> (r: CacheConfig)
        ensures
            r.budget_bytes == DEFAULT_MEMORY_BUDGET_BYTES,
            r.idle_ttl_ms == DEFAULT_IDLE_TTL_MS,
    {
        CacheConfig {
            budget_bytes: DEFAULT_MEMORY_BUDGET_BYTES,
            idle_ttl_ms: DEFAULT_IDLE_TTL_MS,
        }
    }
}

// ---------------------------------------------------------------- weight

/// What lines take in memory: the header of their vector, and for each line
/// the header of a string and its bytes.
pub open spec fn bytes_of(lines: Seq<Seq<char>>) -> nat
    decreases lines.len(),
{
    if lines.len() == 0 {
        vstd::layout::size_of::<Vec<String>>()
    } else {
        bytes_of(lines.drop_last()) + vstd::layout::size_of::<String>() + text::utf8_len(
            lines.last(),
        )
    }
}

/// The weight of lines: their bytes, as far as a `u32` can tell.
pub open spec fn weight_of(lines: Seq<Seq<char>>) -> u32 {
    if bytes_of(lines) > u32::MAX {
        u32::MAX
    } else {
        bytes_of(lines) as u32
    }
}

/// The weight of lines.
pub fn entry_weight(lines: &Vec<String>) -> (r: u32)
    ensures
        r == weight_of(text::texts(lines@)),
{
    let ghost all = text::texts(lines@);
    let header: usize = core::mem::size_of::<String>();
    let mut bytes: usize = core::mem::size_of::<Vec<String>>();
    let mut i: usize = 0;
    assert(all.take(0) =~= Seq::<Seq<char>>::empty());
    while i < lines.len()
        invariant
            i <= lines@.len(),
            all == text::texts(lines@),
            header == vstd::layout::size_of::<String>(),
            bytes == usize::MAX ==> bytes_of(all.take(i as int)) >= usize::MAX,
            bytes < usize::MAX ==> bytes == bytes_of(all.take(i as int)),
        decreases lines.len() - i,
    {
        assert(all.take(i as int + 1).drop_last() =~= all.take(i as int));
        assert(all[i as int] == lines@[i as int]@);
        bytes = bytes.saturating_add(header);
        bytes = bytes.saturating_add(text::byte_len(lines[i].as_str()));
        i = i + 1;
    }
    assert(all.take(all.len() as int) =~= all);
    if bytes >= 0xffff_ffff {
        u32::MAX
    } else {
        bytes as u32
    }
}

// ----------------------------------------------------------------- store

/// A cached file: its lines and when it was last changed.
pub type CachedFile = (Arc<Vec<String>>, u64);

/// The caches of `moka`.
#[verifier::external_type_specification]
#[verifier::external_body]
#[verifier::reject_recursive_types(K)]
#[verifier::reject_recursive_types(V)]
#[verifier::reject_recursive_types(S)]
pub struct ExCache<K, V, S>(moka::sync::Cache<K, V, S>);

/// Every entry of `a` is an entry of `b`.
pub open spec fn part_of(
    a: Map<Seq<char>, (Seq<Seq<char>>, u64)>,
    b: Map<Seq<char>, (Seq<Seq<char>>, u64)>,
) -> bool {
    forall|path: Seq<char>| #[trigger]
        a.contains_key(path) ==> b.contains_key(path) && a[path] == b[path]
}

/// What a store may still give back: under each path the lines and the time of
/// the entry that was put there last and has not been dropped since.
pub uninterp spec fn may_hold(store: moka::sync::Cache<String, CachedFile>) -> Map<
    Seq<char>,
    (Seq<Seq<char>>, u64),
>;

/// The weight that a store may hold, and for how many milliseconds it keeps what
/// is not used.
pub uninterp spec fn limits_of(store: moka::sync::Cache<String, CachedFile>) -> (u64, u64);

/// The weight that a store has counted.
pub uninterp spec fn counted_weight(store: moka::sync::Cache<String, CachedFile>) -> u64;

/// `Cache::builder` with `max_capacity`, `weigher`, `time_to_idle` and
/// `build`: an empty cache with these limits, which its methods do not change,
/// and which weighs entries with [`entry_weight`]. Building panics for an idle
/// time of more than a thousand years.
#[verifier::external_body]
fn build_store(budget_bytes: u64, idle_ttl_ms: u64) -> (r: moka::sync::Cache<String, CachedFile>)
    requires
        idle_ttl_ms <= MAX_IDLE_TTL_MS,
    ensures
        may_hold(r).dom() == Set::<Seq<char>>::empty(),
        limits_of(r) == (budget_bytes, idle_ttl_ms),
        counted_weight(r) == 0,
{
    moka::sync::Cache::builder()
        .max_capacity(budget_bytes)
        .weigher(|_path: &String, file: &CachedFile| -> u32 { entry_weight(&file.0) })
        .time_to_idle(Duration::from_millis(idle_ttl_ms))
        .build()
}

/// `Cache::get`: a clone of the entry under `path`. Whatever comes back was put
/// there; nothing comes back for a path that is not held, or not any longer.
/// When entries are dropped is left open: that depends on time and on weight.
#[verifier::external_body]
fn store_get(store: &mut moka::sync::Cache<String, CachedFile>, path: &str) -> (r: Option<
    CachedFile,
>)
    ensures
        limits_of(*final(store)) == limits_of(*old(store)),
        part_of(may_hold(*final(store)), may_hold(*old(store))),
        match r {
            Some(file) => may_hold(*old(store)).contains_key(path@) && may_hold(*old(store))[path@]
                == (text::texts((*file.0)@), file.1),
            None => !may_hold(*final(store)).contains_key(path@),
        },
{
    store.get(path)
}

/// `Cache::insert`: puts an entry under `path`, in place of any other there. It
/// may be dropped at once, and others with it.
#[verifier::external_body]
fn store_insert(store: &mut moka::sync::Cache<String, CachedFile>, path: &str, file: CachedFile)
    ensures
        limits_of(*final(store)) == limits_of(*old(store)),
        part_of(
            may_hold(*final(store)),
            may_hold(*old(store)).insert(path@, (text::texts((*file.0)@), file.1)),
        ),
{
    store.insert(path.to_owned(), file)
}

/// `Cache::invalidate`: drops the entry under `path`.
#[verifier::external_body]
fn store_invalidate(store: &mut moka::sync::Cache<String, CachedFile>, path: &str)
    ensures
        limits_of(*final(store)) == limits_of(*old(store)),
        part_of(may_hold(*final(store)), may_hold(*old(store)).remove(path@)),
{
    store.invalidate(path)
}

/// `Cache::run_pending_tasks`: catches up on dropping what is due.
#[verifier::external_body]
fn store_settle(store: &mut moka::sync::Cache<String, CachedFile>)
    ensures
        limits_of(*final(store)) == limits_of(*old(store)),
        part_of(may_hold(*final(store)), may_hold(*old(store))),
{
    store.run_pending_tasks()
}

/// `Cache::weighted_size`: the weight that the cache has counted, named
/// [`counted_weight`]. How it comes to differ from the weight of what is held is
/// left open: that depends on how far the cache has caught up.
#[verifier::external_body]
fn store_weight(store: &moka::sync::Cache<String, CachedFile>) -> (r: u64)
    ensures
        r == counted_weight(*store),
{
    store.weighted_size()
}

// ------------------------------------------------------------ file cache

/// What a lookup came to.
#[derive(Debug)]
pub enum Lookup {
    /// The entry is as old as the file.
    Fresh(Arc<Vec<String>>),
    /// The file has changed since.
    Stale,
    /// There is no entry.
    Missing,
}

/// Holds an entry against the time of its file.
pub fn judge(entry: Option<CachedFile>, mtime_ms: u64) -> (r: Lookup)
    ensures
        match entry {
            None => r is Missing,
            Some(file) => if file.1 == mtime_ms {
                r == Lookup::Fresh(file.0)
            } else {
                r is Stale
            },
        },
{
    match entry {
        None => Lookup::Missing,
        Some((lines, at)) => {
            if at == mtime_ms {
                Lookup::Fresh(lines)
            } else {
                Lookup::Stale
            }
        },
    }
}

/// The contents of files, each with the time it was last changed.
pub struct FileCache {
    store: moka::sync::Cache<String, CachedFile>,
}

impl FileCache {
    /// What the cache may still give back.
    pub closed spec fn contents(self) -> Map<Seq<char>, (Seq<Seq<char>>, u64)> {
        may_hold(self.store)
    }

    /// The bytes that the cache may hold, and for how many milliseconds it keeps
    /// what is not used.
    pub closed spec fn limits(self) -> (u64, u64) {
        limits_of(self.store)
    }

    /// An empty cache.
    pub fn new(cfg: CacheConfig) -> (r: FileCache)
        requires
            cfg.idle_ttl_ms <= MAX_IDLE_TTL_MS,
        ensures
            r.contents().dom() == Set::<Seq<char>>::empty(),
            r.limits() == (cfg.budget_bytes, cfg.idle_ttl_ms),
            r.weight() == 0,
    {
        FileCache { store: build_store(cfg.budget_bytes, cfg.idle_ttl_ms) }
    }

    /// The lines of `path`, if they were put there for a file as old as this.
    /// An entry for a file of another age is dropped.
    pub fn get(&mut self, path: &str, mtime_ms: u64) -> (r: Option<Arc<Vec<String>>>)
        ensures
            final(self).limits() == old(self).limits(),
            part_of(final(self).contents(), old(self).contents()),
            match r {
                Some(lines) => old(self).contents().contains_key(path@)
                    && old(self).contents()[path@] == (text::texts((*lines)@), mtime_ms),
                None => !final(self).contents().contains_key(path@),
            },
    {
        let entry = store_get(&mut self.store, path);
        match judge(entry, mtime_ms) {
            Lookup::Fresh(lines) => Some(lines),
            Lookup::Stale => {
                store_invalidate(&mut self.store, path);
                None
            },
            Lookup::Missing => None,
        }
    }

    /// Puts the lines of a file of this age under `path`. When entries go is up to
    /// their idle time and to the budget, so it is not said that this one is still
    /// there afterwards, only that nothing else is under `path`.
    pub fn insert(&mut self, path: &str, lines: Vec<String>, mtime_ms: u64)
        ensures
            final(self).limits() == old(self).limits(),
            part_of(
                final(self).contents(),
                old(self).contents().insert(path@, (text::texts(lines@), mtime_ms)),
            ),
    {
        store_insert(&mut self.store, path, (Arc::new(lines), mtime_ms))
    }

    /// The bytes that the cache has counted.
    pub closed spec fn weight(self) -> u64 {
        counted_weight(self.store)
    }

    /// An estimate of the bytes held: those that the cache has counted.
    pub fn weighted_size(&self) -> (r: u64)
        ensures
            r == self.weight(),
    {
        store_weight(&self.store)
    }

    /// Drops what is due.
    pub fn settle(&mut self)
        ensures
            final(self).limits() == old(self).limits(),
            part_of(final(self).contents(), old(self).contents()),
    {
        store_settle(&mut self.store)
    }
}

/// What is read under a path after it was written is what was written: the
/// same lines, for a file of the same age.
pub proof fn law_reads_give_back_writes(
    before: Map<Seq<char>, (Seq<Seq<char>>, u64)>,
    after: Map<Seq<char>, (Seq<Seq<char>>, u64)>,
    later: Map<Seq<char>, (Seq<Seq<char>>, u64)>,
    path: Seq<char>,
    lines: Seq<Seq<char>>,
    at: u64,
)
    requires
        part_of(after, before.insert(path, (lines, at))),
        part_of(later, after),
        later.contains_key(path),
    ensures
        later[path] == (lines, at),
{
}

} // verus!
