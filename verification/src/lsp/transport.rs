//! The client side of a connection to a language server: what it has asked,
//! what it has been told, and what it does next. Pipes, threads and clocks are
//! the caller's.

use super::codec;
use super::frame;
use super::json;
use super::json::Json;
use super::wire;
use super::wire::Published;
use super::{LspError, ServerSpec};
use crate::text;
use crate::types::Language;
use vstd::prelude::*;
use vstd::string::*;

verus! {

/// How long a request may take, in milliseconds.
pub const DEFAULT_TIMEOUT: u64 = 300_000;

/// How often a request is made that the server answers with "content modified".
pub const CONTENT_MODIFIED_ATTEMPTS: u32 = 4;

/// The pause between those attempts, in milliseconds.
pub const CONTENT_MODIFIED_BACKOFF: u64 = 250;

/// How long a new server may take to announce work, in milliseconds.
pub const SETTLE_WINDOW: u64 = 3_000;

/// How long a server must be quiet before its index is trusted, in milliseconds.
pub const QUIET_PERIOD: u64 = 1_000;

/// How many notifications are kept.
pub const MAX_NOTIFICATIONS: usize = 64;

// ------------------------------------------------------------------- state

/// How far the life of a server has gone.
#[derive(Clone, Copy, Debug, PartialEq, Eq, Structural)]
pub enum Life {
    Running,
    Shutdown,
    Dead,
}

/// One connection to a language server.
#[derive(Debug)]
pub struct LspTransport {
    pub server: ServerSpec,
    pub pid: u32,
    /// How long a request may take, in milliseconds.
    pub timeout: u64,
    pub cwd: Option<String>,
    /// The URI and the name of the workspace, once it has been announced.
    pub workspace: Option<(String, String)>,
    pub life: Life,
    pub next_id: u64,
    /// The requests that wait for a reply.
    pub pending: Vec<u64>,
    /// The server has announced work at least once.
    pub saw_progress: bool,
    /// The server was found to be done with its work.
    pub ready_confirmed: bool,
    /// The work that the server has begun and not ended.
    pub active: Vec<String>,
    /// What the server told on its own, the first of it.
    pub log: Vec<(String, Json)>,
    /// The latest diagnostics of each document, by URI.
    pub published: Vec<(String, Vec<Published>)>,
}

/// What of a connection changes over time, as mathematics.
pub ghost struct Link {
    pub life: Life,
    pub next_id: u64,
    pub pending: Seq<u64>,
    pub saw_progress: bool,
    pub ready: bool,
    pub active: Seq<Seq<char>>,
    pub log: Seq<(Seq<char>, json::Shape)>,
    pub published: Seq<(Seq<char>, Seq<wire::Notice>)>,
}

/// Notifications, by method and parameters.
pub open spec fn log_view(log: Seq<(String, Json)>) -> Seq<(Seq<char>, json::Shape)> {
    log.map_values(|e: (String, Json)| (e.0@, json::shape(e.1)))
}

/// Diagnostics by URI.
pub open spec fn published_view(v: Seq<(String, Vec<Published>)>) -> Seq<
    (Seq<char>, Seq<wire::Notice>),
> {
    v.map_values(|e: (String, Vec<Published>)| (e.0@, wire::notices(e.1@)))
}

impl View for LspTransport {
    type V = Link;

    open spec fn view(&self) -> Link {
        Link {
            life: self.life,
            next_id: self.next_id,
            pending: self.pending@,
            saw_progress: self.saw_progress,
            ready: self.ready_confirmed,
            active: text::texts(self.active@),
            log: log_view(self.log@),
            published: published_view(self.published@),
        }
    }
}

/// The two connections are to the same server, for the same workspace.
pub open spec fn same_server(a: LspTransport, b: LspTransport) -> bool {
    a.server == b.server && a.pid == b.pid && a.timeout == b.timeout && a.cwd == b.cwd
        && a.workspace == b.workspace
}

/// Nothing waits twice, no work is counted twice, no document is listed twice,
/// and no more notifications are kept than may be.
pub open spec fn well_kept(l: Link) -> bool {
    &&& l.pending.no_duplicates()
    &&& l.active.no_duplicates()
    &&& l.log.len() <= MAX_NOTIFICATIONS
    &&& forall|i: int, j: int|
        0 <= i < j < l.published.len() ==> (#[trigger] l.published[i]).0 != (
        #[trigger] l.published[j]).0
}

// ----------------------------------------------------------------- numbers

/// `ids` with `id` among them.
pub open spec fn with_id(ids: Seq<u64>, id: u64) -> Seq<u64> {
    if ids.contains(id) {
        ids
    } else {
        ids.push(id)
    }
}

/// `ids` without `id`.
pub open spec fn without_id(ids: Seq<u64>, id: u64) -> Seq<u64>
    decreases ids.len(),
{
    if ids.len() == 0 {
        ids
    } else if ids.last() == id {
        without_id(ids.drop_last(), id)
    } else {
        without_id(ids.drop_last(), id).push(ids.last())
    }
}

proof fn lemma_without_id(ids: Seq<u64>, id: u64)
    ensures
        !without_id(ids, id).contains(id),
        forall|x: u64| x != id ==> (without_id(ids, id).contains(x) <==> ids.contains(x)),
        ids.no_duplicates() ==> without_id(ids, id).no_duplicates(),
    decreases ids.len(),
{
    if ids.len() > 0 {
        let front = ids.drop_last();
        let rest = without_id(front, id);
        lemma_without_id(front, id);
        assert forall|x: u64| ids.contains(x) <==> front.contains(x) || x == ids.last() by {
            if front.contains(x) {
                let i = choose|i: int| 0 <= i < front.len() && front[i] == x;
                assert(ids[i] == x);
            }
            if ids.contains(x) && x != ids.last() {
                let i = choose|i: int| 0 <= i < ids.len() && ids[i] == x;
                assert(front[i] == x);
            }
        }
        if ids.last() != id {
            let whole = rest.push(ids.last());
            assert forall|x: u64| whole.contains(x) <==> rest.contains(x) || x == ids.last() by {
                if rest.contains(x) {
                    let i = choose|i: int| 0 <= i < rest.len() && rest[i] == x;
                    assert(whole[i] == x);
                }
                if whole.contains(x) && x != ids.last() {
                    let i = choose|i: int| 0 <= i < whole.len() && whole[i] == x;
                    assert(rest[i] == x);
                }
                assert(whole[rest.len() as int] == ids.last());
            }
            if ids.no_duplicates() {
                assert(front.no_duplicates());
                assert(!front.contains(ids.last())) by {
                    if front.contains(ids.last()) {
                        let i = choose|i: int| 0 <= i < front.len() && front[i] == ids.last();
                        assert(ids[i] == ids[ids.len() - 1]);
                    }
                }
                assert(!rest.contains(ids.last()));
                assert forall|i: int, j: int|
                    0 <= i < whole.len() && 0 <= j < whole.len() && i != j implies whole[i]
                    != whole[j] by {
                    if i < rest.len() && j < rest.len() {
                        assert(rest[i] != rest[j]);
                    } else if i < rest.len() {
                        assert(rest.contains(rest[i]));
                    } else if j < rest.len() {
                        assert(rest.contains(rest[j]));
                    }
                }
            }
        }
    }
}

fn has_id(ids: &Vec<u64>, id: u64) -> (r: bool)
    ensures
        r == ids@.contains(id),
{
    let mut i: usize = 0;
    while i < ids.len()
        invariant
            i <= ids@.len(),
            forall|k: int| 0 <= k < i ==> #[trigger] ids@[k] != id,
        decreases ids.len() - i,
    {
        if ids[i] == id {
            assert(ids@[i as int] == id);
            return true;
        }
        i = i + 1;
    }
    false
}

fn drop_id(ids: &Vec<u64>, id: u64) -> (out: Vec<u64>)
    ensures
        out@ == without_id(ids@, id),
{
    let mut out: Vec<u64> = Vec::new();
    let mut i: usize = 0;
    assert(ids@.take(0) =~= Seq::<u64>::empty());
    while i < ids.len()
        invariant
            i <= ids@.len(),
            out@ == without_id(ids@.take(i as int), id),
        decreases ids.len() - i,
    {
        assert(ids@.take(i as int + 1).drop_last() =~= ids@.take(i as int));
        if ids[i] != id {
            out.push(ids[i]);
        }
        i = i + 1;
    }
    assert(ids@.take(ids@.len() as int) =~= ids@);
    out
}

/// `names` with `name` among them.
pub open spec fn with_name(names: Seq<Seq<char>>, name: Seq<char>) -> Seq<Seq<char>> {
    if names.contains(name) {
        names
    } else {
        names.push(name)
    }
}

/// `names` without `name`.
pub open spec fn without_name(names: Seq<Seq<char>>, name: Seq<char>) -> Seq<Seq<char>>
    decreases names.len(),
{
    if names.len() == 0 {
        names
    } else if names.last() == name {
        without_name(names.drop_last(), name)
    } else {
        without_name(names.drop_last(), name).push(names.last())
    }
}

pub(crate) proof fn lemma_without_name(names: Seq<Seq<char>>, name: Seq<char>)
    ensures
        !without_name(names, name).contains(name),
        forall|x: Seq<char>|
            x != name ==> (#[trigger] without_name(names, name).contains(x) ==> names.contains(x)),
        names.no_duplicates() ==> without_name(names, name).no_duplicates(),
    decreases names.len(),
{
    if names.len() > 0 {
        let front = names.drop_last();
        let rest = without_name(front, name);
        lemma_without_name(front, name);
        let whole = without_name(names, name);
        assert forall|x: Seq<char>| x != name && #[trigger] whole.contains(x) implies names.contains(
            x,
        ) by {
            let i = choose|i: int| 0 <= i < whole.len() && whole[i] == x;
            if i < rest.len() {
                assert(rest[i] == x);
                assert(rest.contains(x));
                assert(front.contains(x));
                let k = choose|k: int| 0 <= k < front.len() && front[k] == x;
                assert(names[k] == x);
            } else {
                assert(names[names.len() - 1] == x);
            }
        }
        if whole.contains(name) {
            let i = choose|i: int| 0 <= i < whole.len() && whole[i] == name;
            if i < rest.len() {
                assert(rest.contains(rest[i]));
            }
        }
        if names.no_duplicates() && names.last() != name {
            assert(front.no_duplicates());
            assert forall|i: int, j: int|
                0 <= i < whole.len() && 0 <= j < whole.len() && i != j implies whole[i]
                != whole[j] by {
                if i < rest.len() && j < rest.len() {
                    assert(rest[i] != rest[j]);
                } else {
                    let k = if i < rest.len() {
                        i
                    } else {
                        j
                    };
                    assert(rest.contains(rest[k]));
                    assert(rest[k] != name);
                    assert(front.contains(rest[k]));
                    let m = choose|m: int| 0 <= m < front.len() && front[m] == rest[k];
                    assert(names[m] != names[names.len() - 1]);
                }
            }
        }
    }
}

fn drop_name(names: &Vec<String>, name: &str) -> (out: Vec<String>)
    ensures
        text::texts(out@) == without_name(text::texts(names@), name@),
{
    let mut out: Vec<String> = Vec::new();
    let mut i: usize = 0;
    let ghost all = text::texts(names@);
    assert(all.take(0) =~= Seq::<Seq<char>>::empty());
    assert(text::texts(out@) =~= without_name(all.take(0), name@));
    while i < names.len()
        invariant
            i <= names@.len(),
            all == text::texts(names@),
            text::texts(out@) == without_name(all.take(i as int), name@),
        decreases names.len() - i,
    {
        let ghost was = text::texts(out@);
        assert(all.take(i as int + 1).drop_last() =~= all.take(i as int));
        if !text::same(names[i].as_str(), name) {
            out.push(names[i].clone());
            assert(text::texts(out@) =~= was.push(all[i as int]));
        }
        i = i + 1;
    }
    assert(all.take(names@.len() as int) =~= all);
    out
}

/// The number that an optional plus sign and decimal digits write.
pub open spec fn plain_number(s: Seq<char>) -> Option<int> {
    let digits = if s.len() > 0 && s[0] == '+' {
        s.drop_first()
    } else {
        s
    };
    if digits.len() == 0 || !text::all_digits(digits) {
        None
    } else {
        Some(text::digits_value(digits))
    }
}

/// Reads a number that fits into 64 bits.
pub fn parse_number(cs: &[char]) -> (r: Option<u64>)
    ensures
        match r {
            Some(v) => plain_number(cs@) == Some(v as int),
            None => plain_number(cs@) matches Some(v) ==> v > u64::MAX,
        },
{
    if cs.len() > 0 && cs[0] == '+' {
        let digits = text::slice_of(cs, 1, cs.len());
        assert(digits@ =~= cs@.drop_first());
        text::parse_digits(&digits)
    } else {
        text::parse_digits(cs)
    }
}

/// The number of a request, as a server writes it back.
pub open spec fn id_in(j: Json) -> Option<u64> {
    match j {
        Json::Number(n) => json::whole_number(n@),
        Json::Text(s) => match plain_number(s@) {
            Some(v) => if v <= u64::MAX {
                Some(v as u64)
            } else {
                None
            },
            None => None,
        },
        _ => None,
    }
}

/// The number of a request, as a server writes it back: a number, or a text
/// that holds one.
pub fn rpc_id_u64(id: &Json) -> (r: Option<u64>)
    ensures
        r == id_in(*id),
{
    match id {
        Json::Number(n) => json::parse_whole(n.as_str()),
        Json::Text(s) => parse_number(&text::chars_of(s.as_str())),
        _ => None,
    }
}

// ---------------------------------------------------------------- messages

/// A request: its number, its method and its parameters.
pub fn rpc_request(id: u64, method: &str, params: Json) -> (r: Json)
    ensures
        json::shape(r) == json::Shape::Table(
            seq![
                ("jsonrpc"@, json::Shape::Text("2.0"@)),
                ("id"@, json::Shape::Number(text::decimal(id as nat))),
                ("method"@, json::Shape::Text(method@)),
                ("params"@, json::shape(params)),
            ],
        ),
{
    let ghost given = json::shape(params);
    let r = json::table2("jsonrpc", Json::text("2.0"), "id", Json::number(id)).with(
        "method",
        Json::text(method),
    ).with("params", params);
    assert(seq![
        ("jsonrpc"@, json::Shape::Text("2.0"@)),
        ("id"@, json::Shape::Number(text::decimal(id as nat))),
    ].push(("method"@, json::Shape::Text(method@))).push(("params"@, given)) =~= seq![
        ("jsonrpc"@, json::Shape::Text("2.0"@)),
        ("id"@, json::Shape::Number(text::decimal(id as nat))),
        ("method"@, json::Shape::Text(method@)),
        ("params"@, given),
    ]);
    r
}

/// A notification: its method, and its parameters if it has any.
pub fn rpc_notification(method: &str, params: Json) -> (r: Json)
    ensures
        json::shape(r) == json::Shape::Table(
            if params is Null {
                seq![("jsonrpc"@, json::Shape::Text("2.0"@)), ("method"@, json::Shape::Text(method@))]
            } else {
                seq![
                    ("jsonrpc"@, json::Shape::Text("2.0"@)),
                    ("method"@, json::Shape::Text(method@)),
                    ("params"@, json::shape(params)),
                ]
            },
        ),
{
    let ghost given = json::shape(params);
    let r = json::table2("jsonrpc", Json::text("2.0"), "method", Json::text(method));
    match params {
        Json::Null => r,
        other => {
            let out = r.with("params", other);
            assert(seq![
                ("jsonrpc"@, json::Shape::Text("2.0"@)),
                ("method"@, json::Shape::Text(method@)),
            ].push(("params"@, given)) =~= seq![
                ("jsonrpc"@, json::Shape::Text("2.0"@)),
                ("method"@, json::Shape::Text(method@)),
                ("params"@, given),
            ]);
            out
        },
    }
}

// ---------------------------------------------------------------- requests

/// How a message was handed to the server.
#[derive(Clone, Copy, Debug, PartialEq, Eq, Structural)]
pub enum Sent {
    /// It was written.
    Written,
    /// There is no pipe to write to any more.
    NoPipe,
    /// Writing failed.
    Broken,
}

/// How waiting for a reply ended.
#[derive(Debug)]
pub enum Waited {
    Reply(Result<Json, LspError>),
    /// No reply can come any more.
    Disconnected,
    /// Time was up. A reply may have come in since.
    TimedOut(Option<Result<Json, LspError>>),
}

/// The server is gone, and nothing waits for it any more.
pub open spec fn died(l: Link) -> Link {
    Link { life: Life::Dead, pending: Seq::empty(), ..l }
}

/// A request that is refused without asking whether the server still runs.
pub open spec fn refused_at_once(l: Link, method: Seq<char>) -> bool {
    l.life == Life::Dead || (l.life == Life::Shutdown && method != "shutdown"@)
}

/// The connection once it is known whether the server has exited.
pub open spec fn looked_after(l: Link, method: Seq<char>, exited: bool) -> Link {
    if !refused_at_once(l, method) && exited && l.life == Life::Running {
        died(l)
    } else {
        l
    }
}

/// A request is made.
pub open spec fn admitted(l: Link, method: Seq<char>, exited: bool) -> bool {
    !refused_at_once(l, method) && (!exited || method == "shutdown"@)
}

/// The connection after a request was made, or refused.
pub open spec fn requested(l: Link, method: Seq<char>, exited: bool) -> Link {
    let m = looked_after(l, method, exited);
    if admitted(l, method, exited) {
        Link {
            next_id: if m.next_id == u64::MAX {
                0
            } else {
                (m.next_id + 1) as u64
            },
            pending: with_id(m.pending, m.next_id),
            ..m
        }
    } else {
        m
    }
}

/// The connection after a message was handed over, for the request `id` if it
/// was one.
pub open spec fn handed_over(l: Link, id: Option<u64>, sent: Sent) -> Link {
    match sent {
        Sent::Written => l,
        Sent::Broken => died(l),
        Sent::NoPipe => match id {
            Some(n) => Link { pending: without_id(l.pending, n), ..l },
            None => l,
        },
    }
}

/// The connection after waiting for the reply to `id` ended.
pub open spec fn settled(l: Link, id: u64, waited: Waited) -> Link {
    match waited {
        Waited::TimedOut(_) => Link { pending: without_id(l.pending, id), ..l },
        _ => l,
    }
}

impl LspTransport {
    /// A connection to a server that has just been started.
    pub fn new(server: ServerSpec, pid: u32, timeout: u64, cwd: Option<String>) -> (r: LspTransport)
        ensures
            r@ == (Link {
                life: Life::Running,
                next_id: 1,
                pending: Seq::empty(),
                saw_progress: false,
                ready: false,
                active: Seq::empty(),
                log: Seq::empty(),
                published: Seq::empty(),
            }),
            r.server == server,
            r.pid == pid,
            r.timeout == timeout,
            r.cwd == cwd,
            r.workspace is None,
            well_kept(r@),
    {
        let r = LspTransport {
            server,
            pid,
            timeout,
            cwd,
            workspace: None,
            life: Life::Running,
            next_id: 1,
            pending: Vec::new(),
            saw_progress: false,
            ready_confirmed: false,
            active: Vec::new(),
            log: Vec::new(),
            published: Vec::new(),
        };
        assert(r@.active =~= Seq::empty());
        assert(r@.log =~= Seq::empty());
        assert(r@.published =~= Seq::empty());
        r
    }

    pub fn language(&self) -> (r: Language)
        ensures
            r == self.server.language,
    {
        self.server.language
    }

    pub fn pid(&self) -> (r: u32)
        ensures
            r == self.pid,
    {
        self.pid
    }

    /// The directory that the server was started in, if one was given.
    pub fn root(&self) -> (r: Option<&str>)
        ensures
            match self.cwd {
                Some(dir) => r matches Some(s) && s@ == dir@,
                None => r is None,
            },
    {
        match &self.cwd {
            Some(dir) => Some(dir.as_str()),
            None => None,
        }
    }

    /// What the server told on its own, the first of it.
    pub fn notifications(&self) -> (out: Vec<(String, Json)>)
        ensures
            log_view(out@) == self@.log,
    {
        let mut out: Vec<(String, Json)> = Vec::new();
        let mut i: usize = 0;
        while i < self.log.len()
            invariant
                i <= self.log@.len(),
                out@.len() == i,
                forall|k: int|
                    0 <= k < i ==> (#[trigger] out@[k]).0@ == self.log@[k].0@ && json::shape(
                        out@[k].1,
                    ) == json::shape(self.log@[k].1),
            decreases self.log.len() - i,
        {
            out.push((self.log[i].0.clone(), self.log[i].1.copy()));
            i = i + 1;
        }
        assert(log_view(out@) =~= self@.log);
        out
    }

    /// The latest diagnostics of each document, by URI.
    pub fn published_diagnostics(&self) -> (r: &Vec<(String, Vec<Published>)>)
        ensures
            published_view(r@) == self@.published,
    {
        &self.published
    }

    pub fn is_alive(&self) -> (r: bool)
        ensures
            r == (self@.life == Life::Running),
    {
        match self.life {
            Life::Running => true,
            _ => false,
        }
    }

    /// Whether the server has begun work that it has not ended. An empty reply
    /// of such a server means little.
    pub fn is_busy(&self) -> (r: bool)
        ensures
            r == (self@.active.len() > 0),
    {
        assert(text::texts(self.active@).len() == self.active@.len());
        self.active.len() > 0
    }

    /// The memory that the server uses, by what the system tells of its process.
    /// Nothing is told of a dead one.
    pub fn memory_bytes(&self, told: Told<'_>) -> (r: Option<u64>)
        ensures
            r == (if self@.life == Life::Dead {
                None
            } else {
                told_bytes(told)
            }),
    {
        match (self.life, told) {
            (Life::Dead, _) => None,
            (_, Told::Status(status)) => rss_bytes(status),
            (_, Told::Ps(output)) => ps_bytes(output),
        }
    }

    /// Makes everything that waits stop waiting, and says what it was.
    fn fail_pending(&mut self) -> (waiters: Vec<u64>)
        ensures
            waiters@ == old(self)@.pending,
            final(self)@ == (Link { pending: Seq::empty(), ..old(self)@ }),
            same_server(*final(self), *old(self)),
    {
        let mut waiters: Vec<u64> = Vec::new();
        std::mem::swap(&mut waiters, &mut self.pending);
        waiters
    }

    /// Makes a request: its number, or why it cannot be made, and the requests
    /// that will get no reply any more. `exited` says whether the server's
    /// process has ended.
    pub fn open_request(&mut self, method: &str, exited: bool) -> (r: (
        Result<u64, LspError>,
        Vec<u64>,
    ))
        ensures
            final(self)@ == requested(old(self)@, method@, exited),
            same_server(*final(self), *old(self)),
            match r.0 {
                Ok(id) => admitted(old(self)@, method@, exited) && id == old(self)@.next_id,
                Err(LspError::Crashed) => old(self)@.life == Life::Dead || (exited
                    && !refused_at_once(old(self)@, method@) && method@ != "shutdown"@),
                Err(LspError::Protocol(why)) => old(self)@.life == Life::Shutdown && method@
                    != "shutdown"@ && why@ == "language server has shut down"@,
                Err(_) => false,
            },
            r.1@ == (if looked_after(old(self)@, method@, exited) == old(self)@ {
                Seq::empty()
            } else {
                old(self)@.pending
            }),
            well_kept(old(self)@) ==> well_kept(final(self)@),
    {
        let ghost was = self@;
        let last = text::same(method, "shutdown");
        match self.life {
            Life::Dead => {
                return (Err(LspError::Crashed), Vec::new());
            },
            Life::Shutdown => {
                if !last {
                    return (
                        Err(
                            LspError::Protocol(String::from_str("language server has shut down")),
                        ),
                        Vec::new(),
                    );
                }
            },
            Life::Running => {},
        }
        let mut failed: Vec<u64> = Vec::new();
        if exited {
            match self.life {
                Life::Running => {
                    self.life = Life::Dead;
                    failed = self.fail_pending();
                    assert(self@ == died(was));
                },
                _ => {},
            }
            if !last {
                return (Err(LspError::Crashed), failed);
            }
        }
        let ghost m = self@;
        assert(m == looked_after(was, method@, exited));
        let id: u64 = self.next_id;
        self.next_id = if id == u64::MAX {
            0
        } else {
            id + 1
        };
        if !has_id(&self.pending, id) {
            self.pending.push(id);
        }
        assert(self@.pending == with_id(m.pending, id));
        assert(m.pending.no_duplicates() ==> self@.pending.no_duplicates());
        (Ok(id), failed)
    }

    /// Notes how a message was handed over, for the request `id` if it was one:
    /// whether that went well, and the requests that will get no reply any more.
    pub fn note_sent(&mut self, id: Option<u64>, sent: Sent) -> (r: (
        Result<(), LspError>,
        Vec<u64>,
    ))
        ensures
            final(self)@ == handed_over(old(self)@, id, sent),
            same_server(*final(self), *old(self)),
            sent == Sent::Written ==> r.0 is Ok,
            sent != Sent::Written ==> r.0 == Err::<(), LspError>(LspError::Crashed),
            r.1@ == (if sent == Sent::Broken {
                old(self)@.pending
            } else {
                Seq::empty()
            }),
            well_kept(old(self)@) ==> well_kept(final(self)@),
    {
        match sent {
            Sent::Written => (Ok(()), Vec::new()),
            Sent::NoPipe => {
                if let Some(n) = id {
                    proof {
                        lemma_without_id(self@.pending, n);
                    }
                    self.pending = drop_id(&self.pending, n);
                }
                (Err(LspError::Crashed), Vec::new())
            },
            Sent::Broken => {
                self.life = Life::Dead;
                let failed = self.fail_pending();
                (Err(LspError::Crashed), failed)
            },
        }
    }

    /// Ends the request `id`: what came of it, and whether the server is to be
    /// told that the request is cancelled. `limit` is the time that it was
    /// given, in milliseconds.
    pub fn close_request(&mut self, id: u64, waited: Waited, limit: u64) -> (r: (
        Result<Json, LspError>,
        bool,
    ))
        ensures
            final(self)@ == settled(old(self)@, id, waited),
            same_server(*final(self), *old(self)),
            match waited {
                Waited::Reply(reply) => r.0 == reply && !r.1,
                Waited::Disconnected => r.0 == Err::<Json, LspError>(LspError::Crashed) && !r.1,
                Waited::TimedOut(Some(late)) => r.0 == late && !r.1,
                Waited::TimedOut(None) => r.0 == Err::<Json, LspError>(LspError::Timeout(limit))
                    && r.1,
            },
            well_kept(old(self)@) ==> well_kept(final(self)@),
    {
        match waited {
            Waited::Reply(reply) => (reply, false),
            Waited::Disconnected => (Err(LspError::Crashed), false),
            Waited::TimedOut(late) => {
                proof {
                    lemma_without_id(self@.pending, id);
                }
                self.pending = drop_id(&self.pending, id);
                match late {
                    Some(reply) => (reply, false),
                    None => (Err(LspError::Timeout(limit)), true),
                }
            },
        }
    }

    /// Notes that nothing more can be read from the server, and says which
    /// requests will get no reply any more.
    pub fn on_reader_exit(&mut self) -> (failed: Vec<u64>)
        ensures
            final(self)@ == (if old(self)@.life == Life::Running {
                died(old(self)@)
            } else {
                old(self)@
            }),
            same_server(*final(self), *old(self)),
            failed@ == (if old(self)@.life == Life::Running {
                old(self)@.pending
            } else {
                Seq::empty()
            }),
            well_kept(old(self)@) ==> well_kept(final(self)@),
    {
        match self.life {
            Life::Running => {
                self.life = Life::Dead;
                self.fail_pending()
            },
            _ => Vec::new(),
        }
    }

    /// Notes that the server was told to shut down.
    pub fn note_shutdown(&mut self)
        ensures
            final(self)@ == (Link { life: Life::Shutdown, ..old(self)@ }),
            same_server(*final(self), *old(self)),
            well_kept(old(self)@) ==> well_kept(final(self)@),
    {
        self.life = Life::Shutdown;
    }

    /// Notes that the server's process has been stopped, and says which requests
    /// will get no reply any more.
    pub fn force_stop(&mut self) -> (failed: Vec<u64>)
        ensures
            final(self)@ == (Link { ready: false, ..died(old(self)@) }),
            same_server(*final(self), *old(self)),
            failed@ == old(self)@.pending,
            well_kept(old(self)@) ==> well_kept(final(self)@),
    {
        self.ready_confirmed = false;
        self.life = Life::Dead;
        self.fail_pending()
    }
}

/// Why a server was not started: its program is missing, and how to install it,
/// or what went wrong.
pub fn start_error(server: &ServerSpec, not_found: bool, why: &str) -> (r: LspError)
    ensures
        if not_found {
            r matches LspError::Unavailable(l, hint) && l == server.language && hint@
                == server.install_hint@
        } else {
            r matches LspError::Startup(l, text) && l == server.language && text@ == why@
        },
{
    if not_found {
        LspError::Unavailable(server.language, server.install_hint.clone())
    } else {
        LspError::Startup(server.language, text::string_of(&text::chars_of(why)))
    }
}

/// What shutting down comes to, given the reply to the request for it. A server
/// that is gone, or that is too slow, counts as shut down.
pub fn shutdown_outcome(reply: Result<Json, LspError>) -> (r: Result<(), LspError>)
    ensures
        match reply {
            Ok(_) => r is Ok,
            Err(LspError::Crashed) => r is Ok,
            Err(LspError::Timeout(_)) => r is Ok,
            Err(err) => r == Err::<(), LspError>(err),
        },
{
    match reply {
        Ok(_) => Ok(()),
        Err(LspError::Crashed) => Ok(()),
        Err(LspError::Timeout(_)) => Ok(()),
        Err(err) => Err(err),
    }
}

/// Whether a request is made once more after `attempt` attempts that failed
/// before this one.
pub fn should_retry(attempt: u32, reply: &Result<Json, LspError>) -> (r: bool)
    ensures
        r == (reply == Err::<Json, LspError>(LspError::ContentModified) && attempt + 1
            < CONTENT_MODIFIED_ATTEMPTS),
{
    match reply {
        Err(LspError::ContentModified) => attempt < CONTENT_MODIFIED_ATTEMPTS - 1,
        _ => false,
    }
}

// ------------------------------------------------------------ process state

/// The first word of a text.
pub open spec fn first_word(s: Seq<char>) -> Seq<char> {
    word_start(text::trimmed_start(s))
}

/// What stands before the first white space.
pub open spec fn word_start(s: Seq<char>) -> Seq<char>
    decreases s.len(),
{
    if s.len() == 0 || text::is_white_space(s[0]) {
        Seq::empty()
    } else {
        seq![s[0]] + word_start(s.drop_first())
    }
}

/// Kilobytes, written as a number, in bytes.
pub open spec fn kilobytes(number: Seq<char>) -> Option<u64> {
    match plain_number(number) {
        Some(kb) => if kb > u64::MAX {
            None
        } else if kb * 1024 > u64::MAX {
            Some(u64::MAX)
        } else {
            Some((kb * 1024) as u64)
        },
        None => None,
    }
}

/// The memory that one line of a status tells, in bytes.
pub open spec fn bytes_in_line(rest: Seq<char>) -> Option<u64> {
    kilobytes(first_word(rest))
}

/// The memory that the first line of a status with the right label tells.
pub open spec fn bytes_in_lines(lines: Seq<Seq<char>>) -> Option<u64>
    decreases lines.len(),
{
    if lines.len() == 0 {
        None
    } else if text::stands_at(lines[0], "VmRSS:"@, 0) {
        bytes_in_line(lines[0].skip(6))
    } else {
        bytes_in_lines(lines.drop_first())
    }
}

/// The memory that a process uses, in bytes, by its status.
pub open spec fn resident_bytes(status: Seq<char>) -> Option<u64> {
    bytes_in_lines(text::lines_of(status))
}

/// What a system tells of the memory of a process.
#[derive(Clone, Copy, Debug)]
pub enum Told<'a> {
    /// The status of the process, as Linux has it.
    Status(&'a str),
    /// What `ps -o rss=` prints of it, as on macOS.
    Ps(&'a str),
}

/// The memory that a process uses, in bytes, by what the system tells of it.
pub open spec fn told_bytes(told: Told<'_>) -> Option<u64> {
    match told {
        Told::Status(status) => resident_bytes(status@),
        Told::Ps(output) => kilobytes(text::trimmed(output@)),
    }
}

fn take_word(s: &[char]) -> (out: Vec<char>)
    ensures
        out@ == first_word(s@),
{
    let n: usize = s.len();
    let mut from: usize = 0;
    assert(s@.skip(0) =~= s@);
    while from < n && text::white_space(s[from])
        invariant
            from <= n,
            n == s@.len(),
            text::trimmed_start(s@) == text::trimmed_start(s@.skip(from as int)),
        decreases n - from,
    {
        assert(s@.skip(from as int).drop_first() =~= s@.skip(from as int + 1));
        from = from + 1;
    }
    assert(text::trimmed_start(s@) =~= s@.skip(from as int));
    let mut out: Vec<char> = Vec::new();
    let mut i: usize = from;
    assert(out@ + word_start(s@.skip(i as int)) =~= word_start(s@.skip(i as int)));
    while i < n && !text::white_space(s[i])
        invariant
            i <= n,
            n == s@.len(),
            first_word(s@) == out@ + word_start(s@.skip(i as int)),
        decreases n - i,
    {
        let ghost was = out@;
        let ghost tail = s@.skip(i as int);
        assert(tail[0] == s@[i as int]);
        assert(tail.drop_first() =~= s@.skip(i as int + 1));
        out.push(s[i]);
        i = i + 1;
        assert(out@ + word_start(s@.skip(i as int)) =~= was + (seq![tail[0]] + word_start(
            s@.skip(i as int),
        )));
    }
    assert(word_start(s@.skip(i as int)) =~= Seq::<char>::empty());
    assert(out@ + Seq::<char>::empty() =~= out@);
    out
}

fn read_kilobytes(number: &[char]) -> (r: Option<u64>)
    ensures
        r == kilobytes(number@),
{
    match parse_number(number) {
        Some(kb) => {
            if kb > u64::MAX / 1024 {
                Some(u64::MAX)
            } else {
                Some(kb * 1024)
            }
        },
        None => None,
    }
}

/// The memory that a process uses, in bytes, by what `ps -o rss=` prints of it.
pub fn ps_bytes(output: &str) -> (r: Option<u64>)
    ensures
        r == kilobytes(text::trimmed(output@)),
{
    read_kilobytes(&text::trim(&text::chars_of(output)))
}

/// The memory that a process uses, in bytes, by its status.
pub fn rss_bytes(status: &str) -> (r: Option<u64>)
    ensures
        r == resident_bytes(status@),
{
    proof {
        reveal_strlit("VmRSS:");
    }
    let lines = text::split_lines(&text::chars_of(status));
    let label = text::chars_of("VmRSS:");
    let ghost all = text::rows(lines@);
    let mut i: usize = 0;
    assert(all.skip(0) =~= all);
    while i < lines.len()
        invariant
            i <= lines@.len(),
            all == text::rows(lines@),
            label@ == "VmRSS:"@,
            label@.len() == 6,
            bytes_in_lines(all) == bytes_in_lines(all.skip(i as int)),
            all == text::lines_of(status@),
        decreases lines.len() - i,
    {
        assert(all.skip(i as int)[0] == lines@[i as int]@);
        assert(all.skip(i as int).drop_first() =~= all.skip(i as int + 1));
        if text::starts_with(&lines[i], &label) {
            let rest = text::slice_of(&lines[i], 6, lines[i].len());
            assert(rest@ =~= lines@[i as int]@.skip(6));
            return read_kilobytes(&take_word(&rest));
        }
        i = i + 1;
    }
    None
}

/// What is known of a process that has been told to end.
#[derive(Clone, Copy, Debug, PartialEq, Eq, Structural)]
pub enum ProcessState {
    Running,
    Ended,
    /// The system does not tell.
    Unknown,
}

/// What is done about such a process next.
#[derive(Clone, Copy, Debug, PartialEq, Eq, Structural)]
pub enum ReapStep {
    /// Nothing more.
    Leave,
    /// Wait as many milliseconds, and look again.
    Sleep(u64),
    /// Kill it, and wait for its end.
    Kill,
}

/// How long it takes to look at a process again, in milliseconds.
pub const REAP_TICK: u64 = 5;

/// What is done about a process that has been told to end: it is waited for as
/// long as `timeout`, and then killed. `elapsed` is how long it has been waited
/// for; both are in milliseconds.
pub fn reap_step(child: ProcessState, elapsed: u64, timeout: u64) -> (r: ReapStep)
    ensures
        r == (match child {
            ProcessState::Ended | ProcessState::Unknown => ReapStep::Leave,
            ProcessState::Running => if elapsed < timeout {
                ReapStep::Sleep(REAP_TICK)
            } else {
                ReapStep::Kill
            },
        }),
{
    match child {
        ProcessState::Ended | ProcessState::Unknown => ReapStep::Leave,
        ProcessState::Running => {
            if elapsed < timeout {
                ReapStep::Sleep(REAP_TICK)
            } else {
                ReapStep::Kill
            }
        },
    }
}

/// The time limit in seconds that a setting asks for. Zero, and what is no
/// number, asks for none.
pub fn timeout_from_env(raw: Option<&str>) -> (r: Option<u64>)
    ensures
        match r {
            Some(secs) => secs > 0 && raw is Some && plain_number(raw.unwrap()@) == Some(
                secs as int,
            ),
            None => match raw {
                Some(s) => match plain_number(s@) {
                    Some(v) => v == 0 || v > u64::MAX,
                    None => true,
                },
                None => true,
            },
        },
{
    match raw {
        Some(s) => match parse_number(&text::chars_of(s)) {
            Some(0) => None,
            other => other,
        },
        None => None,
    }
}

/// Starts language servers for a workspace.
#[derive(Debug)]
pub struct StdioSpawn {
    pub root: String,
    /// How long a request may take, in milliseconds.
    pub timeout: u64,
}

impl StdioSpawn {
    /// `setting` is the time limit that the environment asks for, in seconds.
    pub fn new(root: String, setting: Option<&str>) -> (r: StdioSpawn)
        ensures
            r.root == root,
            r.timeout == (match setting {
                Some(s) => match plain_number(s@) {
                    Some(v) => if v == 0 || v > u64::MAX {
                        DEFAULT_TIMEOUT
                    } else if v * 1000 > u64::MAX {
                        u64::MAX
                    } else {
                        (v * 1000) as u64
                    },
                    None => DEFAULT_TIMEOUT,
                },
                None => DEFAULT_TIMEOUT,
            }),
    {
        let timeout = match timeout_from_env(setting) {
            Some(secs) => {
                if secs > u64::MAX / 1000 {
                    u64::MAX
                } else {
                    secs * 1000
                }
            },
            None => DEFAULT_TIMEOUT,
        };
        StdioSpawn { root, timeout }
    }

    pub fn with_timeout(self, timeout: u64) -> (r: StdioSpawn)
        ensures
            r.root == self.root,
            r.timeout == timeout,
    {
        StdioSpawn { root: self.root, timeout }
    }
}

// ---------------------------------------------------------------- receiving

/// What is to be done about a message from the server.
#[derive(Debug)]
pub enum Event {
    Nothing,
    /// The reply to a request goes to where it is waited for.
    Deliver(u64, Result<Json, LspError>),
    /// The server is answered.
    Answer(Json),
}

/// A table from URIs to diagnostics, with those of one document replaced.
pub open spec fn put(
    v: Seq<(Seq<char>, Seq<wire::Notice>)>,
    key: Seq<char>,
    found: Seq<wire::Notice>,
) -> Seq<(Seq<char>, Seq<wire::Notice>)>
    decreases v.len(),
{
    if v.len() == 0 {
        seq![(key, found)]
    } else if v[0].0 == key {
        seq![(key, found)] + v.drop_first()
    } else {
        seq![v[0]] + put(v.drop_first(), key, found)
    }
}

spec fn distinct_keys(v: Seq<(Seq<char>, Seq<wire::Notice>)>) -> bool {
    forall|i: int, j: int| 0 <= i < j < v.len() ==> (#[trigger] v[i]).0 != (#[trigger] v[j]).0
}

proof fn lemma_put(
    v: Seq<(Seq<char>, Seq<wire::Notice>)>,
    key: Seq<char>,
    found: Seq<wire::Notice>,
)
    ensures
        forall|k: int|
            0 <= k < put(v, key, found).len() ==> (#[trigger] put(v, key, found)[k]).0 == key || (
            k < v.len() && put(v, key, found)[k] == v[k]),
        distinct_keys(v) ==> distinct_keys(put(v, key, found)),
        put(v, key, found).len() >= v.len(),
        put(v, key, found).contains((key, found)),
    decreases v.len(),
{
    let out = put(v, key, found);
    if v.len() == 0 {
        assert(out[0] == (key, found));
    } else if v[0].0 == key {
        assert(out[0] == (key, found));
        assert forall|k: int| 0 < k < out.len() implies out[k] == v[k] by {}
    } else {
        let rest = v.drop_first();
        let tail = put(rest, key, found);
        lemma_put(rest, key, found);
        let at = choose|k: int| 0 <= k < tail.len() && tail[k] == (key, found);
        assert(out[at + 1] == (key, found));
        assert forall|k: int| 0 <= k < out.len() implies (#[trigger] out[k]).0 == key || (k
            < v.len() && out[k] == v[k]) by {
            if k > 0 {
                assert(out[k] == tail[k - 1]);
                if tail[k - 1].0 != key {
                    assert(tail[k - 1] == rest[k - 1]);
                }
            }
        }
        if distinct_keys(v) {
            assert(distinct_keys(rest)) by {
                assert forall|i: int, j: int| 0 <= i < j < rest.len() implies (#[trigger] rest[i]).0
                    != (#[trigger] rest[j]).0 by {
                    assert(v[i + 1].0 != v[j + 1].0);
                }
            }
            assert forall|i: int, j: int| 0 <= i < j < out.len() implies (#[trigger] out[i]).0 != (
            #[trigger] out[j]).0 by {
                assert(out[j] == tail[j - 1]);
                if i == 0 {
                    if tail[j - 1].0 != key {
                        assert(tail[j - 1] == rest[j - 1]);
                        assert(v[0].0 != v[j].0);
                    }
                } else {
                    assert(out[i] == tail[i - 1]);
                }
            }
        }
    }
}

/// What a token is called: a text by itself, anything else as it is written.
pub open spec fn token_name(token: Json) -> Seq<char> {
    match token {
        Json::Text(s) => s@,
        _ => codec::written(token),
    }
}

/// The kind of a report of progress.
pub open spec fn progress_kind(params: Json) -> Option<Seq<char>> {
    match json::field(params, "value"@) {
        Some(value) => json::text_in(json::field(value, "kind"@)),
        None => None,
    }
}

/// The connection after a report of progress.
pub open spec fn progressed(l: Link, params: Json) -> Link {
    match (json::field(params, "token"@), progress_kind(params)) {
        (Some(token), Some(kind)) => if kind == "begin"@ {
            Link {
                saw_progress: true,
                ready: false,
                active: with_name(l.active, token_name(token)),
                ..l
            }
        } else if kind == "end"@ {
            Link { active: without_name(l.active, token_name(token)), ..l }
        } else {
            l
        },
        _ => l,
    }
}

/// The parameters of a message.
pub open spec fn params_of(msg: Json) -> Json {
    match json::field(msg, "params"@) {
        Some(p) => p,
        None => Json::Null,
    }
}

/// The connection after a notification.
pub open spec fn notified(l: Link, method: Seq<char>, params: Json) -> Link {
    let a = if method == "$/progress"@ {
        progressed(l, params)
    } else {
        l
    };
    let b = match codec::published_read(params) {
        Some((key, found)) => if method == "textDocument/publishDiagnostics"@ {
            Link { published: put(a.published, key, found), ..a }
        } else {
            a
        },
        None => a,
    };
    if b.log.len() < MAX_NOTIFICATIONS {
        Link { log: b.log.push((method, json::shape(params))), ..b }
    } else {
        b
    }
}

/// `reply` is what a response says.
pub open spec fn is_reply(reply: Result<Json, LspError>, msg: Json) -> bool {
    match json::field(msg, "error"@) {
        Some(err) => if is_content_modified(json::field(err, "code"@)) {
            reply == Err::<Json, LspError>(LspError::ContentModified)
        } else {
            reply matches Err(LspError::Protocol(why)) && why@ == (match json::text_in(
                json::field(err, "message"@),
            ) {
                Some(m) => m,
                None => "language server returned an error"@,
            })
        },
        None => match json::field(msg, "result"@) {
            Some(value) => reply == Ok::<Json, LspError>(value),
            None => reply == Ok::<Json, LspError>(Json::Null),
        },
    }
}

/// The code of an error that asks for another attempt.
pub open spec fn is_content_modified(code: Option<Json>) -> bool {
    match code {
        Some(Json::Number(n)) => n@ == "-32801"@,
        _ => false,
    }
}

/// How many settings the server asks for.
pub open spec fn settings_asked(params: Json) -> nat {
    match json::list_in(json::field(params, "items"@)) {
        Some(items) => items.len(),
        None => 0,
    }
}

/// The workspace, as the server is told of it.
pub open spec fn folders_shape(workspace: Option<(String, String)>) -> json::Shape {
    match workspace {
        Some((uri, name)) => json::Shape::List(
            seq![
                json::Shape::Table(
                    seq![("uri"@, json::Shape::Text(uri@)), ("name"@, json::Shape::Text(name@))],
                ),
            ],
        ),
        None => json::Shape::Null,
    }
}

/// The result that a request of the server is answered with.
pub open spec fn answer_shape(
    method: Seq<char>,
    params: Json,
    workspace: Option<(String, String)>,
) -> json::Shape {
    if method == "workspace/configuration"@ {
        json::Shape::List(Seq::new(settings_asked(params), |i: int| json::Shape::Null))
    } else if method == "workspace/workspaceFolders"@ {
        folders_shape(workspace)
    } else if method == "workspace/applyEdit"@ {
        json::Shape::Table(seq![("applied"@, json::Shape::Bool(false))])
    } else if method == "window/showDocument"@ {
        json::Shape::Table(seq![("success"@, json::Shape::Bool(false))])
    } else {
        json::Shape::Null
    }
}

/// The workspace, as the server is told of it.
pub fn workspace_folders(workspace: &Option<(String, String)>) -> (r: Json)
    ensures
        json::shape(r) == folders_shape(*workspace),
{
    match workspace {
        Some((uri, name)) => json::list1(
            json::table2("uri", Json::text(uri.as_str()), "name", Json::text(name.as_str())),
        ),
        None => Json::Null,
    }
}

/// The result that a request of the server is answered with: settings are left
/// open, edits and documents are turned down.
pub fn reverse_request_result(
    method: &str,
    params: &Json,
    workspace: &Option<(String, String)>,
) -> (r: Json)
    ensures
        json::shape(r) == answer_shape(method@, *params, *workspace),
{
    if text::same(method, "workspace/configuration") {
        let n: usize = match params.list_at("items") {
            Some(items) => items.len(),
            None => 0,
        };
        let mut out: Vec<Json> = Vec::new();
        let mut i: usize = 0;
        while i < n
            invariant
                i <= n,
                out@.len() == i,
                forall|k: int| 0 <= k < i ==> #[trigger] out@[k] == Json::Null,
            decreases n - i,
        {
            out.push(Json::Null);
            i = i + 1;
        }
        assert(json::shapes(out@) =~= Seq::new(n as nat, |i: int| json::Shape::Null));
        Json::List(out)
    } else if text::same(method, "workspace/workspaceFolders") {
        workspace_folders(workspace)
    } else if text::same(method, "workspace/applyEdit") {
        json::table1("applied", Json::Bool(false))
    } else if text::same(method, "window/showDocument") {
        json::table1("success", Json::Bool(false))
    } else {
        Json::Null
    }
}

fn parse_reply(msg: Json) -> (r: Result<Json, LspError>)
    ensures
        is_reply(r, msg),
{
    if let Some(err) = msg.get("error") {
        if let Some(Json::Number(n)) = err.get("code") {
            if text::same(n.as_str(), "-32801") {
                return Err(LspError::ContentModified);
            }
        }
        return match err.text_at("message") {
            Some(m) => Err(LspError::Protocol(m)),
            None => Err(LspError::Protocol(String::from_str("language server returned an error"))),
        };
    }
    match msg.take("result") {
        Some(value) => Ok(value),
        None => Ok(Json::Null),
    }
}

/// The messages of a batch, in their order; any other message by itself.
pub fn split_batch(msg: Json) -> (r: Vec<Json>)
    ensures
        match msg {
            Json::List(items) => r == items,
            _ => r@ == seq![msg],
        },
{
    match msg {
        Json::List(items) => items,
        other => {
            let mut one: Vec<Json> = Vec::new();
            one.push(other);
            assert(one@ =~= seq![msg]);
            one
        },
    }
}

/// The messages that the bytes of a frame hold.
pub open spec fn messages_in(body: Seq<u8>) -> Seq<json::Shape> {
    match codec::json_read(body) {
        Some(json::Shape::List(items)) => items,
        Some(one) => seq![one],
        None => Seq::empty(),
    }
}

/// Reads the messages that the bytes of a frame hold. Bytes that are no JSON hold
/// none.
pub fn dispatch(body: &[u8]) -> (r: Vec<Json>)
    ensures
        json::shapes(r@) == messages_in(body@),
{
    match codec::read_json(body) {
        Some(msg) => {
            let ghost given = json::shape(msg);
            let r = split_batch(msg);
            assert(json::shapes(r@) =~= messages_in(body@));
            r
        },
        None => {
            let none: Vec<Json> = Vec::new();
            assert(json::shapes(none@) =~= Seq::empty());
            none
        },
    }
}

/// Writes a message as a frame.
pub fn message_frame(payload: &Json) -> (out: Vec<u8>)
    ensures
        out@ == frame::framed(vstd::utf8::encode_utf8(codec::written(*payload))),
{
    let body = codec::write_json(payload);
    frame::write_frame(body.as_str().as_bytes())
}

impl LspTransport {
    /// Follows what the server begins and ends.
    fn track_progress(&mut self, params: &Json)
        ensures
            final(self)@ == progressed(old(self)@, *params),
            same_server(*final(self), *old(self)),
            well_kept(old(self)@) ==> well_kept(final(self)@),
    {
        let ghost was = self@;
        let name = match params.get("token") {
            Some(Json::Text(s)) => s.clone(),
            Some(token) => codec::write_json(token),
            None => {
                return;
            },
        };
        let kind = match params.get("value") {
            Some(value) => value.text_at("kind"),
            None => None,
        };
        if let Some(kind) = kind {
            if text::same(kind.as_str(), "begin") {
                self.saw_progress = true;
                self.ready_confirmed = false;
                let ghost called = name@;
                if !text::has_string(&self.active, name.as_str()) {
                    self.active.push(name);
                    assert(self@.active =~= was.active.push(called));
                }
                assert(self@.active == with_name(was.active, called));
            } else if text::same(kind.as_str(), "end") {
                proof {
                    lemma_without_name(was.active, name@);
                }
                self.active = drop_name(&self.active, name.as_str());
            }
        }
    }

    /// Replaces the diagnostics of one document.
    fn publish(&mut self, key: String, found: Vec<Published>)
        ensures
            final(self)@ == (Link {
                published: put(old(self)@.published, key@, wire::notices(found@)),
                ..old(self)@
            }),
            same_server(*final(self), *old(self)),
            well_kept(old(self)@) ==> well_kept(final(self)@),
    {
        let ghost was = *self;
        let ghost all = self@.published;
        let ghost k = key@;
        let ghost f = wire::notices(found@);
        proof {
            lemma_put(all, k, f);
        }
        let mut i: usize = 0;
        assert(all.skip(0) =~= all);
        assert(all.take(0) + put(all, k, f) =~= put(all, k, f));
        while i < self.published.len() && !text::same(self.published[i].0.as_str(), key.as_str())
            invariant
                i <= self.published@.len(),
                *self == was,
                all == published_view(self.published@),
                k == key@,
                put(all, k, f) == all.take(i as int) + put(all.skip(i as int), k, f),
            decreases self.published.len() - i,
        {
            let ghost tail = all.skip(i as int);
            assert(tail[0] == all[i as int]);
            assert(all[i as int].0 == self.published@[i as int].0@);
            assert(tail.drop_first() =~= all.skip(i as int + 1));
            i = i + 1;
            assert(all.take(i as int) + put(all.skip(i as int), k, f) =~= all.take(i as int - 1) + (
            seq![tail[0]] + put(all.skip(i as int), k, f)));
        }
        let ghost tail = all.skip(i as int);
        if i < self.published.len() {
            assert(tail[0] == all[i as int]);
            assert(all[i as int].0 == self.published@[i as int].0@);
            self.published.set(i, (key, found));
            assert(self@.published =~= all.take(i as int) + (seq![(k, f)] + tail.drop_first()));
        } else {
            self.published.push((key, found));
            assert(tail =~= Seq::empty());
            assert(self@.published =~= all.take(i as int) + seq![(k, f)]);
        }
    }

    fn handle_notification(&mut self, method: String, params: Json)
        ensures
            final(self)@ == notified(old(self)@, method@, params),
            same_server(*final(self), *old(self)),
            well_kept(old(self)@) ==> well_kept(final(self)@),
    {
        if text::same(method.as_str(), "$/progress") {
            self.track_progress(&params);
        }
        if text::same(method.as_str(), "textDocument/publishDiagnostics") {
            if let Some((key, found)) = codec::read_published(&params) {
                self.publish(key, found);
            }
        }
        let ghost before = self@;
        assert(log_view(self.log@).len() == self.log@.len());
        if self.log.len() < MAX_NOTIFICATIONS {
            let ghost entry = (method@, json::shape(params));
            self.log.push((method, params));
            assert(self@.log =~= before.log.push(entry));
        }
    }

    /// Takes in one message: a request of the server is answered, what it tells is
    /// noted, and a reply is delivered once.
    pub fn receive(&mut self, msg: Json) -> (event: Event)
        ensures
            same_server(*final(self), *old(self)),
            well_kept(old(self)@) ==> well_kept(final(self)@),
            match (json::text_in(json::field(msg, "method"@)), json::field(msg, "id"@)) {
                (Some(method), Some(id)) => final(self)@ == old(self)@ && (
                event matches Event::Answer(answer) && json::shape(answer) == json::Shape::Table(
                    seq![
                        ("jsonrpc"@, json::Shape::Text("2.0"@)),
                        ("id"@, json::shape(id)),
                        ("result"@, answer_shape(method, params_of(msg), old(self).workspace)),
                    ],
                )),
                (Some(method), None) => event is Nothing && final(self)@ == notified(
                    old(self)@,
                    method,
                    params_of(msg),
                ),
                (None, Some(id)) => match id_in(id) {
                    Some(n) => if old(self)@.pending.contains(n) {
                        final(self)@ == (Link {
                            pending: without_id(old(self)@.pending, n),
                            ..old(self)@
                        }) && (event matches Event::Deliver(to, reply) && to == n && is_reply(
                            reply,
                            msg,
                        ))
                    } else {
                        event is Nothing && final(self)@ == old(self)@
                    },
                    None => event is Nothing && final(self)@ == old(self)@,
                },
                (None, None) => event is Nothing && final(self)@ == old(self)@,
            },
    {
        let method = msg.text_at("method");
        match method {
            Some(method) => {
                if let Some(id) = msg.get("id") {
                    let none = Json::Null;
                    let params = match msg.get("params") {
                        Some(p) => p,
                        None => &none,
                    };
                    let result = reverse_request_result(method.as_str(), params, &self.workspace);
                    let ghost given = json::shape(result);
                    let answer = json::table2("jsonrpc", Json::text("2.0"), "id", id.copy()).with(
                        "result",
                        result,
                    );
                    assert(seq![
                        ("jsonrpc"@, json::Shape::Text("2.0"@)),
                        ("id"@, json::shape(*id)),
                    ].push(("result"@, given)) =~= seq![
                        ("jsonrpc"@, json::Shape::Text("2.0"@)),
                        ("id"@, json::shape(*id)),
                        ("result"@, given),
                    ]);
                    return Event::Answer(answer);
                }
                let params = match msg.take("params") {
                    Some(p) => p,
                    None => Json::Null,
                };
                self.handle_notification(method, params);
                Event::Nothing
            },
            None => {
                let n = match msg.get("id") {
                    Some(id) => rpc_id_u64(id),
                    None => None,
                };
                match n {
                    Some(n) => {
                        if has_id(&self.pending, n) {
                            proof {
                                lemma_without_id(self@.pending, n);
                            }
                            self.pending = drop_id(&self.pending, n);
                            Event::Deliver(n, parse_reply(msg))
                        } else {
                            Event::Nothing
                        }
                    },
                    None => Event::Nothing,
                }
            },
        }
    }
}

// ---------------------------------------------------------------- readiness

/// A wait for a server to be done with its work. Times are in milliseconds.
#[derive(Debug)]
pub struct Watch {
    /// When the wait ends.
    pub until: u64,
    /// Until when the server may announce work.
    pub settle_until: u64,
    /// The server may still announce work.
    pub settling: bool,
    /// Since when the server has been quiet.
    pub quiet_since: Option<u64>,
}

/// What a wait does next.
#[derive(Clone, Copy, Debug, PartialEq, Eq, Structural)]
pub enum Poll {
    Ready,
    NotReady,
    Sleep,
}

/// The server may still announce work and has not.
pub open spec fn still_settling(w: Watch, l: Link, now: u64) -> bool {
    w.settling && !l.saw_progress && now < w.settle_until
}

/// The time for announcing work is over, and none was announced.
pub open spec fn has_no_work(w: Watch, l: Link, now: u64) -> bool {
    w.settling && !l.saw_progress && now >= w.settle_until
}

/// Since when the server has been quiet, as of now.
pub open spec fn quiet_from(w: Watch, l: Link, now: u64) -> Option<u64> {
    if l.active.len() > 0 {
        None
    } else {
        match w.quiet_since {
            Some(t) => Some(t),
            None => Some(now),
        }
    }
}

/// The server has been quiet for long enough.
pub open spec fn long_quiet(w: Watch, l: Link, now: u64) -> bool {
    quiet_from(w, l, now) matches Some(t) && now - t >= QUIET_PERIOD
}

/// What a wait does next.
pub open spec fn next_poll(w: Watch, l: Link, now: u64) -> Poll {
    if still_settling(w, l, now) {
        Poll::Sleep
    } else if has_no_work(w, l, now) || long_quiet(w, l, now) {
        Poll::Ready
    } else if now >= w.until {
        Poll::NotReady
    } else {
        Poll::Sleep
    }
}

impl LspTransport {
    /// Starts a wait of `deadline` milliseconds; none is needed for a server
    /// that was found to be ready.
    pub fn start_wait(&self, now: u64, deadline: u64) -> (r: Option<Watch>)
        requires
            now + deadline <= u64::MAX,
        ensures
            match r {
                Some(w) => !self@.ready && w.until == now + deadline && w.settle_until == now + (
                if deadline < SETTLE_WINDOW {
                    deadline
                } else {
                    SETTLE_WINDOW
                }) && w.settling && w.quiet_since is None,
                None => self@.ready,
            },
    {
        if self.ready_confirmed {
            return None;
        }
        let window: u64 = if deadline < SETTLE_WINDOW {
            deadline
        } else {
            SETTLE_WINDOW
        };
        Some(
            Watch {
                until: now + deadline,
                settle_until: now + window,
                settling: true,
                quiet_since: None,
            },
        )
    }

    /// Goes on with a wait. A server that announces no work in time is ready,
    /// and so is one that has been quiet for long enough: one look at a quiet
    /// server says little, also when time is up.
    pub fn poll_ready(&mut self, watch: &mut Watch, now: u64) -> (r: Poll)
        ensures
            r == next_poll(*old(watch), old(self)@, now),
            final(self)@ == (if r == Poll::Ready {
                Link { ready: true, ..old(self)@ }
            } else {
                old(self)@
            }),
            same_server(*final(self), *old(self)),
            well_kept(old(self)@) ==> well_kept(final(self)@),
            final(watch).until == old(watch).until,
            final(watch).settle_until == old(watch).settle_until,
            final(watch).settling == still_settling(*old(watch), old(self)@, now),
            r != Poll::Ready ==> final(watch).quiet_since == (if still_settling(
                *old(watch),
                old(self)@,
                now,
            ) {
                old(watch).quiet_since
            } else {
                quiet_from(*old(watch), old(self)@, now)
            }),
    {
        if watch.settling {
            if !self.saw_progress && now < watch.settle_until {
                return Poll::Sleep;
            }
            watch.settling = false;
            if !self.saw_progress {
                self.ready_confirmed = true;
                return Poll::Ready;
            }
        }
        let busy = self.is_busy();
        if busy {
            watch.quiet_since = None;
        } else {
            let since: u64 = match watch.quiet_since {
                Some(t) => t,
                None => now,
            };
            watch.quiet_since = Some(since);
            if now >= since && now - since >= QUIET_PERIOD {
                self.ready_confirmed = true;
                return Poll::Ready;
            }
        }
        if now >= watch.until {
            Poll::NotReady
        } else {
            Poll::Sleep
        }
    }
}

/// The pause between two looks at a server, in milliseconds.
pub fn poll_tick(deadline: u64) -> (r: u64)
    ensures
        r == (if deadline < 50 {
            deadline
        } else {
            50
        }),
{
    if deadline < 50 {
        deadline
    } else {
        50
    }
}

// -------------------------------------------------------------------- laws

/// A server that is dead stays dead, and nothing waits for it: no request is
/// made, and nothing that comes in late brings it back.
pub proof fn law_dead_stays_dead(
    l: Link,
    method: Seq<char>,
    exited: bool,
    id: Option<u64>,
    sent: Sent,
    params: Json,
)
    requires
        l.life == Life::Dead,
    ensures
        !admitted(l, method, exited),
        requested(l, method, exited) == l,
        handed_over(l, id, sent).life == Life::Dead,
        notified(l, method, params).life == Life::Dead,
        l.pending.len() == 0 ==> handed_over(l, id, sent).pending.len() == 0,
        notified(l, method, params).pending == l.pending,
{
}

/// Work that is begun makes the server busy and takes back that it was found to
/// be ready. Work that is ended no longer counts, and all other work still does.
pub proof fn law_progress_is_followed(l: Link, params: Json)
    requires
        json::field(params, "token"@) is Some,
    ensures
        ({
            let name = token_name(json::field(params, "token"@).unwrap());
            let after = progressed(l, params);
            &&& progress_kind(params) == Some("begin"@) ==> after.active.contains(name)
                && after.active.len() > 0 && after.saw_progress && !after.ready && forall|x|
                l.active.contains(x) ==> after.active.contains(x)
            &&& progress_kind(params) == Some("end"@) ==> !after.active.contains(name) && forall|x|
                x != name && l.active.contains(x) ==> after.active.contains(x)
        }),
{
    let name = token_name(json::field(params, "token"@).unwrap());
    let after = progressed(l, params);
    reveal_strlit("begin");
    reveal_strlit("end");
    if progress_kind(params) == Some("begin"@) && l.active.contains(name) {
        assert(after.active == l.active);
    }
    if progress_kind(params) == Some("begin"@) && !l.active.contains(name) {
        assert(after.active == l.active.push(name));
        assert(after.active[l.active.len() as int] == name);
        assert forall|x| l.active.contains(x) implies after.active.contains(x) by {
            let i = choose|i: int| 0 <= i < l.active.len() && l.active[i] == x;
            assert(after.active[i] == x);
        }
    }
    if progress_kind(params) == Some("end"@) {
        assert("end"@.len() != "begin"@.len());
        lemma_without_name(l.active, name);
        assert(after.active == without_name(l.active, name));
        assert forall|x| x != name && l.active.contains(x) implies after.active.contains(x) by {
            lemma_without_keeps(l.active, name, x);
        }
    }
}

pub(crate) proof fn lemma_without_keeps(names: Seq<Seq<char>>, name: Seq<char>, x: Seq<char>)
    requires
        names.contains(x),
        x != name,
    ensures
        without_name(names, name).contains(x),
    decreases names.len(),
{
    let whole = without_name(names, name);
    if names.last() == x {
        assert(whole[whole.len() - 1] == x);
    } else {
        let front = names.drop_last();
        let i = choose|i: int| 0 <= i < names.len() && names[i] == x;
        assert(front[i] == x);
        lemma_without_keeps(front, name, x);
        let rest = without_name(front, name);
        let k = choose|k: int| 0 <= k < rest.len() && rest[k] == x;
        assert(whole[k] == x);
    }
}

/// Whatever waits was numbered before.
pub open spec fn numbered(l: Link) -> bool {
    forall|id: u64| #[trigger] l.pending.contains(id) ==> id < l.next_id
}

proof fn lemma_without_numbered(l: Link, n: u64)
    requires
        numbered(l),
    ensures
        numbered(Link { pending: without_id(l.pending, n), ..l }),
{
    lemma_without_id(l.pending, n);
    assert forall|x: u64| #[trigger] without_id(l.pending, n).contains(x) implies x < l.next_id by {
        if x != n {
            assert(l.pending.contains(x));
        }
    }
}

/// A request has a number of its own among those that wait, until the numbers run
/// out, whatever else happens in between.
pub proof fn law_requests_have_their_own_numbers(
    l: Link,
    method: Seq<char>,
    exited: bool,
    id: Option<u64>,
    sent: Sent,
    waited: Waited,
    n: u64,
    params: Json,
)
    requires
        numbered(l),
        l.next_id < u64::MAX,
    ensures
        !l.pending.contains(l.next_id),
        numbered(requested(l, method, exited)),
        numbered(handed_over(l, id, sent)),
        numbered(settled(l, n, waited)),
        numbered(notified(l, method, params)),
        numbered(Link { pending: without_id(l.pending, n), ..l }),
        numbered(died(l)),
{
    lemma_without_numbered(l, n);
    if let Some(m) = id {
        lemma_without_numbered(l, m);
    }
    assert forall|x: u64| #[trigger]
        requested(l, method, exited).pending.contains(x) implies x < requested(
        l,
        method,
        exited,
    ).next_id by {
        let m = looked_after(l, method, exited);
        if admitted(l, method, exited) && !m.pending.contains(m.next_id) {
            let all = m.pending.push(m.next_id);
            let i = choose|i: int| 0 <= i < all.len() && all[i] == x;
            if i < m.pending.len() {
                assert(m.pending[i] == x);
                assert(m.pending.contains(x));
                assert(l.pending.contains(x));
            }
        }
    }
}

/// A wait ends when its time is up. A server that has announced work counts as
/// ready only while it has none and has been seen to have none for long enough.
pub proof fn law_waits_end(w: Watch, l: Link, now: u64)
    requires
        w.settle_until <= w.until,
    ensures
        now >= w.until ==> next_poll(w, l, now) != Poll::Sleep,
        next_poll(w, l, now) == Poll::Ready && l.saw_progress ==> l.active.len() == 0 && (
        w.quiet_since matches Some(t) && now - t >= QUIET_PERIOD),
        next_poll(w, l, now) == Poll::NotReady ==> now >= w.until,
{
}

/// A reply is delivered once: it takes the request off those that wait, so the
/// same reply has nobody to go to when it comes again.
pub proof fn law_replies_are_delivered_once(l: Link, n: u64)
    ensures
        !without_id(l.pending, n).contains(n),
        forall|x: u64|
            x != n ==> (without_id(l.pending, n).contains(x) <==> l.pending.contains(x)),
{
    lemma_without_id(l.pending, n);
}

} // verus!
