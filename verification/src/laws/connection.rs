//! Connections to language servers, and how long servers are kept.

use crate::laws;
use crate::lsp;
use crate::lsp::json;
use crate::lsp::json::{Json, Shape};
use crate::lsp::pool;
use crate::lsp::pool::{LspPoolConfig, Slot, StartFailure};
use crate::lsp::session;
use crate::lsp::session::LspSession;
use crate::lsp::transport;
use crate::lsp::transport::{Life, Link, Poll, ProcessState, ReapStep, Sent, Waited, Watch};
use crate::lsp::wire;
use crate::lsp::wire::Published;
use crate::lsp::{Diagnostic, LspError, Position, ServerSpec};
use crate::text;
use crate::types::{Language, RelPath};
use vstd::prelude::*;

verus! {

// ------------------------------------------------------------------ requests

/// A running server takes every request, one that has exited only that to shut
/// down, one that was shut down only that once more, and a dead one none.
pub proof fn law_requests_need_a_server(l: Link, method: Seq<char>, exited: bool)
    ensures
        transport::admitted(l, method, exited) <==> match l.life {
            Life::Running => !exited || method == "shutdown"@,
            Life::Shutdown => method == "shutdown"@,
            Life::Dead => false,
        },
{
}

/// A request that is made waits for its reply, with everything that waited before,
/// unless the server turns out to have exited; the next one has the next number.
pub proof fn law_made_requests_wait(l: Link, method: Seq<char>, exited: bool, x: u64)
    ensures
        ({
            let after = transport::requested(l, method, exited);
            &&& transport::admitted(l, method, exited) ==> after.pending.contains(l.next_id)
            &&& transport::admitted(l, method, exited) && l.next_id < u64::MAX ==> after.next_id
                == l.next_id + 1
            &&& transport::admitted(l, method, exited) && !exited ==> (after.pending.contains(x)
                <==> x == l.next_id || l.pending.contains(x))
            &&& !exited ==> after.life == l.life
            &&& exited && l.life is Running ==> after.life is Dead && !(x != l.next_id
                && after.pending.contains(x))
            &&& !transport::admitted(l, method, exited) && !exited ==> after == l
            &&& after.active == l.active && after.log == l.log && after.published == l.published
        }),
{
    let m = transport::looked_after(l, method, exited);
    let ids = transport::with_id(m.pending, m.next_id);
    if !m.pending.contains(m.next_id) {
        assert(ids[ids.len() - 1] == m.next_id);
        if m.pending.contains(x) {
            let k = choose|k: int| 0 <= k < m.pending.len() && m.pending[k] == x;
            assert(ids[k] == x);
        }
    }
}

/// A message that could not be written ends the connection; one without a pipe only
/// takes its own request back; one that was written changes nothing.
pub proof fn law_broken_pipes_end_the_connection(l: Link, id: Option<u64>, x: u64)
    ensures
        transport::handed_over(l, id, Sent::Written) == l,
        transport::handed_over(l, id, Sent::Broken).life is Dead,
        transport::handed_over(l, id, Sent::Broken).pending.len() == 0,
        transport::handed_over(l, id, Sent::NoPipe).life == l.life,
        transport::handed_over(l, id, Sent::NoPipe).pending.contains(x) <==> l.pending.contains(x)
            && id != Some(x),
{
    if let Some(n) = id {
        transport::law_replies_are_delivered_once(l, n);
    }
}

/// A request that ran out of time no longer waits, and every other still does.
pub proof fn law_late_requests_stop_waiting(l: Link, id: u64, waited: Waited, x: u64)
    ensures
        waited is TimedOut ==> (transport::settled(l, id, waited).pending.contains(x)
            <==> l.pending.contains(x) && x != id),
        !(waited is TimedOut) ==> transport::settled(l, id, waited) == l,
        transport::settled(l, id, waited).life == l.life,
{
    transport::law_replies_are_delivered_once(l, id);
}

/// A request is made four times at most, and again only where the document changed
/// in between.
pub proof fn law_requests_are_made_four_times_at_most(
    attempt: u32,
    reply: &Result<Json, LspError>,
    r: bool,
)
    requires
        call_ensures(transport::should_retry, (attempt, reply), r),
    ensures
        r <==> attempt < 3 && (reply matches Err(e) && e is ContentModified),
{
}

/// A server that is gone or too slow counts as shut down; any other failure does
/// not.
pub proof fn law_gone_servers_are_shut_down(
    reply: Result<Json, LspError>,
    r: Result<(), LspError>,
)
    requires
        call_ensures(transport::shutdown_outcome, (reply,), r),
    ensures
        r is Ok <==> (reply matches Err(e) ==> e is Crashed || e is Timeout),
        r matches Err(e) ==> reply == Err::<Json, LspError>(e),
{
}

/// A program that is missing is reported as missing, with how to install it; any
/// other failure as a failure to start.
pub proof fn law_missing_programs_are_unavailable(
    server: &ServerSpec,
    not_found: bool,
    why: &str,
    r: LspError,
)
    requires
        call_ensures(transport::start_error, (server, not_found, why), r),
    ensures
        not_found <==> r is Unavailable,
        !not_found <==> r is Startup,
        r matches LspError::Unavailable(l, hint) ==> l == server.language && hint@
            == server.install_hint@,
        r matches LspError::Startup(l, text) ==> l == server.language && text@ == why@,
{
}

// ----------------------------------------------------------------- messages

/// A request comes back to the one that made it: the number that it carries is
/// read as its own, written as a number or as a text.
pub proof fn law_numbers_come_back(id: u64, j: &Json, s: String, r: Option<u64>)
    requires
        call_ensures(transport::rpc_id_u64, (j,), r),
        s@ == text::decimal(id as nat) || s@ == seq!['+'] + text::decimal(id as nat),
        *j == Json::Text(s) || (*j == Json::Number(s) && s@ == text::decimal(id as nat)),
    ensures
        r == Some(id),
{
    laws::text::law_numbers_read_back(id as nat);
    let digits = text::decimal(id as nat);
    let signed = seq!['+'] + digits;
    assert(signed.drop_first() =~= digits);
    assert(text::is_digit(digits[0]));
}

/// What is no number is the number of no request.
pub proof fn law_only_numbers_are_numbers(j: &Json, r: Option<u64>)
    requires
        call_ensures(transport::rpc_id_u64, (j,), r),
        j is Null || j is Bool || j is List || j is Table,
    ensures
        r is None,
{
}

/// The field of a table with this name.
pub open spec fn has_part(s: Shape, name: Seq<char>, value: Shape) -> bool {
    s matches Shape::Table(fields) && exists|k: int|
        0 <= k < fields.len() && (#[trigger] fields[k]).0 == name && fields[k].1 == value
}

/// A request says which one it is, what it asks for and of what.
pub proof fn law_requests_say_what_they_ask(id: u64, method: &str, params: Json, r: Json)
    requires
        call_ensures(transport::rpc_request, (id, method, params), r),
    ensures
        has_part(json::shape(r), "jsonrpc"@, Shape::Text("2.0"@)),
        has_part(json::shape(r), "id"@, Shape::Number(text::decimal(id as nat))),
        has_part(json::shape(r), "method"@, Shape::Text(method@)),
        has_part(json::shape(r), "params"@, json::shape(params)),
{
    let fields = json::shape(r)->Table_0;
    assert(fields[0].0 == "jsonrpc"@);
    assert(fields[1].0 == "id"@);
    assert(fields[2].0 == "method"@);
    assert(fields[3].0 == "params"@);
}

/// A notification says what it is about, and has no number: nothing comes back.
pub proof fn law_notifications_have_no_number(method: &str, params: Json, r: Json, k: int)
    requires
        call_ensures(transport::rpc_notification, (method, params), r),
    ensures
        has_part(json::shape(r), "jsonrpc"@, Shape::Text("2.0"@)),
        has_part(json::shape(r), "method"@, Shape::Text(method@)),
        !(params is Null) ==> has_part(json::shape(r), "params"@, json::shape(params)),
        json::shape(r) is Table,
        0 <= k < json::shape(r)->Table_0.len() ==> json::shape(r)->Table_0[k].0 != "id"@,
{
    reveal_strlit("jsonrpc");
    reveal_strlit("method");
    reveal_strlit("params");
    reveal_strlit("id");
    let fields = json::shape(r)->Table_0;
    assert(fields[0].0 == "jsonrpc"@);
    assert(fields[1].0 == "method"@);
    if !(params is Null) {
        assert(fields[2].0 == "params"@);
    }
    assert("id"@.len() == 2 && "jsonrpc"@.len() == 7 && "method"@.len() == 6 && "params"@.len()
        == 6);
}

/// A response without an error gives its result, or nothing where it has none. One
/// with an error fails: the one that says that the content was modified so, and any
/// other with its message.
pub proof fn law_responses_give_their_result(
    msg: Json,
    reply: Result<Json, LspError>,
    v: Json,
    err: Json,
    code: String,
)
    requires
        transport::is_reply(reply, msg),
    ensures
        laws::wire::lacks(msg, "error"@) && laws::wire::under(msg, "result"@, v) ==> reply == Ok::<
            Json,
            LspError,
        >(v),
        laws::wire::lacks(msg, "error"@) && laws::wire::lacks(msg, "result"@) ==> reply == Ok::<
            Json,
            LspError,
        >(Json::Null),
        laws::wire::under(msg, "error"@, err) ==> reply is Err,
        laws::wire::under(msg, "error"@, err) && laws::wire::under(
            err,
            "code"@,
            Json::Number(code),
        ) && code@ == "-32801"@ ==> (reply matches Err(e) && e is ContentModified),
        laws::wire::under(msg, "error"@, err) && laws::wire::lacks(err, "code"@) ==> (
        reply matches Err(e) && e is Protocol),
        laws::wire::under(msg, "error"@, err) && laws::wire::under(
            err,
            "code"@,
            Json::Number(code),
        ) && code@ != "-32801"@ ==> (reply matches Err(e) && e is Protocol),
        forall|s: String|
            laws::wire::under(msg, "error"@, err) && #[trigger] laws::wire::under(
                err,
                "message"@,
                Json::Text(s),
            ) ==> (reply matches Err(LspError::Protocol(why)) ==> why@ == s@),
{
    laws::wire::lemma_field(msg, "error"@, err);
    laws::wire::lemma_field(msg, "result"@, v);
    laws::wire::lemma_field(err, "code"@, Json::Number(code));
    assert forall|s: String|
        laws::wire::under(msg, "error"@, err) && #[trigger] laws::wire::under(
            err,
            "message"@,
            Json::Text(s),
        ) implies (reply matches Err(LspError::Protocol(why)) ==> why@ == s@) by {
        laws::wire::lemma_field(err, "message"@, Json::Text(s));
    }
}

/// A request of the server that this side has no answer to is answered with
/// nothing; edits and documents are turned down; and as many settings are left open
/// as were asked for.
pub proof fn law_servers_change_nothing(
    method: &str,
    params: &Json,
    workspace: &Option<(String, String)>,
    r: Json,
    items: Vec<Json>,
)
    requires
        call_ensures(transport::reverse_request_result, (method, params, workspace), r),
    ensures
        method@ == "workspace/applyEdit"@ ==> has_part(
            json::shape(r),
            "applied"@,
            Shape::Bool(false),
        ),
        method@ == "window/showDocument"@ ==> has_part(
            json::shape(r),
            "success"@,
            Shape::Bool(false),
        ),
        method@ == "workspace/configuration"@ && laws::wire::under(
            *params,
            "items"@,
            Json::List(items),
        ) ==> (json::shape(r) matches Shape::List(out) && out.len() == items@.len() && forall|
            k: int,
        |
            0 <= k < out.len() ==> (#[trigger] out[k]) is Null),
        method@ == "client/registerCapability"@ ==> json::shape(r) is Null,
{
    laws::wire::lemma_field(*params, "items"@, Json::List(items));
    reveal_strlit("workspace/applyEdit");
    reveal_strlit("window/showDocument");
    reveal_strlit("workspace/configuration");
    reveal_strlit("workspace/workspaceFolders");
    reveal_strlit("client/registerCapability");
    assert("workspace/applyEdit"@.len() == 19 && "window/showDocument"@.len() == 19
        && "workspace/configuration"@.len() == 23 && "workspace/workspaceFolders"@.len() == 26
        && "client/registerCapability"@.len() == 25);
    assert("workspace/applyEdit"@[1] == 'o' && "window/showDocument"@[1] == 'i');
    if method@ == "workspace/applyEdit"@ {
        assert(json::shape(r)->Table_0[0].0 == "applied"@);
    }
    if method@ == "window/showDocument"@ {
        assert(json::shape(r)->Table_0[0].0 == "success"@);
    }
}

proof fn lemma_put(
    v: Seq<(Seq<char>, Seq<wire::Notice>)>,
    key: Seq<char>,
    found: Seq<wire::Notice>,
    other: Seq<char>,
)
    ensures
        session::entry(transport::put(v, key, found), key) == Some(found),
        other != key ==> session::entry(transport::put(v, key, found), other) == session::entry(
            v,
            other,
        ),
    decreases v.len(),
{
    let after = transport::put(v, key, found);
    if v.len() > 0 {
        assert(after.drop_first() =~= if v[0].0 == key {
            v.drop_first()
        } else {
            transport::put(v.drop_first(), key, found)
        });
        lemma_put(v.drop_first(), key, found, other);
    } else {
        assert(after.drop_first() =~= Seq::<(Seq<char>, Seq<wire::Notice>)>::empty());
        assert(session::entry(after.drop_first(), other) is None);
    }
}

/// What a server publishes of a document takes the place of what it published of it
/// before, and leaves all other documents alone. The first notifications are kept.
pub proof fn law_published_diagnostics_replace_earlier_ones(
    l: Link,
    params: Json,
    method: Seq<char>,
    other: Seq<char>,
)
    ensures
        ({
            let after = transport::notified(l, method, params);
            &&& method == "textDocument/publishDiagnostics"@ ==> (
            lsp::codec::published_read(params) matches Some((key, found)) ==> session::entry(
                after.published,
                key,
            ) == Some(found) && (other != key ==> session::entry(after.published, other)
                == session::entry(l.published, other)))
            &&& method != "textDocument/publishDiagnostics"@ ==> after.published == l.published
            &&& method != "$/progress"@ ==> after.active == l.active && after.saw_progress
                == l.saw_progress && after.ready == l.ready
            &&& l.log.len() < 64 ==> after.log == l.log.push((method, json::shape(params)))
            &&& l.log.len() >= 64 ==> after.log == l.log
            &&& after.pending == l.pending && after.next_id == l.next_id
        }),
{
    if let Some((key, found)) = lsp::codec::published_read(params) {
        lemma_put(l.published, key, found, other);
        reveal_strlit("textDocument/publishDiagnostics");
        reveal_strlit("$/progress");
        assert("textDocument/publishDiagnostics"@.len() == 31 && "$/progress"@.len() == 10);
    }
}

/// Work that a server begins is under way until it ends it; nothing else changes
/// what is under way.
pub proof fn law_work_is_under_way_until_it_ends(
    l: Link,
    params: Json,
    token: String,
    value: Json,
    kind: String,
    x: Seq<char>,
)
    requires
        laws::wire::under(params, "token"@, Json::Text(token)),
        laws::wire::under(params, "value"@, value),
        laws::wire::under(value, "kind"@, Json::Text(kind)),
    ensures
        ({
            let after = transport::progressed(l, params);
            &&& kind@ == "begin"@ ==> (after.active.contains(x) <==> l.active.contains(x) || x
                == token@) && after.saw_progress && !after.ready
            &&& kind@ == "end"@ ==> (after.active.contains(x) <==> l.active.contains(x) && x
                != token@)
            &&& kind@ != "begin"@ && kind@ != "end"@ ==> after == l
        }),
{
    laws::wire::lemma_field(params, "token"@, Json::Text(token));
    laws::wire::lemma_field(params, "value"@, value);
    laws::wire::lemma_field(value, "kind"@, Json::Text(kind));
    reveal_strlit("begin");
    reveal_strlit("end");
    assert("begin"@.len() == 5 && "end"@.len() == 3);
    let name = token@;
    let with = transport::with_name(l.active, name);
    if !l.active.contains(name) {
        assert(with[with.len() - 1] == name);
        if l.active.contains(x) {
            let k = choose|k: int| 0 <= k < l.active.len() && l.active[k] == x;
            assert(with[k] == x);
        }
    }
    transport::lemma_without_name(l.active, name);
    if l.active.contains(x) && x != name {
        transport::lemma_without_keeps(l.active, name, x);
    }
    assert(transport::without_name(l.active, name).contains(x) ==> x != name);
}

// ---------------------------------------------------------------- readiness

/// A wait is over when the server has announced no work within three seconds, or
/// has been quiet for one; a server that is at work is not ready.
pub proof fn law_quiet_servers_are_ready(w: Watch, l: Link, now: u64)
    ensures
        w.settling && !l.saw_progress && now < w.settle_until ==> transport::next_poll(w, l, now)
            == Poll::Sleep,
        w.settling && !l.saw_progress && now >= w.settle_until ==> transport::next_poll(w, l, now)
            == Poll::Ready,
        (!w.settling || l.saw_progress) && l.active.len() > 0 ==> transport::next_poll(w, l, now)
            == (if now < w.until {
            Poll::Sleep
        } else {
            Poll::NotReady
        }),
        (!w.settling || l.saw_progress) && l.active.len() == 0 && (w.quiet_since matches Some(t)
            && t + 1000 <= now) ==> transport::next_poll(w, l, now) == Poll::Ready,
        (!w.settling || l.saw_progress) && l.active.len() == 0 && (w.quiet_since matches Some(t)
            ==> t + 1000 > now) ==> transport::next_poll(w, l, now) != Poll::Ready,
{
}

/// A wait is over when it was to be over, and a server may announce work for three
/// seconds of it, or for all of it if that is less. One that is ready is not waited
/// for.
pub proof fn law_waits_begin_with_three_seconds(
    t: &transport::LspTransport,
    now: u64,
    deadline: u64,
    r: Option<Watch>,
)
    requires
        call_ensures(transport::LspTransport::start_wait, (t, now, deadline), r),
    ensures
        r is None <==> t.ready_confirmed,
        r matches Some(w) ==> {
            &&& w.until == now + deadline
            &&& w.settle_until <= w.until
            &&& w.settle_until <= now + 3000
            &&& w.settle_until == w.until || w.settle_until == now + 3000
            &&& w.settling
            &&& w.quiet_since is None
        },
{
}

/// A batch of messages is taken apart; any other message stands for itself.
pub proof fn law_batches_are_taken_apart(msg: Json, r: Vec<Json>)
    requires
        call_ensures(transport::split_batch, (msg,), r),
    ensures
        msg matches Json::List(items) ==> r@ == items@,
        !(msg is List) ==> r@.len() == 1 && r@[0] == msg,
{
}

/// Looks at a server are fifty milliseconds apart at most, and no further apart
/// than the wait is long.
pub proof fn law_looks_are_close(deadline: u64, r: u64)
    requires
        call_ensures(transport::poll_tick, (deadline,), r),
    ensures
        r <= 50,
        r <= deadline,
        r == 50 || r == deadline,
{
}

// ------------------------------------------------------------------ processes

/// A process that has been told to end is waited for as long as it may take, and
/// then killed; one that has ended, or that nothing is known of, is left alone.
pub proof fn law_processes_are_given_time_to_end(
    child: ProcessState,
    elapsed: u64,
    timeout: u64,
    r: ReapStep,
)
    requires
        call_ensures(transport::reap_step, (child, elapsed, timeout), r),
    ensures
        r is Kill <==> child is Running && elapsed >= timeout,
        r is Sleep <==> child is Running && elapsed < timeout,
        r is Leave <==> !(child is Running),
        r matches ReapStep::Sleep(ms) ==> 0 < ms <= 5,
{
}

proof fn lemma_bytes(lines: Seq<Seq<char>>, k: int)
    requires
        0 <= k < lines.len(),
        text::stands_at(lines[k], "VmRSS:"@, 0),
        forall|i: int| 0 <= i < k ==> !text::stands_at(#[trigger] lines[i], "VmRSS:"@, 0),
    ensures
        transport::bytes_in_lines(lines) == transport::bytes_in_line(lines[k].skip(6)),
    decreases lines.len(),
{
    if k > 0 {
        assert(!text::stands_at(lines[0], "VmRSS:"@, 0));
        let rest = lines.drop_first();
        assert(rest[k - 1] == lines[k]);
        assert forall|i: int| 0 <= i < k - 1 implies !text::stands_at(
            #[trigger] rest[i],
            "VmRSS:"@,
            0,
        ) by {
            assert(rest[i] == lines[i + 1]);
        }
        lemma_bytes(rest, k - 1);
    }
}

proof fn lemma_word(blank: Seq<char>, word: Seq<char>, tail: Seq<char>)
    requires
        laws::churn::is_blank(blank),
        word.len() > 0,
        forall|k: int| 0 <= k < word.len() ==> !text::is_white_space(#[trigger] word[k]),
        tail.len() == 0 || text::is_white_space(tail[0]),
    ensures
        transport::first_word(blank + word + tail) == word,
    decreases blank.len(),
{
    let whole = blank + word + tail;
    if blank.len() > 0 {
        assert(text::is_white_space(blank[0]));
        assert(whole[0] == blank[0]);
        let rest = blank.drop_first();
        assert forall|k: int| 0 <= k < rest.len() implies text::is_white_space(
            #[trigger] rest[k],
        ) by {
            assert(rest[k] == blank[k + 1]);
        }
        assert(whole.drop_first() =~= rest + word + tail);
        lemma_word(rest, word, tail);
    } else {
        assert(whole =~= word + tail);
        assert(whole[0] == word[0]);
        assert(!text::is_white_space(word[0]));
        lemma_word_start(word, tail);
    }
}

proof fn lemma_word_start(word: Seq<char>, tail: Seq<char>)
    requires
        forall|k: int| 0 <= k < word.len() ==> !text::is_white_space(#[trigger] word[k]),
        tail.len() == 0 || text::is_white_space(tail[0]),
    ensures
        transport::word_start(word + tail) == word,
    decreases word.len(),
{
    let whole = word + tail;
    if word.len() > 0 {
        assert(!text::is_white_space(word[0]));
        let rest = word.drop_first();
        assert forall|k: int| 0 <= k < rest.len() implies !text::is_white_space(
            #[trigger] rest[k],
        ) by {
            assert(rest[k] == word[k + 1]);
        }
        assert(whole.drop_first() =~= rest + tail);
        lemma_word_start(rest, tail);
        assert(seq![word[0]] + rest =~= word);
    } else {
        assert(whole =~= tail);
        assert(word =~= Seq::<char>::empty());
    }
}

/// The memory of a process is what the first line for it in its status says, in
/// kilobytes, and so is what `ps` prints.
pub proof fn law_memory_is_told_in_kilobytes(
    status: &str,
    r: Option<u64>,
    output: &str,
    p: Option<u64>,
    k: int,
    blank: Seq<char>,
    kb: u64,
    tail: Seq<char>,
)
    requires
        call_ensures(transport::rss_bytes, (status,), r),
        call_ensures(transport::ps_bytes, (output,), p),
        kb <= 0x3f_ffff_ffff_ffff,
        laws::churn::is_blank(blank),
        tail.len() == 0 || text::is_white_space(tail[0]),
        0 <= k < text::lines_of(status@).len(),
        text::lines_of(status@)[k] == "VmRSS:"@ + (blank + text::decimal(kb as nat) + tail),
        forall|i: int|
            0 <= i < k ==> !text::stands_at(#[trigger] text::lines_of(status@)[i], "VmRSS:"@, 0),
        output@ == blank + text::decimal(kb as nat) + blank,
    ensures
        r == Some((kb * 1024) as u64),
        p == Some((kb * 1024) as u64),
{
    let digits = text::decimal(kb as nat);
    laws::text::law_numbers_read_back(kb as nat);
    reveal_strlit("VmRSS:");
    let line = text::lines_of(status@)[k];
    assert(line.subrange(0, 6) =~= "VmRSS:"@);
    lemma_bytes(text::lines_of(status@), k);
    assert(line.skip(6) =~= blank + digits + tail);
    assert forall|i: int| 0 <= i < digits.len() implies !text::is_white_space(
        #[trigger] digits[i],
    ) by {
        assert(text::is_digit(digits[i]));
    }
    lemma_word(blank, digits, tail);
    laws::churn::lemma_trimmed(blank, digits, blank);
    assert(text::is_digit(digits[0]));
    assert(kb * 1024 <= u64::MAX);
}

/// A time limit is set by a whole number of seconds that is not zero.
pub proof fn law_time_limits_are_whole_seconds(raw: &str, r: Option<u64>, n: u64)
    requires
        call_ensures(transport::timeout_from_env, (Some(raw),), r),
    ensures
        raw@ == text::decimal(n as nat) && n > 0 ==> r == Some(n),
        raw@ == text::decimal(0) ==> r is None,
        laws::churn::is_blank(raw@) ==> r is None,
{
    laws::text::law_numbers_read_back(n as nat);
    laws::text::law_numbers_read_back(0);
    assert(text::is_digit(text::decimal(n as nat)[0]));
    assert(text::is_digit(text::decimal(0)[0]));
    if laws::churn::is_blank(raw@) && raw@.len() > 0 {
        assert(text::is_white_space(raw@[0]));
        assert(!text::is_digit(raw@[0]));
    }
}

// --------------------------------------------------------------------- pools

/// A server is stopped for its memory where it reaches the hard limit, or the soft
/// one while it is not at work. Limits of zero, and memory that is not known, stop
/// none.
pub proof fn law_memory_limits_stop_servers(
    config: &LspPoolConfig,
    memory: Option<u64>,
    busy: bool,
    r: bool,
)
    requires
        call_ensures(pool::memory_over_budget, (config, memory, busy), r),
    ensures
        memory is None ==> !r,
        memory matches Some(n) && config.memory_hard_limit_bytes > 0 && n
            >= config.memory_hard_limit_bytes ==> r,
        memory matches Some(n) && !busy && config.memory_limit_bytes > 0 && n
            >= config.memory_limit_bytes ==> r,
        r && busy ==> config.memory_hard_limit_bytes > 0 && memory.unwrap()
            >= config.memory_hard_limit_bytes,
        r ==> (config.memory_hard_limit_bytes > 0 && memory.unwrap()
            >= config.memory_hard_limit_bytes) || (config.memory_limit_bytes > 0
            && memory.unwrap() >= config.memory_limit_bytes),
{
}

/// A server is stopped where it has been idle for as long as it may or uses too
/// much memory, and the reason says which.
pub proof fn law_reasons_say_why_servers_stop(
    config: &LspPoolConfig,
    idle: u64,
    memory: Option<u64>,
    busy: bool,
    over: bool,
    r: bool,
    why: &'static str,
)
    requires
        call_ensures(pool::memory_over_budget, (config, memory, busy), over),
        call_ensures(pool::should_reclaim, (config, idle, memory, busy), r),
        call_ensures(pool::reclaim_reason, (config, idle, memory, busy), why),
    ensures
        r <==> over || (config.idle_ttl > 0 && idle >= config.idle_ttl),
        why@ == "none"@ <==> !r,
        why@ == "memory"@ <==> over && !(config.idle_ttl > 0 && idle >= config.idle_ttl),
        why@ == "idle"@ <==> !over && config.idle_ttl > 0 && idle >= config.idle_ttl,
{
    reveal_strlit("none");
    reveal_strlit("memory");
    reveal_strlit("idle");
    reveal_strlit("idle+memory");
    assert("none"@.len() == 4 && "memory"@.len() == 6 && "idle"@.len() == 4 && "idle+memory"@.len()
        == 11);
    assert("none"@[0] == 'n' && "idle"@[0] == 'i');
}

/// What went wrong with a start is said again as it was, of the language that is
/// asked for; where the content was modified, as a failure that is not tried again.
pub proof fn law_failures_are_said_again(f: &StartFailure, language: Language, r: LspError)
    requires
        call_ensures(StartFailure::to_error, (f, language), r),
    ensures
        f.error is Unavailable <==> r is Unavailable,
        f.error is Startup <==> r is Startup,
        f.error is Timeout || f.error is Protocol || f.error is Crashed ==> r == f.error,
        f.error is ContentModified ==> r is Protocol,
        r matches LspError::Unavailable(l, why) ==> l == language && why@
            == f.error->Unavailable_1@,
        r matches LspError::Startup(l, why) ==> l == language && why@ == f.error->Startup_1@,
{
}

/// Callers of a server are counted one by one. One that gives back a server that is
/// no longer there changes nothing.
pub proof fn law_callers_count_one_by_one<S>(s: Slot<S>, generation: u64, now: u64)
    requires
        s.in_flight < usize::MAX,
    ensures
        pool::after_checkout(s, now).in_flight == s.in_flight + 1,
        pool::after_checkout(s, now).last_used == now,
        generation != s.generation ==> pool::after_release(s, generation, now) == s,
        generation == s.generation && s.in_flight > 0 ==> pool::after_release(
            s,
            generation,
            now,
        ).in_flight == s.in_flight - 1,
        generation == s.generation ==> pool::after_release(s, generation, now).last_used == now,
        pool::after_release(s, generation, now).server == s.server,
        pool::after_release(s, generation, now).generation == s.generation,
        pool::after_release(pool::after_checkout(s, now), s.generation, now).in_flight
            == s.in_flight,
{
}

/// A server is taken out only while nobody uses it, if it is still the one that was
/// looked at and is still to be stopped; the slot is then empty, and what is put
/// into it next is another one.
pub proof fn law_only_spent_servers_are_taken_out<S>(
    s: Slot<S>,
    generation: u64,
    config: &LspPoolConfig,
    memory: Option<u64>,
    busy: bool,
    now: u64,
    r: bool,
)
    requires
        s.last_used <= now,
        s.generation < u64::MAX,
        call_ensures(
            pool::should_reclaim,
            (config, (now - s.last_used) as u64, memory, busy),
            r,
        ),
    ensures
        pool::may_take(s, generation, *config, memory, busy, now) <==> r && s.server is Some
            && s.in_flight == 0 && generation == s.generation,
        pool::after_take(s).server is None,
        pool::after_take(s).in_flight == 0,
        pool::after_take(s).generation > s.generation,
{
}

// ------------------------------------------------------------------ sessions

/// A document is shown to the server once: it has to be until it has been, and not
/// after that.
pub proof fn law_documents_are_shown_once(
    a: &LspSession,
    b: &LspSession,
    path: &RelPath,
    other: &RelPath,
    before: bool,
    after: bool,
    others_before: bool,
    others_after: bool,
)
    requires
        text::texts(b.opened@) == transport::with_name(text::texts(a.opened@), path@),
        call_ensures(LspSession::needs_open, (a, path), before),
        call_ensures(LspSession::needs_open, (b, path), after),
        call_ensures(LspSession::needs_open, (a, other), others_before),
        call_ensures(LspSession::needs_open, (b, other), others_after),
    ensures
        !after,
        other@ != path@ ==> others_after == others_before,
        a.opened@.len() == 0 ==> before,
{
    let shown = text::texts(a.opened@);
    let now = text::texts(b.opened@);
    if !shown.contains(path@) {
        assert(now[now.len() - 1] == path@);
        if shown.contains(other@) {
            let k = choose|k: int| 0 <= k < shown.len() && shown[k] == other@;
            assert(now[k] == other@);
        }
        if now.contains(other@) && other@ != path@ {
            let k = choose|k: int| 0 <= k < now.len() && now[k] == other@;
            assert(shown[k] == other@);
        }
    }
}

/// A document is shown with its URI, its language and its text, as the first
/// version of it; one that cannot be read is not shown.
pub proof fn law_documents_are_shown_whole(
    s: &LspSession,
    path: &RelPath,
    cwd: &str,
    content: &str,
    why: &str,
    uri: String,
    name: &'static str,
    r: Result<Json, LspError>,
    none: Result<Json, LspError>,
) -> (doc: Shape)
    requires
        call_ensures(LspSession::file_uri, (s, path, cwd), uri),
        call_ensures(session::language_id, (s.language,), name),
        call_ensures(LspSession::open_params, (s, path, cwd, Ok(content)), r),
        call_ensures(LspSession::open_params, (s, path, cwd, Err(why)), none),
    ensures
        none matches Err(e) && e is Protocol,
        r is Ok,
        has_part(json::shape(r->Ok_0), "textDocument"@, doc),
        has_part(doc, "uri"@, Shape::Text(uri@)),
        has_part(doc, "languageId"@, Shape::Text(name@)),
        has_part(doc, "text"@, Shape::Text(content@)),
        has_part(doc, "version"@, Shape::Number(text::decimal(1))),
{
    let fields = json::shape(r->Ok_0)->Table_0;
    let doc = fields[0].1;
    assert(fields[0].0 == "textDocument"@);
    let inner = doc->Table_0;
    assert(inner[0].0 == "uri"@ && inner[1].0 == "languageId"@ && inner[2].0 == "version"@
        && inner[3].0 == "text"@);
    doc
}

/// Questions about a place say which document it is in and where; one for
/// references counts the declaration, and one to rename says the new name.
pub proof fn law_questions_say_where(
    uri: &str,
    position: Position,
    new_name: &str,
    references: Json,
    definition: Json,
    rename: Json,
    at: &Json,
    back: Option<Position>,
    doc: Shape,
    place: Shape,
)
    requires
        call_ensures(session::references_params, (uri, position), references),
        call_ensures(session::definition_params, (uri, position), definition),
        call_ensures(session::rename_params, (uri, position, new_name), rename),
        doc == Shape::Table(seq![("uri"@, Shape::Text(uri@))]),
        place == Shape::Table(
            seq![
                ("line"@, Shape::Number(text::decimal(position.line as nat))),
                ("character"@, Shape::Number(text::decimal(position.character as nat))),
            ],
        ),
    ensures
        has_part(json::shape(references), "textDocument"@, doc),
        has_part(json::shape(references), "position"@, place),
        has_part(
            json::shape(references),
            "context"@,
            Shape::Table(seq![("includeDeclaration"@, Shape::Bool(true))]),
        ),
        has_part(json::shape(definition), "textDocument"@, doc),
        has_part(json::shape(definition), "position"@, place),
        has_part(json::shape(rename), "textDocument"@, doc),
        has_part(json::shape(rename), "position"@, place),
        has_part(json::shape(rename), "newName"@, Shape::Text(new_name@)),
{
    let a = json::shape(references)->Table_0;
    let b = json::shape(definition)->Table_0;
    let c = json::shape(rename)->Table_0;
    assert(a[0].0 == "textDocument"@ && a[1].0 == "position"@ && a[2].0 == "context"@);
    assert(b[0].0 == "textDocument"@ && b[1].0 == "position"@);
    assert(c[0].0 == "textDocument"@ && c[1].0 == "position"@ && c[2].0 == "newName"@);
}

/// A reply of the server is what it found. Where it could not be asked or was too
/// slow, what it has published counts instead, if that is anything.
pub proof fn law_published_diagnostics_stand_in(
    pull: Result<Json, LspError>,
    published: &Vec<(String, Vec<Published>)>,
    uri: &str,
    path: &RelPath,
    r: Result<Vec<Diagnostic>, LspError>,
    pushed: Vec<Diagnostic>,
    value: Json,
    pulled: Vec<Diagnostic>,
)
    requires
        call_ensures(session::diagnostics_reply, (pull, published, uri, path), r),
        call_ensures(session::push_diagnostics, (published, uri, path), pushed),
        call_ensures(wire::diagnostics_from_pull, (&value, path), pulled),
    ensures
        pull == Ok::<Json, LspError>(value) ==> (r matches Ok(v) && wire::findings(v@)
            == wire::findings(pulled@)),
        pull matches Err(e) ==> (r is Ok <==> (e is Protocol || e is Timeout) && pushed@.len() > 0),
        pull is Err ==> (r matches Ok(v) ==> wire::findings(v@) == wire::findings(pushed@)),
        pull matches Err(e) ==> (!(e is Protocol) ==> (r matches Err(f) ==> f == e)),
        pull matches Err(e) && e is Protocol ==> (r matches Err(f) ==> f is Protocol),
{
    assert(wire::findings(pushed@).len() == pushed@.len());
}

proof fn lemma_entry(v: Seq<(Seq<char>, Seq<wire::Notice>)>, key: Seq<char>, k: int)
    requires
        0 <= k <= v.len(),
        forall|i: int| 0 <= i < k ==> (#[trigger] v[i]).0 != key,
        k < v.len() ==> v[k].0 == key,
    ensures
        session::entry(v, key) == (if k < v.len() {
            Some(v[k].1)
        } else {
            None
        }),
    decreases v.len(),
{
    if k > 0 {
        assert(v[0].0 != key);
        let rest = v.drop_first();
        assert forall|i: int| 0 <= i < k - 1 implies (#[trigger] rest[i]).0 != key by {
            assert(rest[i] == v[i + 1]);
        }
        if k < v.len() {
            assert(rest[k - 1] == v[k]);
        }
        lemma_entry(rest, key, k - 1);
    }
}

/// What was published under the URI of a document is what is found in it, one for
/// one.
pub proof fn law_published_diagnostics_go_by_uri(
    published: &Vec<(String, Vec<Published>)>,
    uri: &str,
    path: &RelPath,
    out: Vec<Diagnostic>,
    k: int,
    n: int,
    one: Diagnostic,
)
    requires
        call_ensures(session::push_diagnostics, (published, uri, path), out),
        0 <= k < published@.len(),
        published@[k].0@ == uri@,
        forall|i: int| 0 <= i < k ==> (#[trigger] published@[i]).0@ != uri@,
        0 <= n < published@[k].1@.len(),
        call_ensures(wire::diagnostic_from_lsp, (path, &published@[k].1@[n]), one),
    ensures
        out@.len() == published@[k].1@.len(),
        wire::finding(out@[n]) == wire::finding(one),
{
    let v = transport::published_view(published@);
    assert forall|i: int| 0 <= i < k implies (#[trigger] v[i]).0 != uri@ by {
        assert(v[i].0 == published@[i].0@);
    }
    assert(v[k] == (published@[k].0@, wire::notices(published@[k].1@)));
    lemma_entry(v, uri@, k);
    let items = wire::notices(published@[k].1@);
    let all = items.map_values(|d: wire::Notice| wire::published_finding(path@, d));
    assert(wire::findings(out@) == all);
    assert(wire::findings(out@).len() == out@.len());
    assert(wire::findings(out@)[n] == wire::finding(out@[n]));
    assert(all[n] == wire::published_finding(path@, items[n]));
    assert(items[n] == wire::notice(published@[k].1@[n]));
}

proof fn lemma_ending(v: Seq<(Seq<char>, Seq<wire::Notice>)>, path: Seq<char>, k: int)
    requires
        0 <= k <= v.len(),
        forall|i: int| 0 <= i < k ==> !session::ends((#[trigger] v[i]).0, path),
        k < v.len() ==> session::ends(v[k].0, path),
    ensures
        session::ending_with(v, path) == (if k < v.len() {
            Some(v[k].1)
        } else {
            None
        }),
    decreases v.len(),
{
    if k > 0 {
        assert(!session::ends(v[0].0, path));
        let rest = v.drop_first();
        assert forall|i: int| 0 <= i < k - 1 implies !session::ends(
            (#[trigger] rest[i]).0,
            path,
        ) by {
            assert(rest[i] == v[i + 1]);
        }
        if k < v.len() {
            assert(rest[k - 1] == v[k]);
        }
        lemma_ending(rest, path, k - 1);
    }
}

/// `s` ends with the characters of `tail`.
pub open spec fn ends_with(s: Seq<char>, tail: Seq<char>) -> bool {
    laws::text::runs_from(s, tail, s.len() - tail.len())
}

proof fn lemma_ends(s: Seq<char>, tail: Seq<char>)
    ensures
        ends_with(s, tail) <==> session::ends(s, tail),
{
    let at = s.len() - tail.len();
    if ends_with(s, tail) {
        assert(s.subrange(at, at + tail.len()) =~= tail);
    }
    if session::ends(s, tail) {
        assert forall|k: int| 0 <= k < tail.len() implies s[at + k] == #[trigger] tail[k] by {
            assert(s.subrange(at, at + tail.len())[k] == tail[k]);
        }
    }
}

/// Where nothing was published under the URI of a document, what was published
/// under the first URI that ends with its path counts; where there is none, nothing
/// does.
pub proof fn law_published_diagnostics_go_by_path(
    published: &Vec<(String, Vec<Published>)>,
    uri: &str,
    path: &RelPath,
    out: Vec<Diagnostic>,
    k: int,
)
    requires
        call_ensures(session::push_diagnostics, (published, uri, path), out),
        forall|i: int| 0 <= i < published@.len() ==> (#[trigger] published@[i]).0@ != uri@,
        0 <= k <= published@.len(),
        forall|i: int| 0 <= i < k ==> !ends_with((#[trigger] published@[i]).0@, path@),
        k < published@.len() ==> ends_with(published@[k].0@, path@),
    ensures
        k == published@.len() ==> out@.len() == 0,
        k < published@.len() ==> out@.len() == published@[k].1@.len(),
        forall|n: int|
            k < published@.len() && 0 <= n < out@.len() ==> (#[trigger] out@[n]).path@ == path@
                && out@[n].message@ == published@[k].1@[n].message@ && out@[n].range
                == published@[k].1@[n].range,
{
    let v = transport::published_view(published@);
    assert forall|i: int| 0 <= i < v.len() implies (#[trigger] v[i]).0 != uri@ by {
        assert(v[i].0 == published@[i].0@);
    }
    lemma_entry(v, uri@, v.len() as int);
    assert forall|i: int| 0 <= i < k implies !session::ends((#[trigger] v[i]).0, path@) by {
        assert(v[i].0 == published@[i].0@);
        lemma_ends(v[i].0, path@);
    }
    if k < published@.len() {
        assert(v[k] == (published@[k].0@, wire::notices(published@[k].1@)));
        lemma_ends(v[k].0, path@);
    }
    lemma_ending(v, path@, k);
    assert(wire::findings(out@).len() == out@.len());
    if k < published@.len() {
        let items = wire::notices(published@[k].1@);
        let all = items.map_values(|d: wire::Notice| wire::published_finding(path@, d));
        assert(wire::findings(out@) == all);
        assert forall|n: int| 0 <= n < out@.len() implies (#[trigger] out@[n]).path@ == path@
            && out@[n].message@ == published@[k].1@[n].message@ && out@[n].range
            == published@[k].1@[n].range by {
            assert(wire::findings(out@)[n] == wire::finding(out@[n]));
            assert(all[n] == wire::published_finding(path@, items[n]));
            assert(items[n] == wire::notice(published@[k].1@[n]));
        }
    }
}

/// A server is told of the process, the root, its URI and its name when a session
/// starts, and gets its own settings if there are any.
pub proof fn law_sessions_start_with_the_workspace(
    process: u32,
    root: &str,
    cwd: &str,
    version: &str,
    options: Json,
    windows: bool,
    uri: String,
    name: String,
    a: (Json, (String, String)),
    b: (Json, (String, String)),
)
    requires
        call_ensures(
            session::initialize_params,
            (process, root, cwd, version, None, windows),
            a,
        ),
        call_ensures(
            session::initialize_params,
            (process, root, cwd, version, Some(options), windows),
            b,
        ),
        call_ensures(wire::path_to_file_uri, (root, cwd, windows), uri),
        call_ensures(session::folder_name, (root, windows), name),
    ensures
        a.1.0@ == uri@,
        a.1.1@ == name@,
        has_part(json::shape(a.0), "processId"@, Shape::Number(text::decimal(process as nat))),
        has_part(json::shape(a.0), "rootUri"@, Shape::Text(uri@)),
        has_part(json::shape(a.0), "rootPath"@, Shape::Text(root@)),
        has_part(json::shape(b.0), "rootUri"@, Shape::Text(uri@)),
        has_part(json::shape(b.0), "initializationOptions"@, json::shape(options)),
        json::shape(b.0)->Table_0.len() == json::shape(a.0)->Table_0.len() + 1,
{
    let p = json::shape(a.0)->Table_0;
    let q = json::shape(b.0)->Table_0;
    assert(p[0].0 == "processId"@ && p[1].0 == "rootPath"@ && p[2].0 == "rootUri"@);
    assert(q[2].0 == "rootUri"@ && q[8].0 == "initializationOptions"@);
}

/// A workspace goes by the last name of its root.
pub proof fn law_workspaces_go_by_their_last_name(
    root: &str,
    r: String,
    dir: Seq<char>,
    name: Seq<char>,
)
    requires
        call_ensures(session::folder_name, (root, false), r),
        crate::paths::is_part(name),
        name != seq!['.', '.'],
        root@ == dir + seq!['/'] + name || root@ == dir + seq!['/'] + name + seq!['/'],
    ensures
        r@ == name,
{
    crate::paths::lemma_single_part(name);
    crate::paths::lemma_parts_join(dir, name);
    let whole = dir + seq!['/'] + name;
    assert(whole =~= dir.push('/') + name);
    crate::paths::lemma_no_parts();
    crate::paths::lemma_parts_join(whole, Seq::empty());
    assert(whole.push('/') + Seq::<char>::empty() =~= whole + seq!['/']);
    assert(crate::paths::behind_drive(root@, false) =~= root@);
    assert(crate::paths::parts_of(root@).last() == name);
}

} // verus!
