//! Answers to questions about symbols: what they hold, and when they say nothing.

use crate::laws;
use crate::lsp;
use crate::lsp::json;
use crate::lsp::json::Json;
use crate::lsp::queries;
use crate::lsp::queries::{Ask, AskHover, Classified, SymbolAt};
use crate::lsp::uri;
use crate::lsp::uri::RepoRoot;
use crate::lsp::{Location, LspError, Position, Precise, Range};
use crate::paths;
use crate::text;
use crate::types::{Confidence, Language, RelPath};
use vstd::prelude::*;

verus! {

// ----------------------------------------------------------------- locations

/// Sorting keeps every location and drops repetitions; those of the file that was
/// asked about come first, then the others by path, each file by place.
pub proof fn law_own_locations_come_first(
    locs: Vec<Location>,
    origin: &RelPath,
    out: Vec<Location>,
    x: Location,
    i: int,
    j: int,
)
    requires
        call_ensures(queries::sort_locations, (locs, Some(origin)), out),
        0 <= i < j < out@.len(),
    ensures
        queries::keys_of(out@).contains((x.path@, x.range)) <==> queries::keys_of(locs@).contains(
            (x.path@, x.range),
        ),
        out@[j].path@ == origin@ ==> out@[i].path@ == origin@,
        (out@[i].path@ == origin@ <==> out@[j].path@ == origin@) ==> text::text_le(
            out@[i].path@,
            out@[j].path@,
        ),
        out@[i].path@ == out@[j].path@ ==> {
            &&& out@[i].range != out@[j].range
            &&& !laws::diagnostics::is_before(out@[j].range.start, out@[i].range.start)
            &&& out@[i].range.start == out@[j].range.start ==> laws::diagnostics::is_before(
                out@[i].range.end,
                out@[j].range.end,
            )
        },
{
    let keys = queries::keys_of(out@);
    assert(keys[i] == (out@[i].path@, out@[i].range));
    assert(keys[j] == (out@[j].path@, out@[j].range));
    assert(queries::location_le(Some(origin@), keys[i], keys[j]) && keys[i] != keys[j]);
    text::lemma_text_le_total(out@[i].path@, out@[i].path@);
    text::lemma_text_le_total(out@[i].path@, out@[j].path@);
}

/// Each hit lies inside the repository, at the path that it is known by there, or
/// outside of it, as it is shown; the hits are taken one by one.
pub proof fn law_hits_lie_inside_or_outside(
    shorter: &Vec<Location>,
    longer: &Vec<Location>,
    root: &RepoRoot,
    path: &str,
    rel: Option<RelPath>,
    shown: String,
    a: Classified,
    b: Classified,
)
    requires
        longer@.len() == shorter@.len() + 1,
        longer@.drop_last() == shorter@,
        path@ == longer@.last().path@,
        call_ensures(uri::lsp_path_to_rel, (path, root), rel),
        call_ensures(queries::display_external, (path, root.windows), shown),
        call_ensures(queries::classify_all, (shorter, root), a),
        call_ensures(queries::classify_all, (longer, root), b),
    ensures
        rel matches Some(p) ==> queries::keys_of(b.in_repo@) == queries::keys_of(
            a.in_repo@,
        ).push((p@, longer@.last().range)) && text::texts(b.external@) == text::texts(a.external@),
        rel is None ==> queries::keys_of(b.in_repo@) == queries::keys_of(a.in_repo@)
            && text::texts(b.external@) == text::texts(a.external@).push(shown@),
        shorter@.len() == 0 ==> a.in_repo@.len() == 0 && a.external@.len() == 0,
{
    assert(queries::keys_of(a.in_repo@).len() == a.in_repo@.len());
    assert(text::texts(a.external@).len() == a.external@.len());
}

/// A path outside the repository is shown with steps up taken back; what is no
/// absolute path is shown as it is.
pub proof fn law_outside_paths_are_shown_plainly(raw: &str, r: String)
    requires
        call_ensures(queries::display_external, (raw, false), r),
        !raw@.contains('\\'),
        raw@.len() > 0,
        !uri::is_file_uri(raw@),
    ensures
        raw@[0] != '/' ==> r@ == raw@,
        raw@[0] == '/' ==> paths::parts_of(r@) == paths::folded(paths::parts_of(raw@)) && r@.len()
            > 0 && r@[0] == '/',
{
    lsp::wire::lemma_forward_already(raw@);
    laws::paths::lemma_plain(raw@);
    if raw@[0] == '/' {
        laws::paths::lemma_parts_are(raw@);
        laws::paths::lemma_path_text(true, paths::normal_parts(raw@));
    }
}

// --------------------------------------------------------------------- notes

/// Texts are joined with the separator between any two of them and nowhere else.
pub proof fn law_texts_are_joined_one_by_one(
    parts: Seq<Seq<char>>,
    last: Seq<char>,
    sep: Seq<char>,
)
    ensures
        queries::joined_by(Seq::empty(), sep).len() == 0,
        queries::joined_by(seq![last], sep) == last,
        parts.len() > 0 ==> queries::joined_by(parts.push(last), sep) == queries::joined_by(
            parts,
            sep,
        ) + sep + last,
{
    assert(parts.push(last).drop_last() =~= parts);
}

/// Up to three paths are listed; where there are more, the first three and how many
/// there are in all.
pub proof fn law_three_paths_are_listed(
    external: &Vec<String>,
    out: String,
    first: Seq<char>,
)
    requires
        call_ensures(queries::format_external_list, (external,), out),
        first == queries::joined_by(text::texts(external@).take(3), ", "@),
    ensures
        external@.len() <= 3 ==> out@ == queries::joined_by(text::texts(external@), ", "@),
        external@.len() > 3 ==> first.is_prefix_of(out@) && text::contains_text(
            out@.skip(first.len() as int),
            text::decimal(external@.len()),
        ),
{
    let list = text::texts(external@);
    assert(list.len() == external@.len());
    if external@.len() > 3 {
        let n = text::decimal(external@.len());
        let front = ", … ("@;
        let back = " total)"@;
        assert(out@.subrange(0, first.len() as int) =~= first);
        let rest = out@.skip(first.len() as int);
        assert(rest =~= front + n + back);
        assert(laws::text::runs_from(rest, n, front.len() as int));
        laws::text::law_texts_hold_what_stands_in_them(rest, n);
    }
}

/// Hits outside the repository are noted where there are any: how many, and which.
pub proof fn law_outside_hits_are_noted(
    inside: usize,
    external: &Vec<String>,
    r: Option<String>,
    list: String,
)
    requires
        call_ensures(queries::external_note, (inside, external), r),
        call_ensures(queries::format_external_list, (external,), list),
    ensures
        r is None <==> external@.len() == 0,
        r matches Some(note) ==> text::contains_text(note@, list@) && text::contains_text(
            note@,
            text::decimal(external@.len()),
        ),
{
    assert(text::texts(external@).len() == external@.len());
    if let Some(note) = r {
        let n = text::decimal(external@.len());
        let (a, b) = if inside == 0 {
            (
                "all "@,
                " result(s) sit outside the repository (stdlib or dependencies) and were omitted: "@,
            )
        } else {
            ("omitted "@, " reference(s) outside the repository (stdlib or dependencies): "@)
        };
        assert(note@ =~= a + n + (b + list@));
        assert(laws::text::runs_from(note@, n, a.len() as int));
        assert(laws::text::runs_from(note@, list@, (a + n + b).len() as int));
        laws::text::law_texts_hold_what_stands_in_them(note@, n);
        laws::text::law_texts_hold_what_stands_in_them(note@, list@);
    }
}

/// A failure leaves nothing known, and the note says what went wrong.
pub proof fn law_failures_are_noted(
    err: &LspError,
    message: String,
    a: Precise<Vec<Location>>,
    b: Precise<Vec<Location>>,
    c: Precise<Option<String>>,
)
    requires
        call_ensures(LspError::message, (err,), message),
        call_ensures(queries::degrade, (err,), a),
        call_ensures(queries::degrade_definition, (err,), b),
        call_ensures(queries::degrade_hover, (err,), c),
    ensures
        a.value@.len() == 0 && a.confidence is Unknown && (a.note matches Some(n)
            && message@.is_prefix_of(n@) && text::contains_text(n@, "references"@)),
        b.value@.len() == 0 && b.confidence is Unknown && (b.note matches Some(n)
            && message@.is_prefix_of(n@) && text::contains_text(n@, "definitions"@)),
        c.value is None && c.confidence is Unknown && (c.note matches Some(n)
            && message@.is_prefix_of(n@) && text::contains_text(n@, "hover information"@)),
{
    lemma_failed(message@, "references"@, queries::search_hint());
    lemma_failed(message@, "definitions"@, queries::search_hint());
    lemma_failed(message@, "hover information"@, queries::anchor_hint());
}

proof fn lemma_failed(error: Seq<char>, what: Seq<char>, hint: Seq<char>)
    ensures
        error.is_prefix_of(queries::failed_note(error, what, hint)),
        text::contains_text(queries::failed_note(error, what, hint), what),
{
    let note = queries::failed_note(error, what, hint);
    let front = error + "; cannot provide precise "@;
    assert(note.subrange(0, error.len() as int) =~= error);
    assert(note =~= front + what + (". "@ + hint));
    assert(laws::text::runs_from(note, what, front.len() as int));
    laws::text::law_texts_hold_what_stands_in_them(note, what);
}

/// The message of an error holds what is known of it: the language and how to get
/// its server, or what went wrong.
pub proof fn law_messages_hold_what_is_known(
    err: &LspError,
    message: String,
    language: Language,
    title: &'static str,
)
    requires
        call_ensures(LspError::message, (err,), message),
        call_ensures(lsp::title, (language,), title),
    ensures
        message@.len() > 0,
        err matches LspError::Unavailable(l, hint) ==> (l == language ==> text::contains_text(
            message@,
            title@,
        )) && text::contains_text(message@, hint@),
        err matches LspError::Startup(l, why) ==> (l == language ==> text::contains_text(
            message@,
            title@,
        )) && text::contains_text(message@, why@),
        err matches LspError::Protocol(why) ==> text::contains_text(message@, why@),
        err matches LspError::Timeout(ms) ==> text::contains_text(
            message@,
            lsp::duration_debug(*ms),
        ),
{
    reveal_strlit("no language server available for ");
    reveal_strlit("language server for ");
    reveal_strlit("language server request timed out after ");
    reveal_strlit("language server content modified; the request should be retried");
    reveal_strlit("language server protocol error: ");
    reveal_strlit("language server exited unexpectedly");
    match *err {
        LspError::Unavailable(l, hint) => {
            let a = "no language server available for "@;
            let t = lsp::language_title(l);
            assert(message@ =~= a + t + (": "@ + hint@));
            assert(laws::text::runs_from(message@, t, a.len() as int));
            assert(laws::text::runs_from(message@, hint@, (a + t + ": "@).len() as int));
            laws::text::law_texts_hold_what_stands_in_them(message@, t);
            laws::text::law_texts_hold_what_stands_in_them(message@, hint@);
        },
        LspError::Startup(l, why) => {
            let a = "language server for "@;
            let t = lsp::language_title(l);
            let b = " failed to start: "@;
            assert(message@ =~= a + t + (b + why@));
            assert(laws::text::runs_from(message@, t, a.len() as int));
            assert(laws::text::runs_from(message@, why@, (a + t + b).len() as int));
            laws::text::law_texts_hold_what_stands_in_them(message@, t);
            laws::text::law_texts_hold_what_stands_in_them(message@, why@);
        },
        LspError::Protocol(why) => {
            let a = "language server protocol error: "@;
            assert(laws::text::runs_from(message@, why@, a.len() as int));
            laws::text::law_texts_hold_what_stands_in_them(message@, why@);
        },
        LspError::Timeout(ms) => {
            let a = "language server request timed out after "@;
            let t = lsp::duration_debug(ms);
            assert(laws::text::runs_from(message@, t, a.len() as int));
            laws::text::law_texts_hold_what_stands_in_them(message@, t);
        },
        _ => {},
    }
}

// ------------------------------------------------------------------- answers

/// A server that fails leaves nothing known. Its hits are the answer, unless it is
/// still at work and has none inside the repository: then nothing is known either.
pub proof fn law_empty_answers_of_busy_servers_do_not_count(
    reply: &Result<Vec<Location>, LspError>,
    busy: bool,
    root: &RepoRoot,
    origin: &RelPath,
    hits: Vec<Location>,
    whole: Precise<Vec<Location>>,
    a: Precise<Vec<Location>>,
    b: Precise<Vec<Location>>,
)
    requires
        call_ensures(queries::finalize_hits, (&hits, root, origin), whole),
        call_ensures(queries::references_answer, (reply, busy, root, origin), a),
        call_ensures(queries::definition_answer, (reply, busy, root, origin), b),
    ensures
        reply is Err ==> a.value@.len() == 0 && a.confidence is Unknown && a.note is Some
            && b.value@.len() == 0 && b.confidence is Unknown && b.note is Some,
        *reply == Ok::<Vec<Location>, LspError>(hits) && (whole.value@.len() > 0 || !busy)
            ==> a.confidence is Exact && b.confidence is Exact && same_keys(a.value@, whole.value@)
            && same_keys(b.value@, whole.value@),
        *reply == Ok::<Vec<Location>, LspError>(hits) && whole.value@.len() == 0 && busy
            ==> a.value@.len() == 0 && a.confidence is Unknown && a.note is Some && b.value@.len()
            == 0 && b.confidence is Unknown && b.note is Some,
{
    let keys = queries::inside(hits@, *root);
    let w = queries::keys_of(whole.value@);
    assert(w.len() == whole.value@.len());
    if w.len() > 0 {
        assert(w.contains(w[0]));
        assert(keys.contains(w[0]));
    }
    if keys.len() > 0 {
        assert(keys.contains(keys[0]));
        assert(w.contains(keys[0]));
    }
}

/// Two answers hold the same locations.
pub open spec fn same_keys(a: Seq<Location>, b: Seq<Location>) -> bool {
    forall|x: (Seq<char>, Range)| #[trigger]
        queries::keys_of(a).contains(x) <==> queries::keys_of(b).contains(x)
}

/// An empty answer of a server that is at work is not to be relied on; any other is
/// left as it is.
pub proof fn law_only_empty_answers_are_doubted(
    result: Precise<Vec<Location>>,
    hover: Precise<Option<String>>,
    busy: bool,
    a: Precise<Vec<Location>>,
    b: Precise<Option<String>>,
)
    requires
        call_ensures(queries::guard_cold_index::<Location>, (result, busy), a),
        call_ensures(queries::guard_cold_hover, (hover, busy), b),
    ensures
        !busy || result.value@.len() > 0 ==> a == result,
        busy && result.value@.len() == 0 ==> a.value@.len() == 0 && a.confidence is Unknown
            && a.note is Some,
        !busy || hover.value is Some ==> b == hover,
        busy && hover.value is None ==> b.value is None && b.confidence is Unknown && b.note
            is Some,
{
}

/// Without a server a question is answered at once, and so is one about an empty
/// name. One about a place is asked of the server as it is; one about a name takes
/// the file to be read first.
pub proof fn law_questions_start_with_what_they_need(
    has_server: bool,
    path: &RelPath,
    position: Position,
    name: &str,
    a: Ask,
    b: Ask,
    c: AskHover,
    d: Ask,
    e: Ask,
    f: AskHover,
)
    requires
        call_ensures(
            queries::find_references,
            (has_server, path, SymbolAt::Position(position)),
            a,
        ),
        call_ensures(
            queries::goto_definition,
            (has_server, path, SymbolAt::Position(position)),
            b,
        ),
        call_ensures(queries::hover, (has_server, path, SymbolAt::Position(position)), c),
        call_ensures(queries::find_references, (has_server, path, SymbolAt::Name(name)), d),
        call_ensures(queries::goto_definition, (has_server, path, SymbolAt::Name(name)), e),
        call_ensures(queries::hover, (has_server, path, SymbolAt::Name(name)), f),
    ensures
        has_server ==> (a matches Ask::References(p, at) && p@ == path@ && at == position),
        has_server ==> (b matches Ask::Definition(at) && at == position),
        has_server ==> (c matches AskHover::Hover(p, at) && p@ == path@ && at == position),
        has_server && name@.len() > 0 ==> d is Source && e is Source && f is Source,
        !has_server || name@.len() == 0 ==> (d matches Ask::Answer(x) && x.value@.len() == 0
            && x.confidence is Unknown && x.note is Some) && (e matches Ask::Answer(y)
            && y.value@.len() == 0 && y.confidence is Unknown && y.note is Some) && (
        f matches AskHover::Answer(z) && z.value is None && z.confidence is Unknown && z.note
            is Some),
        !has_server ==> a is Answer && b is Answer && c is Answer,
{
}

/// A hover text is asked for where references would be, unless the server is at
/// work or failed: then it is asked for at the place that was found.
pub proof fn law_hovers_are_asked_for_where_references_are(
    path: &RelPath,
    position: Position,
    reply: &Result<Vec<Location>, LspError>,
    root: &RepoRoot,
    site: Ask,
    quiet: AskHover,
    busy: AskHover,
)
    requires
        call_ensures(queries::site_from_definition, (path, position, reply, root), site),
        call_ensures(queries::resolve_hover_site, (path, position, reply, false, root), quiet),
        call_ensures(queries::resolve_hover_site, (path, position, reply, true, root), busy),
    ensures
        busy matches AskHover::Hover(p, at) && p@ == path@ && at == position,
        reply is Err ==> site is Answer && (quiet matches AskHover::Hover(p, at) && p@ == path@
            && at == position),
        reply is Ok ==> site is References && quiet is Hover && site->References_0@
            == quiet->Hover_0@ && site->References_1 == quiet->Hover_1,
{
}

// --------------------------------------------------------------------- hover

/// The text of a hover is that of its contents, a text or what has one as its
/// value, without white space around it; a blank one is none.
pub proof fn law_hover_texts_are_their_contents(
    result: &Json,
    contents: &Json,
    r: Option<String>,
    s: String,
)
    requires
        call_ensures(queries::parse_hover, (result,), r),
    ensures
        laws::wire::lacks(*result, "contents"@) ==> r is None,
        laws::wire::under(*result, "contents"@, *contents) && (*contents == Json::Text(s)
            || laws::wire::under(*contents, "value"@, Json::Text(s))) ==> (
        if laws::churn::is_blank(s@) {
            r is None
        } else {
            r matches Some(t) && t@ == text::trimmed(s@)
        }),
{
    laws::wire::lemma_field(*result, "contents"@, *contents);
    laws::wire::lemma_field(*contents, "value"@, Json::Text(s));
    laws::discovery::lemma_blank(s@);
    let one = seq![s@];
    assert(queries::joined_by(one, "\n\n"@) == s@);
}

/// The parts of a hover are read one by one, and what has no text is left out.
pub proof fn law_hover_parts_are_read_one_by_one(
    items: Seq<Json>,
    last: &Json,
    one: Option<String>,
    whole: Vec<Json>,
    result: &Json,
    r: Option<String>,
)
    requires
        call_ensures(queries::marked_string_text, (last,), one),
        call_ensures(queries::parse_hover, (result,), r),
        laws::wire::under(*result, "contents"@, Json::List(whole)),
    ensures
        queries::marked_texts(Seq::empty()).len() == 0,
        queries::marked_texts(items.push(*last)) == (match one {
            Some(t) => queries::marked_texts(items).push(t@),
            None => queries::marked_texts(items),
        }),
        ({
            let joined = queries::joined_by(queries::marked_texts(whole@), "\n\n"@);
            if laws::churn::is_blank(joined) {
                r is None
            } else {
                r matches Some(t) && t@ == text::trimmed(joined)
            }
        }),
{
    assert(items.push(*last).drop_last() =~= items);
    laws::wire::lemma_field(*result, "contents"@, Json::List(whole));
    laws::discovery::lemma_blank(queries::joined_by(queries::marked_texts(whole@), "\n\n"@));
}

/// The part of a hover is its text, or that of its value; nothing else has one.
pub proof fn law_marked_parts_have_a_text(j: &Json, r: Option<String>, s: String)
    requires
        call_ensures(queries::marked_string_text, (j,), r),
    ensures
        *j == Json::Text(s) || laws::wire::under(*j, "value"@, Json::Text(s)) ==> (
        r matches Some(t) && t@ == s@),
        !(j is Text) && laws::wire::lacks(*j, "value"@) ==> r is None,
{
    laws::wire::lemma_field(*j, "value"@, Json::Text(s));
}

/// What a server says of a symbol is the answer. That it says nothing counts unless
/// it is at work; a failure does not.
pub proof fn law_hovers_are_what_the_server_says(
    reply: &Result<Json, LspError>,
    busy: bool,
    r: Precise<Option<String>>,
    result: Json,
    said: Option<String>,
)
    requires
        call_ensures(queries::hover_answer, (reply, busy), r),
        call_ensures(queries::parse_hover, (&result,), said),
    ensures
        *reply == Ok::<Json, LspError>(result) && said is Some ==> r.confidence is Exact
            && r.value is Some && r.value.unwrap()@ == said.unwrap()@ && r.note is None,
        *reply == Ok::<Json, LspError>(result) && said is None ==> r.value is None && (
        r.confidence is Exact <==> !busy) && (r.note is None <==> !busy),
        reply is Err ==> r.value is None && r.confidence is Unknown && r.note is Some,
{
}

// ------------------------------------------------------------------- reasons

/// The first occurrence of a pattern is replaced, and then those behind it; a text
/// without any stays as it is.
pub proof fn law_patterns_are_replaced_from_the_left(
    front: Seq<char>,
    pat: Seq<char>,
    back: Seq<char>,
    with: Seq<char>,
)
    requires
        pat.len() > 0,
        forall|k: int|
            0 <= k < front.len() ==> !#[trigger] laws::text::runs_from(front + pat + back, pat, k),
    ensures
        queries::replaced(front + pat + back, pat, with) == front + with + queries::replaced(
            back,
            pat,
            with,
        ),
    decreases front.len(),
{
    let whole = front + pat + back;
    if front.len() == 0 {
        assert(whole.subrange(0, pat.len() as int) =~= pat);
        assert(whole.skip(pat.len() as int) =~= back);
        assert(front + with =~= with);
    } else {
        assert(!text::stands_at(whole, pat, 0)) by {
            if text::stands_at(whole, pat, 0) {
                assert forall|k: int| 0 <= k < pat.len() implies whole[0 + k] == #[trigger] pat[k] by {
                    assert(whole.subrange(0, pat.len() as int)[k] == pat[k]);
                }
                assert(laws::text::runs_from(whole, pat, 0));
            }
        }
        let rest = front.drop_first();
        assert(whole.drop_first() =~= rest + pat + back);
        assert forall|k: int| 0 <= k < rest.len() implies !#[trigger] laws::text::runs_from(
            rest + pat + back,
            pat,
            k,
        ) by {
            if laws::text::runs_from(rest + pat + back, pat, k) {
                assert forall|i: int| 0 <= i < pat.len() implies whole[k + 1 + i]
                    == #[trigger] pat[i] by {
                    assert(whole[k + 1 + i] == (rest + pat + back)[k + i]);
                }
                assert(laws::text::runs_from(whole, pat, k + 1));
            }
        }
        law_patterns_are_replaced_from_the_left(rest, pat, back, with);
        assert(seq![whole[0]] + (rest + with + queries::replaced(back, pat, with)) =~= front + with
            + queries::replaced(back, pat, with));
    }
}

/// A text in which a pattern does not stand stays as it is.
pub proof fn law_texts_without_a_pattern_stay(s: Seq<char>, pat: Seq<char>, with: Seq<char>)
    requires
        !text::contains_text(s, pat),
    ensures
        queries::replaced(s, pat, with) == s,
    decreases s.len(),
{
    if s.len() > 0 && pat.len() > 0 {
        laws::text::law_texts_hold_what_stands_in_them(s, pat);
        assert(!text::stands_at(s, pat, 0));
        let rest = s.drop_first();
        assert(!text::contains_text(rest, pat)) by {
            laws::text::law_texts_hold_what_stands_in_them(rest, pat);
            if text::contains_text(rest, pat) {
                let at = choose|at: int| laws::text::runs_from(rest, pat, at);
                assert forall|i: int| 0 <= i < pat.len() implies s[at + 1 + i]
                    == #[trigger] pat[i] by {
                    assert(s[at + 1 + i] == rest[at + i]);
                }
                assert(laws::text::runs_from(s, pat, at + 1));
            }
        }
        law_texts_without_a_pattern_stay(rest, pat, with);
        assert(seq![s[0]] + rest =~= s);
    }
}

/// A reason does not end with a stop or with white space, nor begin with that.
pub proof fn law_reasons_end_plainly(reason: &str, out: String)
    requires
        call_ensures(queries::sanitize_hover_site_reason, (reason,), out),
        out@.len() > 0,
    ensures
        out@.last() != '.',
        out@.last() != ';',
        !text::is_white_space(out@.last()),
        !text::is_white_space(out@[0]),
{
    let a = queries::replaced(reason@, queries::search_hint(), Seq::empty());
    let b = queries::replaced(
        a,
        "cannot provide precise references"@,
        "cannot provide precise hover information"@,
    );
    let c = queries::replaced(queries::single_spaced(b), " ."@, "."@);
    let d = queries::replaced(c, ";;"@, ";"@);
    let t = text::trimmed(d);
    let (from, to) = laws::text::law_trimming_takes_white_space_off_the_ends(d);
    let n = lemma_stops(t);
}

proof fn lemma_stops(s: Seq<char>) -> (n: int)
    ensures
        0 <= n <= s.len(),
        queries::without_stops(s) == s.take(n),
        n > 0 ==> s[n - 1] != '.' && s[n - 1] != ';' && !text::is_white_space(s[n - 1]),
    decreases s.len(),
{
    if s.len() > 0 && (s.last() == '.' || s.last() == ';' || text::is_white_space(s.last())) {
        let n = lemma_stops(s.drop_last());
        assert(s.drop_last().take(n) =~= s.take(n));
        n
    } else {
        assert(s.take(s.len() as int) =~= s);
        s.len() as int
    }
}

/// No two blanks stand side by side once a text is squeezed, and a text in which
/// none do stays as it is.
pub proof fn law_blanks_stand_alone(s: Seq<char>)
    ensures
        forall|i: int, j: int|
            0 <= i && j == i + 1 && j < queries::single_spaced(s).len()
                ==> !(#[trigger] queries::single_spaced(s)[i] == ' '
                && #[trigger] queries::single_spaced(s)[j] == ' '),
        (forall|i: int, j: int|
            0 <= i && j == i + 1 && j < s.len() ==> !(#[trigger] s[i] == ' ' && #[trigger] s[j]
                == ' ')) ==> queries::single_spaced(s) == s,
        s.len() > 0 ==> queries::single_spaced(s).len() > 0 && queries::single_spaced(s).last()
            == s.last(),
    decreases s.len(),
{
    if s.len() > 0 {
        let front = s.drop_last();
        law_blanks_stand_alone(front);
        let before = queries::single_spaced(front);
        let all = queries::single_spaced(s);
        if forall|i: int, j: int|
            0 <= i && j == i + 1 && j < s.len() ==> !(#[trigger] s[i] == ' ' && #[trigger] s[j]
                == ' ') {
            assert forall|i: int, j: int|
                0 <= i && j == i + 1 && j < front.len() implies !(#[trigger] front[i] == ' '
                && #[trigger] front[j] == ' ') by {
                assert(front[i] == s[i] && front[j] == s[j]);
            }
            if s.len() > 1 {
                assert(!(s[s.len() - 2] == ' ' && s[s.len() - 1] == ' '));
            }
            assert(before.push(s.last()) =~= s);
        }
        assert forall|i: int, j: int|
            0 <= i && j == i + 1 && j < all.len() implies !(#[trigger] all[i] == ' '
            && #[trigger] all[j] == ' ') by {
            if j < before.len() {
                assert(all[i] == before[i] && all[j] == before[j]);
            } else {
                assert(all[i] == before.last());
                assert(front.last() == s[s.len() - 2]);
            }
        }
    }
}

} // verus!
