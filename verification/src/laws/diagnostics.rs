//! The diagnostics of a file.

use crate::laws;
use crate::lsp;
use crate::lsp::diagnostics;
use crate::lsp::diagnostics::{FetchOptions, PushWait, Report, SeverityFilter};
use crate::lsp::wire::{Code, Published};
use crate::lsp::{Diagnostic, LspError, Precise, Severity};
use crate::order;
use crate::text;
use crate::types;
use crate::types::{Confidence, RelPath};
use vstd::prelude::*;

verus! {

/// A diagnostic of this severity is asked for: errors always, warnings unless
/// only errors are, anything else only where everything is.
pub open spec fn asked_for(filter: SeverityFilter, severity: Severity) -> bool {
    ||| severity is Error
    ||| severity is Warning && !(filter is Errors)
    ||| filter is All
}

/// Errors are kept by every filter, warnings by all but that for errors, and
/// anything else by the one that keeps everything.
pub proof fn law_filters_keep_what_is_asked_for(
    filter: SeverityFilter,
    severity: Severity,
    r: bool,
)
    requires
        call_ensures(SeverityFilter::allows, (filter, severity), r),
    ensures
        r == asked_for(filter, severity),
{
}

proof fn lemma_kept(v: Seq<Diagnostic>, filter: SeverityFilter, d: Diagnostic)
    ensures
        diagnostics::kept(v, filter).to_multiset().count(d) == (if asked_for(filter, d.severity) {
            v.to_multiset().count(d)
        } else {
            0
        }),
    decreases v.len(),
{
    broadcast use vstd::seq_lib::group_to_multiset_ensures;

    if v.len() > 0 {
        lemma_kept(v.drop_last(), filter, d);
        assert(v =~= v.drop_last().push(v.last()));
    } else {
        assert(v.to_multiset().count(d) == 0) by {
            if v.to_multiset().count(d) > 0 {
                assert(v.contains(d));
            }
        }
    }
}

proof fn lemma_order()
    ensures
        order::total_preorder(diagnostics::diagnostic_order()),
{
    let le = diagnostics::diagnostic_order();
    assert forall|a: Diagnostic, b: Diagnostic| #[trigger] le(a, b) || le(b, a) by {
        diagnostics::lemma_diagnostic_le(a, b, b);
    }
    assert forall|a: Diagnostic, b: Diagnostic, c: Diagnostic| #[trigger]
        le(a, b) && #[trigger] le(b, c) implies le(a, c) by {
        diagnostics::lemma_diagnostic_le(a, b, c);
    }
}

/// Every diagnostic that is asked for is reported as often as it was found, and no
/// other; the report can be relied on.
pub proof fn law_what_was_found_is_reported(
    found: &Vec<Diagnostic>,
    filter: SeverityFilter,
    r: Precise<Vec<Diagnostic>>,
    d: Diagnostic,
)
    requires
        call_ensures(diagnostics::finalize, (found, filter), r),
    ensures
        r.value@.to_multiset().count(d) == (if asked_for(filter, d.severity) {
            found@.to_multiset().count(d)
        } else {
            0
        }),
        r.confidence == Confidence::Exact,
        r.note is None,
{
    lemma_order();
    lemma_kept(found@, filter, d);
    order::lemma_arranged(diagnostics::kept(found@, filter), diagnostics::diagnostic_order());
}

/// One place stands before another.
pub open spec fn is_before(a: lsp::Position, b: lsp::Position) -> bool {
    a.line < b.line || (a.line == b.line && a.character < b.character)
}

/// Reported diagnostics come by path, then by where they start and end, then the
/// gravest first, then by message.
pub proof fn law_reports_are_in_order(
    found: &Vec<Diagnostic>,
    filter: SeverityFilter,
    r: Precise<Vec<Diagnostic>>,
    i: int,
    j: int,
)
    requires
        call_ensures(diagnostics::finalize, (found, filter), r),
        0 <= i < j < r.value@.len(),
    ensures
        ({
            let a = r.value@[i];
            let b = r.value@[j];
            &&& text::text_le(a.path@, b.path@)
            &&& a.path@ == b.path@ ==> !is_before(b.range.start, a.range.start)
            &&& a.path@ == b.path@ && a.range.start == b.range.start ==> !is_before(
                b.range.end,
                a.range.end,
            )
            &&& a.path@ == b.path@ && a.range == b.range ==> match b.severity {
                Severity::Error => a.severity is Error,
                Severity::Warning => a.severity is Error || a.severity is Warning,
                Severity::Information => !(a.severity is Hint),
                Severity::Hint => true,
            }
            &&& a.path@ == b.path@ && a.range == b.range && a.severity == b.severity
                ==> text::text_le(a.message@, b.message@)
            &&& a.path@ == b.path@ && a.range == b.range && a.severity == b.severity && a.message@
                == b.message@ && b.code is None ==> a.code is None
        }),
{
    lemma_order();
    let le = diagnostics::diagnostic_order();
    order::lemma_arranged(diagnostics::kept(found@, filter), le);
    let a = r.value@[i];
    let b = r.value@[j];
    assert(le(a, b));
    text::lemma_text_le_total(a.path@, b.path@);
    text::lemma_text_le_total(a.message@, b.message@);
}

/// Sorting keeps every diagnostic.
pub proof fn law_sorting_keeps_every_diagnostic(
    v: Vec<Diagnostic>,
    out: Vec<Diagnostic>,
    d: Diagnostic,
)
    requires
        call_ensures(diagnostics::sort_diagnostics, (v,), out),
    ensures
        out@.to_multiset().count(d) == v@.to_multiset().count(d),
        out@.len() == v@.len(),
{
    lemma_order();
    order::lemma_arranged(v@, diagnostics::diagnostic_order());
}

/// Diagnostics are waited for where the server refused the request or took too
/// long, and in no other case.
pub proof fn law_refusals_and_delays_fall_back(err: &LspError, r: bool)
    requires
        call_ensures(diagnostics::pull_should_fall_back, (err,), r),
    ensures
        r <==> match *err {
            LspError::Unavailable(_, _) => false,
            LspError::Startup(_, _) => false,
            LspError::Timeout(_) => true,
            LspError::ContentModified => false,
            LspError::Protocol(_) => true,
            LspError::Crashed => false,
        },
{
}

/// A reply of the server settles the matter; so does a failure after which there
/// is nothing to wait for, and then the note names the file.
pub proof fn law_replies_settle_a_fetch(
    reply: &Result<Vec<Diagnostic>, LspError>,
    path: &RelPath,
    filter: SeverityFilter,
    r: Option<Precise<Vec<Diagnostic>>>,
    given: Vec<Diagnostic>,
    whole: Precise<Vec<Diagnostic>>,
)
    requires
        call_ensures(diagnostics::after_pull, (reply, path, filter), r),
        call_ensures(diagnostics::finalize, (&given, filter), whole),
    ensures
        *reply == Ok::<Vec<Diagnostic>, LspError>(given) ==> (r matches Some(a) && a.value@
            == whole.value@ && a.confidence == Confidence::Exact),
        r is None <==> (reply matches Err(e) && (e is Protocol || e is Timeout)),
        reply is Err ==> (r matches Some(a) ==> a.value@.len() == 0 && a.confidence
            == Confidence::Unknown && a.note is Some && text::contains_text(
            a.note.unwrap()@,
            path@,
        )),
{
    if let Err(e) = *reply {
        if let Some(a) = r {
            lemma_names(
                "could not fetch diagnostics for "@,
                path@,
                ": "@ + lsp::error_text(e),
                a.note.unwrap()@,
            );
        }
    }
}

proof fn lemma_names(front: Seq<char>, path: Seq<char>, rest: Seq<char>, note: Seq<char>)
    requires
        note =~= front + path + rest,
    ensures
        text::contains_text(note, path),
{
    assert(laws::text::runs_from(note, path, front.len() as int));
    laws::text::law_texts_hold_what_stands_in_them(note, path);
}

/// What the server publishes is the answer. Its silence is none: then, and where
/// waiting failed, nothing is reported, and a note names the file.
pub proof fn law_silence_is_noted(
    waited: &Result<PushWait, LspError>,
    path: &RelPath,
    options: FetchOptions,
    r: Precise<Vec<Diagnostic>>,
    given: Vec<Diagnostic>,
    whole: Precise<Vec<Diagnostic>>,
)
    requires
        call_ensures(diagnostics::after_push, (waited, path, options), r),
        call_ensures(diagnostics::finalize, (&given, options.filter), whole),
    ensures
        *waited == Ok::<PushWait, LspError>(PushWait::Received(given)) ==> r.value@ == whole.value@
            && r.confidence == Confidence::Exact,
        !(waited matches Ok(PushWait::Received(_))) ==> r.value@.len() == 0 && r.confidence
            == Confidence::Unknown && r.note is Some && text::contains_text(
            r.note.unwrap()@,
            path@,
        ),
{
    match *waited {
        Err(e) => {
            lemma_names(
                "could not fetch diagnostics for "@,
                path@,
                ": "@ + lsp::error_text(e),
                r.note.unwrap()@,
            );
        },
        Ok(PushWait::NeverReceived) => {
            lemma_names(
                "timed out after "@ + lsp::duration_debug(options.push_timeout)
                    + " waiting for textDocument/publishDiagnostics on "@,
                path@,
                "; the server never published, so an empty list does not mean the file is clean"@,
                r.note.unwrap()@,
            );
        },
        _ => {},
    }
}

/// Without a server the note names the file.
pub proof fn law_missing_servers_are_noted(path: &RelPath, r: String)
    requires
        call_ensures(diagnostics::no_server_note, (path,), r),
    ensures
        text::contains_text(r@, path@),
{
    match types::language_of_path(path@) {
        Some(language) => {
            lemma_names(
                "no language server available for "@ + lsp::language_title(language)
                    + "; cannot check diagnostics for "@,
                path@,
                Seq::empty(),
                r@,
            );
        },
        None => {
            lemma_names(
                "no language server available; cannot check diagnostics for "@,
                path@,
                Seq::empty(),
                r@,
            );
        },
    }
}

/// A published diagnostic keeps its place, its message and its code; its severity
/// too, and counts as an error where it has none.
pub proof fn law_unknown_severities_are_errors(path: &RelPath, d: &Published, r: Diagnostic)
    requires
        call_ensures(diagnostics::from_lsp_diagnostic, (path, d), r),
    ensures
        r.path@ == path@,
        r.range == d.range,
        r.message@ == d.message@,
        d.severity matches Some(s) ==> r.severity == s,
        d.severity is None ==> r.severity == Severity::Error,
        r.code is Some <==> d.code is Some,
        d.code matches Some(Code::Text(s)) ==> r.code.unwrap()@ == s@,
        d.code matches Some(Code::Number(n)) ==> text::signed_value(r.code.unwrap()@) == Some(
            n as int,
        ),
{
    let f = lsp::wire::finding(r);
    assert(f.path == path@ && f.message == d.message@);
    if let Some(Code::Number(n)) = d.code {
        laws::text::law_numbers_read_back(
            if n < 0 {
                (-n) as nat
            } else {
                n as nat
            },
        );
        assert(f.code == Some(lsp::wire::signed_decimal(n as int)));
    }
    if let Some(Code::Text(s)) = d.code {
        assert(f.code == Some(s@));
    }
}

/// A full report holds each of its diagnostics, one for one, and a report that
/// nothing has changed holds no answer.
pub proof fn law_reports_hold_each_diagnostic(
    path: &RelPath,
    report: &Report,
    r: Option<Vec<Diagnostic>>,
    k: int,
    one: Diagnostic,
)
    requires
        call_ensures(diagnostics::from_document_diagnostic_report, (path, report), r),
        report matches Report::Full(items) ==> 0 <= k < items@.len() && call_ensures(
            diagnostics::from_lsp_diagnostic,
            (path, &items@[k]),
            one,
        ),
    ensures
        r is None <==> report is Unchanged,
        report matches Report::Full(items) ==> r.unwrap()@.len() == items@.len()
            && lsp::wire::finding(r.unwrap()@[k]) == lsp::wire::finding(one),
{
    if let Report::Full(items) = *report {
        let v = r.unwrap();
        let all = items@.map_values(|d: Published| diagnostics::strict_finding(path@, d));
        assert(lsp::wire::findings(v@) == all);
        assert(lsp::wire::findings(v@).len() == v@.len());
        assert(lsp::wire::findings(v@)[k] == lsp::wire::finding(v@[k]));
        assert(all[k] == diagnostics::strict_finding(path@, items@[k]));
    }
}

} // verus!
