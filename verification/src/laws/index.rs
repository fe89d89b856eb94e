//! The graph of a repository, and the report on it.

use crate::graph::CodeGraph;
use crate::index;
use crate::index::{Call, Import, IndexOptions, IndexReport, Outcome, ParsedSource};
use crate::order;
use crate::reuse;
use crate::types::{CodeEdge, CodeSymbol, EdgeKind, FileId, RelPath};
use vstd::prelude::*;

verus! {

/// One of the edges joins the two in this way.
pub open spec fn has_edge(edges: Seq<CodeEdge>, kind: EdgeKind, from: int, to: int) -> bool {
    exists|k: int| 0 <= k < edges.len() && joins(#[trigger] edges[k], kind, from, to)
}

/// An edge joins the two in this way.
pub open spec fn joins(e: CodeEdge, kind: EdgeKind, from: int, to: int) -> bool {
    e.kind == kind && e.from == from && e.to == to
}

/// An import was resolved to the file with this path.
pub open spec fn leads_to(import: Import, path: Seq<char>) -> bool {
    import.target matches Some(target) && target@ == path
}

/// How many of the first `n` imports were resolved to the file with this path.
pub open spec fn leading_to(imports: Seq<Import>, path: Seq<char>, n: nat) -> nat
    decreases n,
{
    if n == 0 {
        0
    } else {
        leading_to(imports, path, (n - 1) as nat) + (if leads_to(imports[n - 1], path) {
            1nat
        } else {
            0nat
        })
    }
}

proof fn lemma_id(ps: Seq<ParsedSource>, path: Seq<char>, j: int)
    requires
        index::distinct_paths(ps),
        0 <= j < ps.len(),
    ensures
        index::id_of(ps, path, ps.len()) == Some(j) <==> ps[j].path@ == path,
{
    index::lemma_id_of(ps, path, ps.len());
    if let Some(k) = index::id_of(ps, path, ps.len()) {
        if ps[j].path@ == path {
            if k < j {
                assert(ps[k].path@ != ps[j].path@);
            } else if j < k {
                assert(ps[j].path@ != ps[k].path@);
            }
        }
    }
}

proof fn lemma_own(ps: Seq<ParsedSource>, i: int)
    requires
        index::distinct_paths(ps),
        ps.len() <= u32::MAX,
        0 <= i < ps.len(),
    ensures
        index::own_id(ps, i).0 == i,
{
    lemma_id(ps, ps[i].path@, i);
}

proof fn lemma_count_add(a: Seq<CodeEdge>, b: Seq<CodeEdge>, e: CodeEdge)
    ensures
        index::count_like(a + b, e) == index::count_like(a, e) + index::count_like(b, e),
    decreases b.len(),
{
    reveal(Seq::filter);
    if b.len() == 0 {
        assert(a + b =~= a);
        assert(b.filter(index::like(e)).len() == 0);
    } else {
        lemma_count_add(a, b.drop_last(), e);
        assert((a + b).drop_last() =~= a + b.drop_last());
    }
}

proof fn lemma_count_push(a: Seq<CodeEdge>, x: CodeEdge, e: CodeEdge)
    ensures
        index::count_like(a.push(x), e) == index::count_like(a, e) + (if index::same_edge(x, e) {
            1nat
        } else {
            0nat
        }),
{
    reveal(Seq::filter);
    assert(a.push(x).drop_last() =~= a);
}

/// How often an import edge is listed for one file.
proof fn lemma_count_at(ps: Seq<ParsedSource>, i: int, m: nat, from: int, j: int, e: CodeEdge)
    requires
        index::distinct_paths(ps),
        ps.len() <= u32::MAX,
        0 <= i < ps.len(),
        0 <= j < ps.len(),
        m <= ps[i].imports@.len(),
        joins(e, EdgeKind::Import, from, j),
    ensures
        index::count_like(index::imports_at(ps, i, m), e) == (if i == from {
            leading_to(ps[i].imports@, ps[j].path@, m)
        } else {
            0
        }),
    decreases m,
{
    if m == 0 {
        reveal(Seq::filter);
    } else {
        let l = (m - 1) as nat;
        lemma_count_at(ps, i, l, from, j, e);
        lemma_own(ps, i);
        let before = index::imports_at(ps, i, l);
        if let Some(path) = ps[i].imports@[m - 1].target {
            index::lemma_id_of(ps, path@, ps.len());
            lemma_id(ps, path@, j);
            if let Some(to) = index::id_of(ps, path@, ps.len()) {
                lemma_count_push(before, index::import_edge(index::own_id(ps, i).0, to as u32), e);
            }
        }
    }
}

proof fn lemma_count_imports(ps: Seq<ParsedSource>, n: nat, i: int, j: int, e: CodeEdge)
    requires
        index::distinct_paths(ps),
        ps.len() <= u32::MAX,
        0 <= i < ps.len(),
        0 <= j < ps.len(),
        n <= ps.len(),
        joins(e, EdgeKind::Import, i, j),
    ensures
        index::count_like(index::imports_of(ps, n), e) == (if i < n {
            leading_to(ps[i].imports@, ps[j].path@, ps[i].imports@.len())
        } else {
            0
        }),
    decreases n,
{
    if n == 0 {
        reveal(Seq::filter);
    } else {
        let m = (n - 1) as nat;
        lemma_count_imports(ps, m, i, j, e);
        lemma_count_at(ps, n - 1, ps[n - 1].imports@.len(), i, j, e);
        lemma_count_add(
            index::imports_of(ps, m),
            index::imports_at(ps, n - 1, ps[n - 1].imports@.len()),
            e,
        );
    }
}

/// Edges of another kind do not count.
proof fn lemma_count_kind(edges: Seq<CodeEdge>, e: CodeEdge)
    requires
        forall|k: int| 0 <= k < edges.len() ==> (#[trigger] edges[k]).kind != e.kind,
    ensures
        index::count_like(edges, e) == 0,
    decreases edges.len(),
{
    reveal(Seq::filter);
    if edges.len() > 0 {
        let front = edges.drop_last();
        assert(edges[edges.len() - 1].kind != e.kind);
        assert forall|k: int| 0 <= k < front.len() implies (#[trigger] front[k]).kind != e.kind by {
            assert(front[k] == edges[k]);
        }
        lemma_count_kind(front, e);
    }
}

proof fn lemma_calls_are_calls(ps: Seq<ParsedSource>, symbols: Seq<CodeSymbol>, n: nat, k: int)
    requires
        0 <= k < index::calls_of(ps, symbols, n).len(),
    ensures
        index::calls_of(ps, symbols, n)[k].kind == EdgeKind::Call,
    decreases n,
{
    if n > 0 {
        let before = index::calls_of(ps, symbols, (n - 1) as nat);
        if k < before.len() {
            lemma_calls_are_calls(ps, symbols, (n - 1) as nat, k);
        } else {
            lemma_calls_at_are_calls(
                ps,
                symbols,
                n - 1,
                ps[n - 1].calls@.len(),
                k - before.len(),
            );
        }
    }
}

proof fn lemma_calls_at_are_calls(
    ps: Seq<ParsedSource>,
    symbols: Seq<CodeSymbol>,
    i: int,
    m: nat,
    k: int,
)
    requires
        0 <= k < index::calls_at(ps, symbols, i, m).len(),
    ensures
        index::calls_at(ps, symbols, i, m)[k].kind == EdgeKind::Call,
    decreases m,
{
    if m > 0 {
        let before = index::calls_at(ps, symbols, i, (m - 1) as nat);
        if k < before.len() {
            lemma_calls_at_are_calls(ps, symbols, i, (m - 1) as nat, k);
        } else {
            let call = ps[i].calls@[m - 1];
            let name = index::short_name(call.callee@);
            let targets = index::targets_of(symbols, name);
            if let Some(b) = index::caller_at(
                symbols,
                index::own_id(ps, i),
                call.line,
                symbols.len(),
            ) {
                if targets.len() <= index::MAX_SYNTACTIC_CALL_TARGETS {
                    lemma_edges_are_calls(
                        symbols,
                        symbols[b].id,
                        targets,
                        targets.len(),
                        k - before.len(),
                    );
                }
            }
        }
    }
}

proof fn lemma_edges_are_calls(
    symbols: Seq<CodeSymbol>,
    caller: crate::types::SymbolId,
    targets: Seq<usize>,
    m: nat,
    k: int,
)
    requires
        0 <= k < index::edges_to(symbols, caller, targets, m).len(),
    ensures
        index::edges_to(symbols, caller, targets, m)[k].kind == EdgeKind::Call,
    decreases m,
{
    if m > 0 {
        let before = index::edges_to(symbols, caller, targets, (m - 1) as nat);
        if k < before.len() {
            lemma_edges_are_calls(symbols, caller, targets, (m - 1) as nat, k);
        }
    }
}

proof fn lemma_leading(imports: Seq<Import>, path: Seq<char>, n: nat)
    requires
        n <= imports.len(),
    ensures
        leading_to(imports, path, n) > 0 <==> exists|m: int|
            0 <= m < n && leads_to(#[trigger] imports[m], path),
    decreases n,
{
    if n > 0 {
        lemma_leading(imports, path, (n - 1) as nat);
        if leads_to(imports[n - 1], path) {
            assert(leads_to(imports[n - 1], path));
        }
    }
}

proof fn lemma_raw_imports(ps: Seq<ParsedSource>, call_edges: bool, i: int, j: int, e: CodeEdge)
    requires
        index::distinct_paths(ps),
        ps.len() <= u32::MAX,
        0 <= i < ps.len(),
        0 <= j < ps.len(),
        joins(e, EdgeKind::Import, i, j),
    ensures
        index::count_like(index::raw_edges(ps, call_edges), e) == leading_to(
            ps[i].imports@,
            ps[j].path@,
            ps[i].imports@.len(),
        ),
{
    let n = ps.len();
    lemma_count_imports(ps, n, i, j, e);
    if call_edges {
        let symbols = index::symbols_of(ps, n);
        let calls = index::calls_of(ps, symbols, n);
        assert forall|k: int| 0 <= k < calls.len() implies (#[trigger] calls[k]).kind != e.kind by {
            lemma_calls_are_calls(ps, symbols, n, k);
        }
        lemma_count_kind(calls, e);
        lemma_count_add(index::imports_of(ps, n), calls, e);
    }
}

/// Whatever is counted among the edges is one of them once they are merged, and
/// the other way round.
proof fn lemma_merged_holds(
    merged: Seq<CodeEdge>,
    raw: Seq<CodeEdge>,
    kind: EdgeKind,
    from: int,
    to: int,
    e: CodeEdge,
)
    requires
        index::are_merged(merged, raw),
        joins(e, kind, from, to),
    ensures
        has_edge(merged, kind, from, to) <==> index::count_like(raw, e) > 0,
        forall|k: int|
            0 <= k < merged.len() && joins(#[trigger] merged[k], kind, from, to)
                ==> merged[k].weight == index::count_like(raw, e),
{
    assert forall|k: int|
        0 <= k < merged.len() && joins(
            #[trigger] merged[k],
            kind,
            from,
            to,
        ) implies merged[k].weight == index::count_like(raw, e) by {
        assert(index::like(merged[k]) =~= index::like(e));
    }
    if has_edge(merged, kind, from, to) {
        let k = choose|k: int|
            0 <= k < merged.len() && joins(#[trigger] merged[k], kind, from, to);
        assert(merged[k].weight > 0);
    }
    if index::count_like(raw, e) > 0 {
        index::lemma_count_witness(raw, e);
        let r = choose|r: int| 0 <= r < raw.len() && index::same_edge(#[trigger] raw[r], e);
        assert(index::holds_like(merged, raw[r]));
        let m = choose|m: int|
            0 <= m < merged.len() && index::same_edge(#[trigger] merged[m], raw[r]);
        assert(joins(merged[m], kind, from, to));
    }
}

/// One file is joined to another by an import edge exactly where one of its
/// imports, however it is written, was resolved to the path of the other. The
/// weight of the edge is the number of those imports, and it is as sure as build
/// configuration is.
pub proof fn law_resolved_imports_are_edges(
    g: CodeGraph,
    ps: Seq<ParsedSource>,
    call_edges: bool,
    i: int,
    j: int,
)
    requires
        index::is_graph_of(g, ps, call_edges),
        index::distinct_paths(ps),
        ps.len() <= u32::MAX,
        0 <= i < ps.len(),
        0 <= j < ps.len(),
    ensures
        has_edge(g.edges@, EdgeKind::Import, i, j) <==> exists|m: int|
            0 <= m < ps[i].imports@.len() && leads_to(
                #[trigger] ps[i].imports@[m],
                ps[j].path@,
            ),
        forall|k: int|
            0 <= k < g.edges@.len() && joins(#[trigger] g.edges@[k], EdgeKind::Import, i, j) ==> {
                &&& g.edges@[k].weight == leading_to(
                    ps[i].imports@,
                    ps[j].path@,
                    ps[i].imports@.len(),
                )
                &&& g.edges@[k].confidence == crate::types::Confidence::Scoped
            },
{
    let e = index::import_edge(i as u32, j as u32);
    let raw = index::raw_edges(ps, call_edges);
    lemma_raw_imports(ps, call_edges, i, j, e);
    lemma_merged_holds(g.edges@, raw, EdgeKind::Import, i, j, e);
    lemma_leading(ps[i].imports@, ps[j].path@, ps[i].imports@.len());
}

// ----------------------------------------------------------------- calls

/// A symbol of the file spans the line.
pub open spec fn is_on_line(s: CodeSymbol, file: int, line: u32) -> bool {
    s.file.0 == file && s.start_line <= line && line <= s.end_line
}

/// The symbol at `a` is the innermost one on a line of a file: no other there is
/// shorter, and the first of several as short.
pub open spec fn is_innermost(symbols: Seq<CodeSymbol>, file: int, line: u32, a: int) -> bool {
    &&& 0 <= a < symbols.len()
    &&& is_on_line(symbols[a], file, line)
    &&& forall|c: int|
        0 <= c < symbols.len() && is_on_line(#[trigger] symbols[c], file, line) ==> {
            let own = symbols[a].end_line - symbols[a].start_line;
            let other = symbols[c].end_line - symbols[c].start_line;
            own < other || (own == other && a <= c)
        }
}

/// How many of the first `n` symbols have this name.
pub open spec fn bearing(symbols: Seq<CodeSymbol>, name: Seq<char>, n: nat) -> nat
    decreases n,
{
    if n == 0 {
        0
    } else {
        bearing(symbols, name, (n - 1) as nat) + (if symbols[n - 1].name@ == name {
            1nat
        } else {
            0nat
        })
    }
}

/// A call on a line of a file leads from the symbol at `a` to the one at `b`: the
/// one is the innermost on that line, the other another symbol that bears the
/// called name, which no more than fifty do.
pub open spec fn calls_over(
    symbols: Seq<CodeSymbol>,
    file: int,
    call: Call,
    a: int,
    b: int,
) -> bool {
    let name = index::short_name(call.callee@);
    &&& is_innermost(symbols, file, call.line, a)
    &&& 0 <= b < symbols.len()
    &&& symbols[b].name@ == name
    &&& a != b
    &&& bearing(symbols, name, symbols.len()) <= 50
}

proof fn lemma_innermost(symbols: Seq<CodeSymbol>, file: FileId, line: u32, a: int)
    ensures
        index::caller_at(symbols, file, line, symbols.len()) == Some(a) <==> is_innermost(
            symbols,
            file.0 as int,
            line,
            a,
        ),
{
    lemma_innermost_of(symbols, file, line, symbols.len());
    let found = index::caller_at(symbols, file, line, symbols.len());
    if is_innermost(symbols, file.0 as int, line, a) {
        assert(is_on_line(symbols[a], file.0 as int, line));
        if let Some(b) = found {
            assert(is_on_line(symbols[b], file.0 as int, line));
        }
    }
}

proof fn lemma_innermost_of(symbols: Seq<CodeSymbol>, file: FileId, line: u32, n: nat)
    requires
        n <= symbols.len(),
    ensures
        match index::caller_at(symbols, file, line, n) {
            Some(a) => {
                &&& 0 <= a < n
                &&& is_on_line(symbols[a], file.0 as int, line)
                &&& forall|c: int|
                    0 <= c < n && is_on_line(#[trigger] symbols[c], file.0 as int, line) ==> {
                        let own = symbols[a].end_line - symbols[a].start_line;
                        let other = symbols[c].end_line - symbols[c].start_line;
                        own < other || (own == other && a <= c)
                    }
            },
            None => forall|c: int|
                0 <= c < n ==> !is_on_line(#[trigger] symbols[c], file.0 as int, line),
        },
    decreases n,
{
    if n > 0 {
        lemma_innermost_of(symbols, file, line, (n - 1) as nat);
    }
}

proof fn lemma_bearing(symbols: Seq<CodeSymbol>, name: Seq<char>, n: nat)
    requires
        n <= symbols.len(),
        symbols.len() <= usize::MAX,
    ensures
        index::places(n).filter(index::has_name(symbols, name)).len() == bearing(symbols, name, n),
    decreases n,
{
    reveal(Seq::filter);
    if n > 0 {
        lemma_bearing(symbols, name, (n - 1) as nat);
        assert(index::places(n).drop_last() =~= index::places((n - 1) as nat));
        assert(index::places(n).last() == (n - 1) as usize);
    } else {
        assert(index::places(n) =~= Seq::<usize>::empty());
    }
}

proof fn lemma_target_holds(symbols: Seq<CodeSymbol>, name: Seq<char>, b: int)
    requires
        0 <= b < symbols.len(),
        symbols.len() <= usize::MAX,
    ensures
        index::targets_of(symbols, name).contains(b as usize) <==> symbols[b].name@ == name,
{
    let all = index::places(symbols.len());
    let f = index::has_name(symbols, name);
    assert(all[b] == b as usize);
    if symbols[b].name@ == name {
        all.lemma_filter_contains(f, b);
    }
    if index::targets_of(symbols, name).contains(b as usize) {
        let k = choose|k: int| 0 <= k < all.filter(f).len() && all.filter(f)[k] == b as usize;
        all.lemma_filter_pred(f, k);
    }
}

spec fn numbered(symbols: Seq<CodeSymbol>) -> bool {
    symbols.len() <= u32::MAX && forall|k: int|
        0 <= k < symbols.len() ==> (#[trigger] symbols[k]).id.0 == k
}

proof fn lemma_edges_to_hold(
    symbols: Seq<CodeSymbol>,
    caller: crate::types::SymbolId,
    targets: Seq<usize>,
    m: nat,
    a: int,
    b: int,
)
    requires
        numbered(symbols),
        caller.0 == a,
        0 <= b < symbols.len(),
        m <= targets.len(),
        forall|k: int| 0 <= k < targets.len() ==> (#[trigger] targets[k]) < symbols.len(),
    ensures
        has_edge(index::edges_to(symbols, caller, targets, m), EdgeKind::Call, a, b) <==> a != b
            && targets.take(m as int).contains(b as usize),
        forall|from: int, to: int| #[trigger]
            has_edge(index::edges_to(symbols, caller, targets, m), EdgeKind::Call, from, to)
                ==> from == a,
    decreases m,
{
    let all = index::edges_to(symbols, caller, targets, m);
    if m == 0 {
        assert(all.len() == 0);
    } else {
        let l = (m - 1) as nat;
        lemma_edges_to_hold(symbols, caller, targets, l, a, b);
        let before = index::edges_to(symbols, caller, targets, l);
        let t = targets[m - 1];
        assert(targets.take(m as int).drop_last() =~= targets.take(l as int));
        assert(symbols[t as int].id.0 == t);
        if targets.take(l as int).contains(b as usize) {
            let k = choose|k: int|
                0 <= k < targets.take(l as int).len() && targets.take(l as int)[k] == b as usize;
            assert(targets.take(m as int)[k] == b as usize);
        }
        if t == b as usize {
            assert(targets.take(m as int)[m - 1] == b as usize);
        }
        if targets.take(m as int).contains(b as usize) {
            let k = choose|k: int|
                0 <= k < targets.take(m as int).len() && targets.take(m as int)[k] == b as usize;
            if k < l {
                assert(targets.take(l as int)[k] == b as usize);
            }
        }
        if t != a {
            let new = index::call_edge(caller.0, symbols[t as int].id.0);
            assert(all == before.push(new));
            lemma_has_edge_push(before, new, EdgeKind::Call, a, b);
            assert forall|from: int, to: int| #[trigger]
                has_edge(all, EdgeKind::Call, from, to) implies from == a by {
                lemma_has_edge_push(before, new, EdgeKind::Call, from, to);
            }
        }
    }
}

proof fn lemma_has_edge_push(s: Seq<CodeEdge>, x: CodeEdge, kind: EdgeKind, a: int, b: int)
    ensures
        has_edge(s.push(x), kind, a, b) <==> has_edge(s, kind, a, b) || joins(x, kind, a, b),
{
    let t = s.push(x);
    if has_edge(s, kind, a, b) {
        let k = choose|k: int| 0 <= k < s.len() && joins(#[trigger] s[k], kind, a, b);
        assert(joins(t[k], kind, a, b));
    }
    if joins(x, kind, a, b) {
        assert(joins(t[s.len() as int], kind, a, b));
    }
    if has_edge(t, kind, a, b) {
        let k = choose|k: int| 0 <= k < t.len() && joins(#[trigger] t[k], kind, a, b);
        if k < s.len() {
            assert(joins(s[k], kind, a, b));
        }
    }
}

proof fn lemma_has_edge_add(s: Seq<CodeEdge>, t: Seq<CodeEdge>, kind: EdgeKind, a: int, b: int)
    ensures
        has_edge(s + t, kind, a, b) <==> has_edge(s, kind, a, b) || has_edge(t, kind, a, b),
{
    let u = s + t;
    if has_edge(s, kind, a, b) {
        let k = choose|k: int| 0 <= k < s.len() && joins(#[trigger] s[k], kind, a, b);
        assert(joins(u[k], kind, a, b));
    }
    if has_edge(t, kind, a, b) {
        let k = choose|k: int| 0 <= k < t.len() && joins(#[trigger] t[k], kind, a, b);
        assert(joins(u[s.len() + k], kind, a, b));
    }
    if has_edge(u, kind, a, b) {
        let k = choose|k: int| 0 <= k < u.len() && joins(#[trigger] u[k], kind, a, b);
        if k < s.len() {
            assert(joins(s[k], kind, a, b));
        } else {
            assert(joins(t[k - s.len()], kind, a, b));
        }
    }
}

proof fn lemma_call_holds(
    symbols: Seq<CodeSymbol>,
    file: FileId,
    call: Call,
    a: int,
    b: int,
)
    requires
        numbered(symbols),
        0 <= a < symbols.len(),
        0 <= b < symbols.len(),
    ensures
        has_edge(index::edges_of_call(symbols, file, call), EdgeKind::Call, a, b) <==> calls_over(
            symbols,
            file.0 as int,
            call,
            a,
            b,
        ),
{
    let name = index::short_name(call.callee@);
    let targets = index::targets_of(symbols, name);
    let all = index::places(symbols.len());
    lemma_innermost(symbols, file, call.line, a);
    lemma_bearing(symbols, name, symbols.len());
    lemma_target_holds(symbols, name, b);
    assert forall|k: int| 0 <= k < targets.len() implies (#[trigger] targets[k])
        < symbols.len() by {
        all.lemma_filter_pred(index::has_name(symbols, name), k);
    }
    assert(targets.take(targets.len() as int) =~= targets);
    if let Some(c) = index::caller_at(symbols, file, call.line, symbols.len()) {
        lemma_innermost_of(symbols, file, call.line, symbols.len());
        assert(symbols[c].id.0 == c);
        if targets.len() <= index::MAX_SYNTACTIC_CALL_TARGETS {
            lemma_edges_to_hold(symbols, symbols[c].id, targets, targets.len(), c, b);
        }
    }
}

/// One of the first `m` calls of the file at `i` leads from `a` to `b`.
spec fn calls_among(
    ps: Seq<ParsedSource>,
    symbols: Seq<CodeSymbol>,
    i: int,
    m: int,
    a: int,
    b: int,
) -> bool {
    exists|l: int|
        0 <= l < m && calls_over(symbols, i, #[trigger] ps[i].calls@[l], a, b)
}

proof fn lemma_calls_at_hold(
    ps: Seq<ParsedSource>,
    symbols: Seq<CodeSymbol>,
    i: int,
    m: nat,
    a: int,
    b: int,
)
    requires
        index::distinct_paths(ps),
        ps.len() <= u32::MAX,
        numbered(symbols),
        0 <= i < ps.len(),
        m <= ps[i].calls@.len(),
        0 <= a < symbols.len(),
        0 <= b < symbols.len(),
    ensures
        has_edge(index::calls_at(ps, symbols, i, m), EdgeKind::Call, a, b) <==> calls_among(
            ps,
            symbols,
            i,
            m as int,
            a,
            b,
        ),
    decreases m,
{
    if m > 0 {
        let l = (m - 1) as nat;
        let call = ps[i].calls@[m - 1];
        lemma_own(ps, i);
        lemma_calls_at_hold(ps, symbols, i, l, a, b);
        lemma_call_holds(symbols, index::own_id(ps, i), call, a, b);
        lemma_has_edge_add(
            index::calls_at(ps, symbols, i, l),
            index::edges_of_call(symbols, index::own_id(ps, i), call),
            EdgeKind::Call,
            a,
            b,
        );
        if calls_over(symbols, i, call, a, b) {
            assert(calls_over(symbols, i, ps[i].calls@[m - 1], a, b));
        }
    }
}

proof fn lemma_calls_hold(
    ps: Seq<ParsedSource>,
    symbols: Seq<CodeSymbol>,
    n: nat,
    a: int,
    b: int,
)
    requires
        index::distinct_paths(ps),
        ps.len() <= u32::MAX,
        numbered(symbols),
        n <= ps.len(),
        0 <= a < symbols.len(),
        0 <= b < symbols.len(),
    ensures
        has_edge(index::calls_of(ps, symbols, n), EdgeKind::Call, a, b) <==> exists|i: int|
            0 <= i < n && #[trigger] calls_among(ps, symbols, i, ps[i].calls@.len() as int, a, b),
    decreases n,
{
    if n > 0 {
        let m = (n - 1) as nat;
        lemma_calls_hold(ps, symbols, m, a, b);
        lemma_calls_at_hold(ps, symbols, n - 1, ps[n - 1].calls@.len(), a, b);
        lemma_has_edge_add(
            index::calls_of(ps, symbols, m),
            index::calls_at(ps, symbols, n - 1, ps[n - 1].calls@.len()),
            EdgeKind::Call,
            a,
            b,
        );
    }
}

proof fn lemma_has_edge_counts(raw: Seq<CodeEdge>, kind: EdgeKind, a: int, b: int, e: CodeEdge)
    requires
        joins(e, kind, a, b),
    ensures
        has_edge(raw, kind, a, b) <==> index::count_like(raw, e) > 0,
    decreases raw.len(),
{
    reveal(Seq::filter);
    if raw.len() > 0 {
        let front = raw.drop_last();
        lemma_has_edge_counts(front, kind, a, b, e);
        assert(raw =~= front.push(raw.last()));
        lemma_has_edge_push(front, raw.last(), kind, a, b);
    }
}

proof fn lemma_no_imports_are_calls(ps: Seq<ParsedSource>, n: nat, k: int)
    requires
        0 <= k < index::imports_of(ps, n).len(),
    ensures
        index::imports_of(ps, n)[k].kind == EdgeKind::Import,
    decreases n,
{
    if n > 0 {
        let before = index::imports_of(ps, (n - 1) as nat);
        if k < before.len() {
            lemma_no_imports_are_calls(ps, (n - 1) as nat, k);
        } else {
            lemma_imports_at_kind(ps, n - 1, ps[n - 1].imports@.len(), k - before.len());
        }
    }
}

proof fn lemma_imports_at_kind(ps: Seq<ParsedSource>, i: int, m: nat, k: int)
    requires
        0 <= k < index::imports_at(ps, i, m).len(),
    ensures
        index::imports_at(ps, i, m)[k].kind == EdgeKind::Import,
    decreases m,
{
    if m > 0 {
        let before = index::imports_at(ps, i, (m - 1) as nat);
        if k < before.len() {
            lemma_imports_at_kind(ps, i, (m - 1) as nat, k);
        }
    }
}

/// One symbol is joined to another by a call edge exactly where some file has a
/// call that leads from the one to the other, if calls are asked for, and none is
/// otherwise.
pub proof fn law_calls_are_edges(
    g: CodeGraph,
    ps: Seq<ParsedSource>,
    call_edges: bool,
    a: int,
    b: int,
)
    requires
        index::is_graph_of(g, ps, call_edges),
        index::distinct_paths(ps),
        ps.len() <= u32::MAX,
        g.symbols@.len() <= u32::MAX,
        0 <= a < g.symbols@.len(),
        0 <= b < g.symbols@.len(),
    ensures
        has_edge(g.edges@, EdgeKind::Call, a, b) <==> call_edges && exists|i: int, m: int|
            0 <= i < ps.len() && 0 <= m < ps[i].calls@.len() && calls_over(
                g.symbols@,
                i,
                #[trigger] ps[i].calls@[m],
                a,
                b,
            ),
        forall|k: int|
            0 <= k < g.edges@.len() && (#[trigger] g.edges@[k]).kind == EdgeKind::Call
                ==> call_edges && g.edges@[k].confidence == crate::types::Confidence::Syntactic,
{
    let n = ps.len();
    let symbols = g.symbols@;
    let raw = index::raw_edges(ps, call_edges);
    let imports = index::imports_of(ps, n);
    let e = index::call_edge(a as u32, b as u32);
    index::law_numbers_are_places(g, ps, call_edges);
    assert(numbered(symbols));
    lemma_merged_holds(g.edges@, raw, EdgeKind::Call, a, b, e);
    lemma_has_edge_counts(raw, EdgeKind::Call, a, b, e);
    assert(!has_edge(imports, EdgeKind::Call, a, b)) by {
        if has_edge(imports, EdgeKind::Call, a, b) {
            let k = choose|k: int|
                0 <= k < imports.len() && joins(#[trigger] imports[k], EdgeKind::Call, a, b);
            lemma_no_imports_are_calls(ps, n, k);
        }
    }
    lemma_calls_hold(ps, symbols, n, a, b);
    if call_edges {
        lemma_has_edge_add(imports, index::calls_of(ps, symbols, n), EdgeKind::Call, a, b);
    }
    if exists|i: int, m: int|
        0 <= i < ps.len() && 0 <= m < ps[i].calls@.len() && calls_over(
            symbols,
            i,
            #[trigger] ps[i].calls@[m],
            a,
            b,
        ) {
        let (i, m) = choose|i: int, m: int|
            0 <= i < ps.len() && 0 <= m < ps[i].calls@.len() && calls_over(
                symbols,
                i,
                #[trigger] ps[i].calls@[m],
                a,
                b,
            );
        assert(calls_among(ps, symbols, i, ps[i].calls@.len() as int, a, b));
    }
    assert forall|k: int|
        0 <= k < g.edges@.len() && (#[trigger] g.edges@[k]).kind
            == EdgeKind::Call implies call_edges && g.edges@[k].confidence
        == crate::types::Confidence::Syntactic by {
        let x = g.edges@[k];
        index::lemma_count_witness(raw, x);
        if !call_edges {
            let r = choose|r: int| 0 <= r < raw.len() && index::same_edge(#[trigger] raw[r], x);
            lemma_no_imports_are_calls(ps, n, r);
        }
    }
}

// -------------------------------------------------------------- callees

/// A character that parts the names of a callee.
pub open spec fn parts_names(c: char) -> bool {
    c == '.' || c == ':'
}

/// A call is known by the last of the names that dots and colons part: the last
/// run of other characters, all of it. A callee of dots and colons alone is known
/// as it is.
pub proof fn law_calls_are_known_by_their_last_name(callee: Seq<char>)
    ensures
        (exists|k: int| 0 <= k < callee.len() && !parts_names(#[trigger] callee[k])) ==> exists|
            a: int,
            b: int,
        | #[trigger]
            is_last_run(callee, a, b) && index::short_name(callee) == callee.subrange(a, b),
        (forall|k: int| 0 <= k < callee.len() ==> parts_names(#[trigger] callee[k]))
            ==> index::short_name(callee) == callee,
{
    lemma_last_part(callee);
}

/// From `a` to `b` stands the last run of characters that do not part names.
pub open spec fn is_last_run(s: Seq<char>, a: int, b: int) -> bool {
    &&& 0 <= a < b <= s.len()
    &&& forall|k: int| a <= k < b ==> !parts_names(#[trigger] s[k])
    &&& forall|k: int| b <= k < s.len() ==> parts_names(#[trigger] s[k])
    &&& a > 0 ==> parts_names(s[a - 1])
}

proof fn lemma_last_part(s: Seq<char>)
    ensures
        (exists|k: int| 0 <= k < s.len() && !parts_names(#[trigger] s[k])) ==> exists|
            a: int,
            b: int,
        | #[trigger]
            is_last_run(s, a, b) && index::last_part(s) == s.subrange(a, b),
        (forall|k: int| 0 <= k < s.len() ==> parts_names(#[trigger] s[k])) ==> index::last_part(
            s,
        ).len() == 0,
    decreases s.len(),
{
    if s.len() > 0 {
        let t = s.drop_last();
        if parts_names(s.last()) {
            lemma_last_part(t);
            if exists|k: int| 0 <= k < s.len() && !parts_names(#[trigger] s[k]) {
                let k = choose|k: int| 0 <= k < s.len() && !parts_names(#[trigger] s[k]);
                assert(!parts_names(t[k]));
                let (a, b) = choose|a: int, b: int| #[trigger]
                    is_last_run(t, a, b) && index::last_part(t) == t.subrange(a, b);
                assert(is_last_run(s, a, b)) by {
                    assert forall|k: int| a <= k < b implies !parts_names(#[trigger] s[k]) by {
                        assert(t[k] == s[k]);
                    }
                    assert forall|k: int| b <= k < s.len() implies parts_names(#[trigger] s[k]) by {
                        if k < t.len() {
                            assert(t[k] == s[k]);
                        }
                    }
                }
                assert(s.subrange(a, b) =~= t.subrange(a, b));
            } else {
                assert forall|k: int| 0 <= k < t.len() implies parts_names(#[trigger] t[k]) by {
                    assert(t[k] == s[k]);
                }
            }
        } else {
            let a = lemma_run(s);
            assert(is_last_run(s, a, s.len() as int));
            assert(!parts_names(s[s.len() - 1]));
        }
    }
}

proof fn lemma_run(s: Seq<char>) -> (a: int)
    requires
        s.len() > 0,
        !parts_names(s.last()),
    ensures
        0 <= a < s.len(),
        index::run_at_end(s) == s.subrange(a, s.len() as int),
        forall|k: int| a <= k < s.len() ==> !parts_names(#[trigger] s[k]),
        a > 0 ==> parts_names(s[a - 1]),
    decreases s.len(),
{
    let t = s.drop_last();
    if t.len() > 0 && !parts_names(t.last()) {
        let a = lemma_run(t);
        assert(index::run_at_end(s) =~= s.subrange(a, s.len() as int));
        assert forall|k: int| a <= k < s.len() implies !parts_names(#[trigger] s[k]) by {
            if k < t.len() {
                assert(t[k] == s[k]);
            }
        }
        a
    } else {
        assert(index::run_at_end(t) =~= Seq::<char>::empty());
        assert(index::run_at_end(s) =~= s.subrange(s.len() - 1, s.len() as int));
        s.len() - 1
    }
}

// ---------------------------------------------------------------- report

/// An import was meant to lead to a file of the repository and leads nowhere: it
/// starts with a dot, with `crate::` or with `self::`.
pub open spec fn is_gap(import: Import) -> bool {
    let spec = import.spec@;
    import.target is None && ((spec.len() > 0 && spec[0] == '.') || (spec.len() >= 7 && spec.take(7)
        == "crate::"@) || (spec.len() >= 6 && spec.take(6) == "self::"@))
}

/// How many of the first `m` imports lead nowhere.
pub open spec fn gap_count(imports: Seq<Import>, m: nat) -> nat
    decreases m,
{
    if m == 0 {
        0
    } else {
        gap_count(imports, (m - 1) as nat) + (if is_gap(imports[m - 1]) {
            1nat
        } else {
            0nat
        })
    }
}

/// How many imports of the first `n` files lead nowhere.
pub open spec fn all_gaps(ps: Seq<ParsedSource>, n: nat) -> nat
    decreases n,
{
    if n == 0 {
        0
    } else {
        all_gaps(ps, (n - 1) as nat) + gap_count(ps[n - 1].imports@, ps[n - 1].imports@.len())
    }
}

proof fn lemma_gap(import: Import)
    ensures
        is_gap(import) <==> import.target is None && index::is_internal(import.spec@),
{
    let spec = import.spec@;
    reveal_strlit(".");
    reveal_strlit("crate::");
    reveal_strlit("self::");
    if spec.len() > 0 {
        assert("."@ =~= spec.subrange(0, 1) <==> spec[0] == '.') by {
            assert("."@.len() == 1);
            if spec[0] == '.' {
                assert("."@ =~= spec.subrange(0, 1));
            } else {
                assert(spec.subrange(0, 1)[0] != '.');
            }
        }
    }
    if spec.len() >= 7 {
        assert(spec.take(7) =~= spec.subrange(0, 7));
    }
    if spec.len() >= 6 {
        assert(spec.take(6) =~= spec.subrange(0, 6));
    }
}

proof fn lemma_gaps_at(ps: Seq<ParsedSource>, i: int, m: nat, path: RelPath, spec: String)
    requires
        0 <= i < ps.len(),
        m <= ps[i].imports@.len(),
    ensures
        index::gaps_at(ps, i, m).len() == gap_count(ps[i].imports@, m),
        index::gaps_at(ps, i, m).contains((path, spec)) <==> path == ps[i].path && exists|l: int|
            0 <= l < m && is_gap(#[trigger] ps[i].imports@[l]) && ps[i].imports@[l].spec == spec,
    decreases m,
{
    if m > 0 {
        let l = (m - 1) as nat;
        let import = ps[i].imports@[m - 1];
        lemma_gaps_at(ps, i, l, path, spec);
        lemma_gap(import);
        let before = index::gaps_at(ps, i, l);
        let now = index::gaps_at(ps, i, m);
        if is_gap(import) {
            let new = (ps[i].path, import.spec);
            assert(now == before.push(new));
            assert(now.contains((path, spec)) <==> before.contains((path, spec)) || new == (
                path,
                spec,
            )) by {
                if before.contains((path, spec)) {
                    let k = choose|k: int| 0 <= k < before.len() && before[k] == (path, spec);
                    assert(now[k] == (path, spec));
                }
                if new == (path, spec) {
                    assert(now[before.len() as int] == (path, spec));
                }
                if now.contains((path, spec)) {
                    let k = choose|k: int| 0 <= k < now.len() && now[k] == (path, spec);
                    if k < before.len() {
                        assert(before[k] == (path, spec));
                    }
                }
            }
            if import.spec == spec {
                assert(is_gap(ps[i].imports@[m - 1]));
            }
        }
    }
}

proof fn lemma_gaps(ps: Seq<ParsedSource>, n: nat, path: RelPath, spec: String)
    requires
        n <= ps.len(),
    ensures
        index::gaps_of(ps, n).len() == all_gaps(ps, n),
        index::gaps_of(ps, n).contains((path, spec)) <==> exists|i: int, l: int|
            0 <= i < n && 0 <= l < ps[i].imports@.len() && path == ps[i].path && is_gap(
                #[trigger] ps[i].imports@[l],
            ) && ps[i].imports@[l].spec == spec,
    decreases n,
{
    if n > 0 {
        let m = (n - 1) as nat;
        let count = ps[n - 1].imports@.len();
        lemma_gaps(ps, m, path, spec);
        lemma_gaps_at(ps, n - 1, count, path, spec);
        let a = index::gaps_of(ps, m);
        let b = index::gaps_at(ps, n - 1, count);
        let x = (path, spec);
        assert((a + b).contains(x) <==> a.contains(x) || b.contains(x)) by {
            if a.contains(x) {
                let k = choose|k: int| 0 <= k < a.len() && a[k] == x;
                assert((a + b)[k] == x);
            }
            if b.contains(x) {
                let k = choose|k: int| 0 <= k < b.len() && b[k] == x;
                assert((a + b)[a.len() + k] == x);
            }
            if (a + b).contains(x) {
                let k = choose|k: int| 0 <= k < (a + b).len() && (a + b)[k] == x;
                if k < a.len() {
                    assert(a[k] == x);
                } else {
                    assert(b[k - a.len()] == x);
                }
            }
        }
    }
}

/// The report names every import that was meant to lead to a file and leads
/// nowhere, with its file, and no other; and it counts what the graph holds.
pub proof fn law_reports_name_every_gap(
    g: CodeGraph,
    r: IndexReport,
    ps: Seq<ParsedSource>,
    call_edges: bool,
    scanned: usize,
    failures: Seq<(RelPath, String)>,
    path: RelPath,
    spec: String,
)
    requires
        index::is_graph_of(g, ps, call_edges),
        index::is_report_of(r, g, ps, scanned, failures),
    ensures
        r.unresolved_imports@.contains((path, spec)) <==> exists|i: int, l: int|
            0 <= i < ps.len() && 0 <= l < ps[i].imports@.len() && path == ps[i].path && is_gap(
                #[trigger] ps[i].imports@[l],
            ) && ps[i].imports@[l].spec == spec,
        r.unresolved_imports@.len() == all_gaps(ps, ps.len()),
        r.parse_failures@.contains((path, spec)) <==> failures.contains((path, spec)),
        r.parse_failures@.len() == failures.len(),
        r.files_parsed == g.files@.len(),
        r.files_scanned == scanned,
        r.symbols == g.symbols@.len(),
{
    index::lemma_note_order();
    lemma_gaps(ps, ps.len(), path, spec);
    order::lemma_arranged(index::gaps_of(ps, ps.len()), index::note_order());
    order::lemma_arranged(failures, index::note_order());
}

// --------------------------------------------------------------- symbols

/// A symbol is the other one, apart from its numbers.
pub open spec fn same_declaration(a: CodeSymbol, b: CodeSymbol) -> bool {
    &&& a.name == b.name
    &&& a.kind == b.kind
    &&& a.signature == b.signature
    &&& a.start_line == b.start_line
    &&& a.end_line == b.end_line
    &&& a.exported == b.exported
}

/// How many symbols the first `n` files have.
pub open spec fn symbol_count(ps: Seq<ParsedSource>, n: nat) -> nat
    decreases n,
{
    if n == 0 {
        0
    } else {
        symbol_count(ps, (n - 1) as nat) + ps[n - 1].symbols@.len()
    }
}

proof fn lemma_symbol_stands(ps: Seq<ParsedSource>, n: nat, i: int, k: int)
    requires
        index::distinct_paths(ps),
        ps.len() <= u32::MAX,
        n <= ps.len(),
        0 <= i < n,
        0 <= k < ps[i].symbols@.len(),
    ensures
        index::symbols_of(ps, n).len() == symbol_count(ps, n),
        symbol_count(ps, i as nat) + k < index::symbols_of(ps, n).len(),
        ({
            let s = index::symbols_of(ps, n)[symbol_count(ps, i as nat) + k];
            same_declaration(s, ps[i].symbols@[k]) && s.file.0 == i
        }),
    decreases n,
{
    let m = (n - 1) as nat;
    lemma_symbol_len(ps, m);
    lemma_own(ps, n - 1);
    if i < m {
        lemma_symbol_stands(ps, m, i, k);
    }
}

proof fn lemma_symbol_len(ps: Seq<ParsedSource>, n: nat)
    requires
        n <= ps.len(),
    ensures
        index::symbols_of(ps, n).len() == symbol_count(ps, n),
    decreases n,
{
    if n > 0 {
        lemma_symbol_len(ps, (n - 1) as nat);
    }
}

/// Every symbol of every file is in the graph, as it was found, under its file,
/// in the order of files and of their symbols; and there is no other. Every file
/// is in the graph as it was parsed.
pub proof fn law_symbols_and_files_are_kept(
    g: CodeGraph,
    ps: Seq<ParsedSource>,
    call_edges: bool,
    i: int,
    k: int,
)
    requires
        index::is_graph_of(g, ps, call_edges),
        index::distinct_paths(ps),
        ps.len() <= u32::MAX,
        0 <= i < ps.len(),
        0 <= k < ps[i].symbols@.len(),
    ensures
        symbol_count(ps, i as nat) + k < g.symbols@.len(),
        same_declaration(g.symbols@[symbol_count(ps, i as nat) + k], ps[i].symbols@[k]),
        g.symbols@[symbol_count(ps, i as nat) + k].file.0 == i,
        g.symbols@.len() == symbol_count(ps, ps.len()),
        g.files@.len() == ps.len(),
        g.files@[i].id.0 == i,
        g.files@[i].path == ps[i].path,
        g.files@[i].language == Some(ps[i].language),
        g.files@[i].loc == ps[i].loc,
        g.files@[i].sha == ps[i].sha,
{
    lemma_symbol_stands(ps, ps.len(), i, k);
}

// ------------------------------------------------------------- index_repo

proof fn lemma_arranged_apart(parsed: Seq<ParsedSource>, g: CodeGraph, call_edges: bool)
    requires
        index::distinct_paths(parsed),
        index::is_graph_of(g, order::arranged(parsed, index::source_order()), call_edges),
    ensures
        index::distinct_paths(order::arranged(parsed, index::source_order())),
        order::arranged(parsed, index::source_order()).len() == parsed.len(),
{
    let ps = order::arranged(parsed, index::source_order());
    index::lemma_source_order();
    order::lemma_arranged(parsed, index::source_order());
    assert forall|i: int, j: int| 0 <= i < j < ps.len() implies (#[trigger] ps[i]).path@ != (
    #[trigger] ps[j]).path@ by {
        reuse::law_files_stand_in_path_order(g, parsed, call_edges, i, j);
        assert(g.files@[i].path == ps[i].path);
        assert(g.files@[j].path == ps[j].path);
    }
}

/// Indexing parsed files gives a graph in which every one of them stands once,
/// and one leads to another by an import exactly where one of its imports was
/// resolved to the path of the other. The report counts those edges.
pub proof fn law_indexing_joins_importers(
    parsed: Vec<ParsedSource>,
    failures: Vec<(RelPath, String)>,
    scanned: usize,
    opts: &IndexOptions,
    r: (CodeGraph, IndexReport),
    a: int,
    b: int,
) -> (at: (int, int))
    requires
        call_ensures(index::index_repo, (parsed, failures, scanned, opts), r),
        index::distinct_paths(parsed@),
        parsed@.len() <= u32::MAX,
        0 <= a < parsed@.len(),
        0 <= b < parsed@.len(),
    ensures
        r.0.files@.len() == parsed@.len(),
        0 <= at.0 < r.0.files@.len(),
        0 <= at.1 < r.0.files@.len(),
        r.0.files@[at.0].path == parsed@[a].path,
        r.0.files@[at.1].path == parsed@[b].path,
        has_edge(r.0.edges@, EdgeKind::Import, at.0, at.1) <==> exists|m: int|
            0 <= m < parsed@[a].imports@.len() && leads_to(
                #[trigger] parsed@[a].imports@[m],
                parsed@[b].path@,
            ),
        r.1.import_edges == r.0.edges@.filter(|e: CodeEdge| e.kind == EdgeKind::Import).len(),
        r.1.files_parsed == parsed@.len(),
        r.1.files_scanned == scanned,
{
    let ps = order::arranged(parsed@, index::source_order());
    lemma_arranged_apart(parsed@, r.0, opts.call_edges);
    index::lemma_source_order();
    order::lemma_arranged(parsed@, index::source_order());
    assert(ps.contains(parsed@[a]));
    assert(ps.contains(parsed@[b]));
    let i = choose|i: int| 0 <= i < ps.len() && ps[i] == parsed@[a];
    let j = choose|j: int| 0 <= j < ps.len() && ps[j] == parsed@[b];
    law_resolved_imports_are_edges(r.0, ps, opts.call_edges, i, j);
    assert(index::is_import() =~= |e: CodeEdge| e.kind == EdgeKind::Import);
    (i, j)
}

/// Each file that was tried is among the parsed ones as it was parsed, or among
/// those that failed, with its path and the reason; a file that could not be read
/// says so.
pub proof fn law_outcomes_are_sorted_out(
    outcomes: Vec<Outcome>,
    r: (Vec<ParsedSource>, Vec<(RelPath, String)>),
    k: int,
)
    requires
        call_ensures(index::gather, (outcomes,), r),
        0 <= k < outcomes@.len(),
    ensures
        r.0@.len() + r.1@.len() == outcomes@.len(),
        match outcomes@[k] {
            Outcome::Parsed(p) => r.0@.contains(p),
            Outcome::Unreadable(path, why) => exists|i: int|
                0 <= i < r.1@.len() && (#[trigger] r.1@[i]).0@ == path@ && r.1@[i].1@ == "read: "@
                    + why@,
            Outcome::Rejected(path, why) => exists|i: int|
                0 <= i < r.1@.len() && (#[trigger] r.1@[i]).0@ == path@ && r.1@[i].1@ == why@,
        },
{
    lemma_gathered(outcomes@, k);
    if let Some(f) = index::failure_of(outcomes@[k]) {
        let texts = index::note_texts(r.1@);
        assert(texts.contains(f));
        let i = choose|i: int| 0 <= i < texts.len() && texts[i] == f;
        assert(texts[i] == (r.1@[i].0@, r.1@[i].1@));
    }
}

proof fn lemma_gathered(outcomes: Seq<Outcome>, k: int)
    requires
        0 <= k < outcomes.len(),
    ensures
        outcomes[k] matches Outcome::Parsed(p) ==> index::parsed_in(outcomes).contains(p),
        index::failure_of(outcomes[k]) matches Some(f) ==> index::failed_in(outcomes).contains(f),
    decreases outcomes.len(),
{
    let front = outcomes.drop_last();
    let parsed = index::parsed_in(front);
    let failed = index::failed_in(front);
    if k < front.len() {
        lemma_gathered(front, k);
        assert(front[k] == outcomes[k]);
        if let Outcome::Parsed(p) = outcomes[k] {
            let i = choose|i: int| 0 <= i < parsed.len() && parsed[i] == p;
            assert(index::parsed_in(outcomes)[i] == p);
        }
        if let Some(f) = index::failure_of(outcomes[k]) {
            let i = choose|i: int| 0 <= i < failed.len() && failed[i] == f;
            assert(index::failed_in(outcomes)[i] == f);
        }
    } else {
        if let Outcome::Parsed(p) = outcomes[k] {
            assert(index::parsed_in(outcomes)[parsed.len() as int] == p);
        }
        if let Some(f) = index::failure_of(outcomes[k]) {
            assert(index::failed_in(outcomes)[failed.len() as int] == f);
        }
    }
}

/// What was found in a file, now or before, comes out as it was found: its path,
/// language, hash and lines, its symbols and calls, and its imports, each with the
/// file that it leads to.
pub proof fn law_outcomes_hold_what_was_found(
    path: RelPath,
    language: crate::types::Language,
    sha: String,
    loc: u32,
    parsed: Result<reuse::ParsedFile, String>,
    targets: &Vec<Option<RelPath>>,
    r: Outcome,
)
    requires
        call_ensures(reuse::outcome_of, (path, language, sha, loc, parsed, targets), r),
        parsed matches Ok(p) ==> targets@.len() == p.imports@.len(),
    ensures
        match parsed {
            Ok(p) => r matches Outcome::Parsed(s) && {
                &&& s.path@ == path@
                &&& s.language == language
                &&& s.sha@ == sha@
                &&& s.loc == loc
                &&& s.symbols@.len() == p.symbols@.len()
                &&& s.imports@.len() == p.imports@.len()
                &&& s.calls@.len() == p.calls@.len()
                &&& forall|k: int|
                    0 <= k < p.symbols@.len() ==> {
                        let a = #[trigger] s.symbols@[k];
                        let b = p.symbols@[k];
                        a.name@ == b.name@ && a.kind == b.kind && a.signature@ == b.signature@
                            && a.start_line == b.start_line && a.end_line == b.end_line
                            && a.exported == b.exported
                    }
                &&& forall|k: int|
                    0 <= k < p.imports@.len() ==> (#[trigger] s.imports@[k]).spec@
                        == p.imports@[k]@ && (match (s.imports@[k].target, targets@[k]) {
                        (Some(a), Some(b)) => a@ == b@,
                        (None, None) => true,
                        _ => false,
                    })
                &&& forall|k: int|
                    0 <= k < p.calls@.len() ==> (#[trigger] s.calls@[k]).callee@
                        == p.calls@[k].callee@ && s.calls@[k].line == p.calls@[k].line
            },
            Err(why) => r matches Outcome::Rejected(p, w) && p@ == path@ && w@ == why@,
        },
{
    if let Ok(p) = parsed {
        let s = r->Parsed_0;
        let a = reuse::source_text(s);
        let b = reuse::parse_text(p);
        assert(a.symbols == b.symbols);
        assert(a.calls == b.calls);
        assert(a.symbols.len() == s.symbols@.len());
        assert(b.symbols.len() == p.symbols@.len());
        assert(a.calls.len() == s.calls@.len());
        assert(b.calls.len() == p.calls@.len());
        assert(a.imports.len() == s.imports@.len());
        assert(b.imports.len() == p.imports@.len());
        assert forall|k: int| 0 <= k < p.symbols@.len() implies {
            let x = #[trigger] s.symbols@[k];
            let y = p.symbols@[k];
            x.name@ == y.name@ && x.kind == y.kind && x.signature@ == y.signature@ && x.start_line
                == y.start_line && x.end_line == y.end_line && x.exported == y.exported
        } by {
            assert(a.symbols[k] == reuse::symbol_text(s.symbols@[k]));
            assert(b.symbols[k] == reuse::symbol_text(p.symbols@[k]));
        }
        assert forall|k: int| 0 <= k < p.imports@.len() implies (#[trigger] s.imports@[k]).spec@
            == p.imports@[k]@ && (match (s.imports@[k].target, targets@[k]) {
            (Some(x), Some(y)) => x@ == y@,
            (None, None) => true,
            _ => false,
        }) by {
            assert(a.imports[k] == (
                s.imports@[k].spec@,
                reuse::target_text(s.imports@[k].target),
            ));
            assert(b.imports[k] == p.imports@[k]@);
        }
        assert forall|k: int| 0 <= k < p.calls@.len() implies (#[trigger] s.calls@[k]).callee@
            == p.calls@[k].callee@ && s.calls@[k].line == p.calls@[k].line by {
            assert(a.calls[k] == (s.calls@[k].callee@, s.calls@[k].line));
            assert(b.calls[k] == (p.calls@[k].callee@, p.calls@[k].line));
        }
    }
}

} // verus!
