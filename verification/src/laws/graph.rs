//! Dependencies, dependents and neighbourhoods.

use crate::graph;
use crate::graph::{CodeGraph, NeighborhoodDirection};
use crate::neighborhood;
use crate::neighborhood::NeighborhoodEntry;
use crate::text;
use crate::types::{CodeEdge, EdgeKind, FileId};
use std::collections::HashMap;
use vstd::prelude::*;

verus! {

/// The graph has a file of this number.
pub open spec fn is_file(g: CodeGraph, id: u32) -> bool {
    exists|k: int| 0 <= k < g.files@.len() && (#[trigger] g.files@[k]).id.0 == id
}

/// One file imports another: an import edge leads there, and the graph has both.
pub open spec fn imports_directly(g: CodeGraph, a: u32, b: u32) -> bool {
    &&& is_file(g, a)
    &&& is_file(g, b)
    &&& exists|k: int|
        0 <= k < g.edges@.len() && (#[trigger] g.edges@[k]) == (CodeEdge {
            from: a,
            to: b,
            kind: EdgeKind::Import,
            ..g.edges@[k]
        })
}

/// A way over imports, from importer to imported.
pub open spec fn is_way(g: CodeGraph, way: Seq<u32>) -> bool {
    way.len() > 0 && forall|k: int, l: int|
        0 <= k && l == k + 1 && l < way.len() ==> imports_directly(
            g,
            #[trigger] way[k],
            #[trigger] way[l],
        )
}

/// A way over imports in either direction.
pub open spec fn is_loose_way(g: CodeGraph, way: Seq<u32>) -> bool {
    way.len() > 0 && forall|k: int, l: int|
        0 <= k && l == k + 1 && l < way.len() ==> imports_directly(
            g,
            #[trigger] way[k],
            #[trigger] way[l],
        ) || imports_directly(g, way[l], way[k])
}

/// A way over imports in a direction of `n` steps leads from one file to another.
pub open spec fn leads(
    g: CodeGraph,
    dir: NeighborhoodDirection,
    from: u32,
    to: u32,
    n: nat,
    way: Seq<u32>,
) -> bool {
    &&& way.len() == n + 1
    &&& match dir {
        NeighborhoodDirection::Dependencies => is_way(g, way) && way.first() == from && way.last()
            == to,
        NeighborhoodDirection::Dependents => is_way(g, way) && way.first() == to && way.last()
            == from,
        NeighborhoodDirection::Both => is_loose_way(g, way) && way.first() == from && way.last()
            == to,
    }
}

proof fn lemma_imports(g: CodeGraph, a: u32, b: u32)
    ensures
        graph::imports(g, a, b) == imports_directly(g, a, b),
{
    if graph::imports(g, a, b) {
        let e = choose|e: int|
            0 <= e < g.edges@.len() && (#[trigger] g.edges@[e]).kind == EdgeKind::Import
                && g.edges@[e].from == a && g.edges@[e].to == b;
        assert(g.edges@[e] == (CodeEdge {
            from: a,
            to: b,
            kind: EdgeKind::Import,
            ..g.edges@[e]
        }));
    }
    if imports_directly(g, a, b) {
        let k = choose|k: int|
            0 <= k < g.edges@.len() && (#[trigger] g.edges@[k]) == (CodeEdge {
                from: a,
                to: b,
                kind: EdgeKind::Import,
                ..g.edges@[k]
            });
        assert(g.edges@[k].kind == EdgeKind::Import);
    }
}

/// What lies within some steps is led to by a way of at most as many.
proof fn lemma_way(
    g: CodeGraph,
    dir: NeighborhoodDirection,
    target: u32,
    d: nat,
    x: u32,
) -> (way: Seq<u32>)
    requires
        graph::within(g, dir, target, d, x),
    ensures
        0 < way.len() <= d + 1,
        leads(g, dir, target, x, (way.len() - 1) as nat, way),
    decreases d,
{
    if d == 0 {
        seq![x]
    } else if graph::within(g, dir, target, (d - 1) as nat, x) {
        lemma_way(g, dir, target, (d - 1) as nat, x)
    } else {
        let y = choose|y: u32|
            #[trigger] graph::step(g, dir, y, x) && graph::within(
                g,
                dir,
                target,
                (d - 1) as nat,
                y,
            );
        let before = lemma_way(g, dir, target, (d - 1) as nat, y);
        lemma_imports(g, y, x);
        lemma_imports(g, x, y);
        if dir == NeighborhoodDirection::Dependents {
            let way = seq![x] + before;
            assert forall|k: int, l: int|
                0 <= k && l == k + 1 && l < way.len() implies imports_directly(
                g,
                #[trigger] way[k],
                #[trigger] way[l],
            ) by {
                if k > 0 {
                    assert(way[k] == before[k - 1] && way[l] == before[l - 1]);
                    assert(imports_directly(g, before[k - 1], before[l - 1]));
                } else {
                    assert(way[l] == before.first());
                }
            }
            way
        } else {
            let way = before.push(x);
            assert forall|k: int, l: int|
                0 <= k && l == k + 1 && l < way.len() implies imports_directly(
                g,
                #[trigger] way[k],
                #[trigger] way[l],
            ) || (dir == NeighborhoodDirection::Both && imports_directly(g, way[l], way[k])) by {
                assert(way[k] == before[k]);
                if l < before.len() {
                    assert(way[l] == before[l]);
                    if dir == NeighborhoodDirection::Both {
                        assert(imports_directly(g, before[k], before[l]) || imports_directly(
                            g,
                            before[l],
                            before[k],
                        ));
                    } else {
                        assert(imports_directly(g, before[k], before[l]));
                    }
                } else {
                    assert(before[k] == before.last());
                }
            }
            way
        }
    }
}

proof fn lemma_way_back(
    g: CodeGraph,
    dir: NeighborhoodDirection,
    target: u32,
    x: u32,
    n: nat,
    way: Seq<u32>,
)
    requires
        leads(g, dir, target, x, n, way),
    ensures
        graph::within(g, dir, target, n, x),
    decreases n,
{
    if n == 0 {
        assert(way.first() == way.last());
    } else {
        let m = (n - 1) as nat;
        if dir == NeighborhoodDirection::Dependents {
            let rest = way.drop_first();
            assert forall|k: int, l: int|
                0 <= k && l == k + 1 && l < rest.len() implies imports_directly(
                g,
                #[trigger] rest[k],
                #[trigger] rest[l],
            ) by {
                assert(rest[k] == way[k + 1] && rest[l] == way[l + 1]);
                assert(imports_directly(g, way[k + 1], way[l + 1]));
            }
            assert(rest.last() == way.last());
            let y = rest.first();
            lemma_way_back(g, dir, target, y, m, rest);
            assert(imports_directly(g, way[0], way[1]));
            lemma_imports(g, x, y);
            assert(graph::step(g, dir, y, x));
        } else {
            let rest = way.drop_last();
            let last = way.len() - 1;
            let y = way[last - 1];
            if dir == NeighborhoodDirection::Both {
                assert forall|k: int, l: int|
                    0 <= k && l == k + 1 && l < rest.len() implies imports_directly(
                    g,
                    #[trigger] rest[k],
                    #[trigger] rest[l],
                ) || imports_directly(g, rest[l], rest[k]) by {
                    assert(rest[k] == way[k] && rest[l] == way[l]);
                }
            } else {
                assert forall|k: int, l: int|
                    0 <= k && l == k + 1 && l < rest.len() implies imports_directly(
                    g,
                    #[trigger] rest[k],
                    #[trigger] rest[l],
                ) by {
                    assert(rest[k] == way[k] && rest[l] == way[l]);
                }
            }
            assert(rest.first() == way.first());
            assert(rest.last() == y);
            lemma_way_back(g, dir, target, y, m, rest);
            assert(imports_directly(g, way[last - 1], way[last]) || (dir
                == NeighborhoodDirection::Both && imports_directly(g, way[last], way[last - 1])));
            lemma_imports(g, y, x);
            lemma_imports(g, x, y);
            assert(graph::step(g, dir, y, x));
        }
    }
}

/// The answer to a walk from a file that the graph has holds exactly the other
/// files that a way over imports leads to; one from any other file is empty.
proof fn lemma_walk(
    g: CodeGraph,
    scores: Map<u32, u64>,
    target: u32,
    dir: NeighborhoodDirection,
    out: Seq<FileId>,
    x: u32,
)
    requires
        graph::is_walk(g, scores, target, dir, out),
    ensures
        out.contains(FileId(x)) <==> is_file(g, target) && x != target && exists|
            n: nat,
            way: Seq<u32>,
        | #[trigger]
            leads(g, dir, target, x, n, way),
{
    if is_file(g, target) {
        if graph::reaches(g, dir, target, x) {
            let d = choose|d: nat| graph::within(g, dir, target, d, x);
            let way = lemma_way(g, dir, target, d, x);
            assert(leads(g, dir, target, x, (way.len() - 1) as nat, way));
        }
        if exists|n: nat, way: Seq<u32>| #[trigger] leads(g, dir, target, x, n, way) {
            let (n, way) = choose|n: nat, way: Seq<u32>| #[trigger]
                leads(g, dir, target, x, n, way);
            lemma_way_back(g, dir, target, x, n, way);
            assert(graph::reaches(g, dir, target, x));
        }
    }
}

/// The same, where the ways are those from importer to imported.
pub(crate) proof fn lemma_walk_ways(
    g: CodeGraph,
    scores: Map<u32, u64>,
    target: u32,
    dir: NeighborhoodDirection,
    out: Seq<FileId>,
    x: u32,
)
    requires
        graph::is_walk(g, scores, target, dir, out),
    ensures
        dir is Dependents ==> (out.contains(FileId(x)) <==> is_file(g, target) && x != target
            && exists|way: Seq<u32>| #[trigger]
            is_way(g, way) && way.first() == x && way.last() == target),
        dir is Dependencies ==> (out.contains(FileId(x)) <==> is_file(g, target) && x != target
            && exists|way: Seq<u32>| #[trigger]
            is_way(g, way) && way.first() == target && way.last() == x),
{
    lemma_walk(g, scores, target, dir, out, x);
    let (a, b) = if dir is Dependents {
        (x, target)
    } else {
        (target, x)
    };
    if !(dir is Both) {
        if exists|n: nat, way: Seq<u32>| #[trigger] leads(g, dir, target, x, n, way) {
            let (n, way) = choose|n: nat, way: Seq<u32>| #[trigger]
                leads(g, dir, target, x, n, way);
            assert(is_way(g, way));
        }
        if exists|way: Seq<u32>| #[trigger]
            is_way(g, way) && way.first() == a && way.last() == b {
            let way = choose|way: Seq<u32>| #[trigger]
                is_way(g, way) && way.first() == a && way.last() == b;
            assert(leads(g, dir, target, x, (way.len() - 1) as nat, way));
        }
    }
}

/// The dependents of a file are the other files from which a way over imports
/// leads to it.
pub proof fn law_dependents_lead_to_the_file(
    g: &CodeGraph,
    target: FileId,
    scores: &HashMap<u32, u64>,
    out: Vec<FileId>,
    x: u32,
)
    requires
        call_ensures(graph::dependents, (g, target, scores), out),
    ensures
        out@.contains(FileId(x)) <==> is_file(*g, target.0) && x != target.0 && exists|
            way: Seq<u32>,
        | #[trigger]
            is_way(*g, way) && way.first() == x && way.last() == target.0,
{
    lemma_walk_ways(*g, scores@, target.0, NeighborhoodDirection::Dependents, out@, x);
}

/// The dependencies of a file are the other files to which a way over imports
/// leads from it.
pub proof fn law_dependencies_are_led_to(
    g: &CodeGraph,
    target: FileId,
    scores: &HashMap<u32, u64>,
    out: Vec<FileId>,
    x: u32,
)
    requires
        call_ensures(graph::dependencies, (g, target, scores), out),
    ensures
        out@.contains(FileId(x)) <==> is_file(*g, target.0) && x != target.0 && exists|
            way: Seq<u32>,
        | #[trigger]
            is_way(*g, way) && way.first() == target.0 && way.last() == x,
{
    lemma_walk_ways(*g, scores@, target.0, NeighborhoodDirection::Dependencies, out@, x);
}

/// The score of a file, 0 where it has none.
pub open spec fn score(scores: Map<u32, u64>, id: u32) -> u64 {
    if scores.dom().contains(id) {
        scores[id]
    } else {
        0
    }
}

/// Answers come best first: by score, and by path where scores are equal. None
/// comes twice.
pub proof fn law_walks_come_best_first(
    g: &CodeGraph,
    target: FileId,
    dir: NeighborhoodDirection,
    scores: &HashMap<u32, u64>,
    out: Vec<FileId>,
    i: int,
    j: int,
    a: int,
    b: int,
)
    requires
        call_ensures(graph::reachable_imports, (g, target, dir, scores), out),
        graph::unique_files(g.files@),
        0 <= i < j < out@.len(),
        0 <= a < g.files@.len(),
        0 <= b < g.files@.len(),
        g.files@[a].id == out@[i],
        g.files@[b].id == out@[j],
    ensures
        a != b,
        score(scores@, out@[i].0) >= score(scores@, out@[j].0),
        score(scores@, out@[i].0) == score(scores@, out@[j].0) ==> text::text_le(
            g.files@[a].path@,
            g.files@[b].path@,
        ),
{
    assert(out@[i] != out@[j]);
    assert(graph::answer_le(*g, scores@, out@[i].0, out@[j].0));
    lemma_path_of(*g, a, g.files@.len());
    lemma_path_of(*g, b, g.files@.len());
    text::lemma_text_le_total(g.files@[a].path@, g.files@[b].path@);
}

pub(crate) proof fn lemma_path_of(g: CodeGraph, a: int, n: nat)
    requires
        graph::unique_files(g.files@),
        0 <= a < n <= g.files@.len(),
    ensures
        graph::path_of(g.files@, g.files@[a].id.0, n) == g.files@[a].path@,
    decreases n,
{
    if a < n - 1 {
        assert(g.files@[a].id != g.files@[n - 1].id);
        lemma_path_of(g, a, (n - 1) as nat);
    }
}

// --------------------------------------------------------- neighbourhoods

proof fn lemma_within_shorter(
    g: CodeGraph,
    dir: NeighborhoodDirection,
    target: u32,
    x: u32,
    m: nat,
    n: nat,
)
    requires
        graph::within(g, dir, target, m, x),
        m <= n,
    ensures
        graph::within(g, dir, target, n, x),
    decreases n,
{
    if m < n {
        lemma_within_shorter(g, dir, target, x, m, (n - 1) as nat);
    }
}

/// A file is in the neighbourhood of another at a distance exactly where a way of
/// that many steps leads there in the direction asked for and no shorter one does,
/// if the distance is no more than was asked for, and than three. The file itself
/// is not in it.
pub proof fn law_neighbours_stand_at_their_distance(
    g: &CodeGraph,
    target: FileId,
    dir: NeighborhoodDirection,
    depth: u8,
    out: Vec<NeighborhoodEntry>,
    x: u32,
    d: u8,
)
    requires
        call_ensures(neighborhood::neighborhood, (g, target, dir, depth), out),
    ensures
        out@.contains(NeighborhoodEntry { file: FileId(x), depth: d }) <==> is_file(*g, target.0)
            && 1 <= d <= depth && d <= 3 && (exists|way: Seq<u32>| #[trigger]
            leads(*g, dir, target.0, x, d as nat, way)) && !exists|n: nat, way: Seq<u32>|
            n < d && #[trigger] leads(*g, dir, target.0, x, n, way),
{
    let t = target.0;
    let entry = NeighborhoodEntry { file: FileId(x), depth: d };
    if is_file(*g, t) && depth > 0 {
        if out@.contains(entry) {
            let k = choose|k: int| 0 <= k < out@.len() && out@[k] == entry;
            assert(graph::at_distance(*g, dir, t, out@[k].depth as nat, out@[k].file.0));
        }
        if graph::at_distance(*g, dir, t, d as nat, x) && 1 <= d {
            let way = lemma_way(*g, dir, t, d as nat, x);
            if way.len() < d + 1 {
                lemma_way_back(*g, dir, t, x, (way.len() - 1) as nat, way);
                lemma_within_shorter(*g, dir, t, x, (way.len() - 1) as nat, (d - 1) as nat);
            }
            assert(leads(*g, dir, t, x, d as nat, way));
            assert forall|n: nat, w: Seq<u32>| n < d implies !#[trigger] leads(
                *g,
                dir,
                t,
                x,
                n,
                w,
            ) by {
                if leads(*g, dir, t, x, n, w) {
                    lemma_way_back(*g, dir, t, x, n, w);
                    lemma_within_shorter(*g, dir, t, x, n, (d - 1) as nat);
                }
            }
        }
        if 1 <= d && (exists|way: Seq<u32>| #[trigger] leads(*g, dir, t, x, d as nat, way)) && !(
        exists|n: nat, way: Seq<u32>| n < d && #[trigger] leads(*g, dir, t, x, n, way)) {
            let way = choose|way: Seq<u32>| #[trigger] leads(*g, dir, t, x, d as nat, way);
            lemma_way_back(*g, dir, t, x, d as nat, way);
            if graph::within(*g, dir, t, (d - 1) as nat, x) {
                let w = lemma_way(*g, dir, t, (d - 1) as nat, x);
                assert(leads(*g, dir, t, x, (w.len() - 1) as nat, w));
            }
            assert(graph::at_distance(*g, dir, t, d as nat, x));
        }
    }
}

/// Neighbours come nearest first, and by number within one distance; none comes
/// twice.
pub proof fn law_neighbours_come_nearest_first(
    g: &CodeGraph,
    target: FileId,
    dir: NeighborhoodDirection,
    depth: u8,
    out: Vec<NeighborhoodEntry>,
    i: int,
    j: int,
)
    requires
        call_ensures(neighborhood::neighborhood, (g, target, dir, depth), out),
        0 <= i < j < out@.len(),
    ensures
        out@[i].depth < out@[j].depth || (out@[i].depth == out@[j].depth && out@[i].file.0
            < out@[j].file.0),
        out@[i].file != out@[j].file,
{
    assert(neighborhood::entry_le(out@[i], out@[j]));
}

} // verus!
