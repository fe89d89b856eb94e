//! Files within a few import steps of a file.

use crate::graph;
use crate::graph::CodeGraph;
pub use crate::graph::NeighborhoodDirection;
use crate::order;
use crate::types::{CodeEdge, FileId};
use std::collections::{HashMap, HashSet};
use vstd::prelude::*;

verus! {

broadcast use vstd::std_specs::hash::group_hash_axioms;

/// The farthest that a neighbourhood reaches. A neighbourhood grows
/// exponentially with its depth, and three steps frame what a reader of one
/// file needs.
pub const MAX_NEIGHBORHOOD_DEPTH: u8 = 3;

/// A file and its distance.
#[derive(Clone, Copy, Debug, PartialEq, Eq, Structural)]
pub struct NeighborhoodEntry {
    pub file: FileId,
    pub depth: u8,
}

/// The depth that a query for `depth` goes to.
pub open spec fn clamped(depth: u8) -> u8 {
    if depth <= MAX_NEIGHBORHOOD_DEPTH {
        depth
    } else {
        MAX_NEIGHBORHOOD_DEPTH
    }
}

/// Nearer first, then by number.
pub open spec fn entry_le(a: NeighborhoodEntry, b: NeighborhoodEntry) -> bool {
    a.depth < b.depth || (a.depth == b.depth && a.file.0 <= b.file.0)
}

spec fn entry_order() -> spec_fn(NeighborhoodEntry, NeighborhoodEntry) -> bool {
    |a: NeighborhoodEntry, b: NeighborhoodEntry| entry_le(a, b)
}

fn entry_before(a: &NeighborhoodEntry, b: &NeighborhoodEntry) -> (r: bool)
    ensures
        r == entry_order()(*a, *b),
{
    a.depth < b.depth || (a.depth == b.depth && a.file.0 <= b.file.0)
}

/// `out` lists, nearest first, every file at a distance of `1 ..= depth`.
pub open spec fn is_neighborhood(
    out: Seq<NeighborhoodEntry>,
    g: CodeGraph,
    target: u32,
    dir: NeighborhoodDirection,
    depth: nat,
) -> bool {
    &&& forall|k: int|
        0 <= k < out.len() ==> 1 <= (#[trigger] out[k]).depth <= depth && graph::at_distance(
            g,
            dir,
            target,
            out[k].depth as nat,
            out[k].file.0,
        )
    &&& forall|x: u32, d: nat|
        1 <= d <= depth && #[trigger] graph::at_distance(g, dir, target, d, x) ==> out.contains(
            NeighborhoodEntry { file: FileId(x), depth: d as u8 },
        )
    &&& forall|i: int, j: int|
        0 <= i < j < out.len() ==> entry_le(#[trigger] out[i], #[trigger] out[j]) && out[i].file
            != out[j].file
}

/// Walks outward from `target`, one layer at a time.
fn bfs_layers(
    g: &CodeGraph,
    next: &HashMap<u32, Vec<u32>>,
    target: u32,
    dir: NeighborhoodDirection,
    depth: u8,
) -> (out: Vec<NeighborhoodEntry>)
    requires
        forall|a: u32, b: u32| #[trigger] graph::linked(next@, a, b) <==> graph::step(*g, dir, a, b),
    ensures
        is_neighborhood(out@, *g, target, dir, depth as nat),
{
    let mut visited: HashSet<u32> = HashSet::new();
    visited.insert(target);
    let mut frontier: Vec<u32> = Vec::new();
    frontier.push(target);
    let mut found: Vec<NeighborhoodEntry> = Vec::new();
    let mut ring: u8 = 0;
    assert(frontier@[0] == target);
    while ring < depth
        invariant
            ring <= depth,
            forall|a: u32, b: u32| #[trigger]
                graph::linked(next@, a, b) <==> graph::step(*g, dir, a, b),
            forall|x: u32| #[trigger]
                visited@.contains(x) <==> graph::within(*g, dir, target, ring as nat, x),
            forall|x: u32| #[trigger]
                frontier@.contains(x) <==> graph::at_distance(*g, dir, target, ring as nat, x),
            forall|k: int|
                0 <= k < found@.len() ==> 1 <= (#[trigger] found@[k]).depth <= ring
                    && graph::at_distance(
                    *g,
                    dir,
                    target,
                    found@[k].depth as nat,
                    found@[k].file.0,
                ),
            forall|x: u32, d: nat|
                1 <= d <= ring && #[trigger] graph::at_distance(*g, dir, target, d, x)
                    ==> found@.contains(NeighborhoodEntry { file: FileId(x), depth: d as u8 }),
            forall|i: int, j: int|
                0 <= i < j < found@.len() ==> (#[trigger] found@[i]).file != (
                #[trigger] found@[j]).file,
        decreases depth - ring,
    {
        let ghost seen0 = visited@;
        let ghost found0 = found@;
        let ghost r = ring as nat;
        let mut fresh: Vec<u32> = Vec::new();
        let mut f: usize = 0;
        while f < frontier.len()
            invariant
                f <= frontier.len(),
                ring < depth,
                r == ring as nat,
                forall|a: u32, b: u32| #[trigger]
                    graph::linked(next@, a, b) <==> graph::step(*g, dir, a, b),
                forall|x: u32| #[trigger]
                    seen0.contains(x) <==> graph::within(*g, dir, target, r, x),
                forall|x: u32| #[trigger]
                    frontier@.contains(x) <==> graph::at_distance(*g, dir, target, r, x),
                forall|x: u32| #[trigger]
                    visited@.contains(x) <==> seen0.contains(x) || fresh@.contains(x),
                forall|x: u32| #[trigger]
                    fresh@.contains(x) ==> !seen0.contains(x) && graph::within(
                        *g,
                        dir,
                        target,
                        r + 1,
                        x,
                    ),
                forall|k: int, b: u32|
                    0 <= k < f && #[trigger] graph::step(*g, dir, frontier@[k], b)
                        ==> visited@.contains(b),
                found0.len() <= found@.len(),
                found@.len() == found0.len() + fresh@.len(),
                forall|k: int| 0 <= k < found0.len() ==> #[trigger] found@[k] == found0[k],
                forall|k: int|
                    0 <= k < fresh@.len() ==> found@[found0.len() + k] == (NeighborhoodEntry {
                        file: FileId(#[trigger] fresh@[k]),
                        depth: (ring + 1) as u8,
                    }),
                fresh@.no_duplicates(),
            decreases frontier.len() - f,
        {
            let current: u32 = frontier[f];
            assert(frontier@.contains(current));
            if let Some(row) = next.get(&current) {
                let mut k: usize = 0;
                while k < row.len()
                    invariant
                        k <= row.len(),
                        ring < depth,
                        r == ring as nat,
                        f < frontier.len(),
                        current == frontier@[f as int],
                        graph::within(*g, dir, target, r, current),
                        next@.contains_key(current),
                        next@[current] == *row,
                        forall|a: u32, b: u32| #[trigger]
                            graph::linked(next@, a, b) <==> graph::step(*g, dir, a, b),
                        forall|x: u32| #[trigger]
                            visited@.contains(x) <==> seen0.contains(x) || fresh@.contains(x),
                        forall|x: u32| #[trigger]
                            fresh@.contains(x) ==> !seen0.contains(x) && graph::within(
                                *g,
                                dir,
                                target,
                                r + 1,
                                x,
                            ),
                        forall|k: int, b: u32|
                            0 <= k < f && #[trigger] graph::step(*g, dir, frontier@[k], b)
                                ==> visited@.contains(b),
                        forall|j: int| 0 <= j < k ==> visited@.contains(#[trigger] row@[j]),
                        found0.len() <= found@.len(),
                        found@.len() == found0.len() + fresh@.len(),
                        forall|k: int| 0 <= k < found0.len() ==> #[trigger] found@[k] == found0[k],
                        forall|k: int|
                            0 <= k < fresh@.len() ==> found@[found0.len() + k] == (
                            NeighborhoodEntry {
                                file: FileId(#[trigger] fresh@[k]),
                                depth: (ring + 1) as u8,
                            }),
                        fresh@.no_duplicates(),
                    decreases row.len() - k,
                {
                    let file: u32 = row[k];
                    assert(row@.contains(file));
                    assert(graph::linked(next@, current, file));
                    let ghost seen = visited@;
                    let ghost listed = fresh@;
                    if visited.insert(file) {
                        proof {
                            graph::lemma_within_step(*g, dir, target, r, current, file);
                        }
                        found.push(NeighborhoodEntry { file: FileId(file), depth: ring + 1 });
                        fresh.push(file);
                        assert forall|x: u32| #[trigger] fresh@.contains(x) <==> listed.contains(x) || x
                            == file by {
                            if listed.contains(x) {
                                let m = choose|m: int| 0 <= m < listed.len() && listed[m] == x;
                                assert(fresh@[m] == x);
                            }
                            if x == file {
                                assert(fresh@[listed.len() as int] == x);
                            }
                        }
                        assert(!listed.contains(file));
                        assert forall|k: int| 0 <= k < fresh@.len() implies found@[found0.len() + k] == (
                        NeighborhoodEntry {
                            file: FileId(#[trigger] fresh@[k]),
                            depth: (ring + 1) as u8,
                        }) by {
                            if k < listed.len() {
                                assert(listed[k] == fresh@[k]);
                            }
                        }
                        assert(fresh@.no_duplicates());
                    } else {
                        assert(visited@ =~= seen);
                    }
                    k = k + 1;
                }
                assert forall|k: int, b: u32|
                    0 <= k < f + 1 && #[trigger] graph::step(*g, dir, frontier@[k], b) implies visited@.contains(
                    b,
                ) by {
                    if k == f {
                        assert(graph::linked(next@, current, b));
                        let j = choose|j: int| 0 <= j < row@.len() && row@[j] == b;
                        assert(row@[j] == b);
                    }
                }
            } else {
                assert forall|k: int, b: u32|
                    0 <= k < f + 1 && #[trigger] graph::step(*g, dir, frontier@[k], b) implies visited@.contains(
                    b,
                ) by {
                    if k == f {
                        assert(graph::linked(next@, current, b));
                    }
                }
            }
            f = f + 1;
        }
        proof {
            assert((r + 1 - 1) as nat == r);
            assert forall|x: u32| #[trigger] fresh@.contains(x) <==> graph::at_distance(
                *g,
                dir,
                target,
                r + 1,
                x,
            ) by {
                if graph::at_distance(*g, dir, target, r + 1, x) {
                    let y = graph::lemma_within_back(*g, dir, target, r, x);
                    if r > 0 && graph::within(*g, dir, target, (r - 1) as nat, y) {
                        graph::lemma_within_step(*g, dir, target, (r - 1) as nat, y, x);
                        assert(false);
                    }
                    assert(frontier@.contains(y));
                    let m = choose|m: int| 0 <= m < frontier@.len() && frontier@[m] == y;
                    assert(graph::step(*g, dir, frontier@[m], x));
                    assert(visited@.contains(x));
                    assert(!seen0.contains(x));
                }
            }
            assert forall|x: u32| #[trigger] visited@.contains(x) <==> graph::within(
                *g,
                dir,
                target,
                r + 1,
                x,
            ) by {
                if graph::within(*g, dir, target, r, x) {
                    graph::lemma_within_grows(*g, dir, target, r, r + 1, x);
                }
                if graph::within(*g, dir, target, r + 1, x) && !seen0.contains(x) {
                    assert(graph::at_distance(*g, dir, target, r + 1, x));
                    assert(fresh@.contains(x));
                }
            }
            assert forall|k: int| 0 <= k < found@.len() implies 1 <= (#[trigger] found@[k]).depth <= ring
                + 1 && graph::at_distance(
                *g,
                dir,
                target,
                found@[k].depth as nat,
                found@[k].file.0,
            ) by {
                if k < found0.len() {
                    assert(found@[k] == found0[k]);
                } else {
                    let m = k - found0.len();
                    assert(found@[found0.len() + m].file == FileId(fresh@[m]));
                    assert(fresh@.contains(fresh@[m]));
                }
            }
            assert forall|x: u32, d: nat|
                1 <= d <= ring + 1 && #[trigger] graph::at_distance(*g, dir, target, d, x) implies found@.contains(
                NeighborhoodEntry { file: FileId(x), depth: d as u8 },
            ) by {
                let e = NeighborhoodEntry { file: FileId(x), depth: d as u8 };
                if d <= ring {
                    let m = choose|m: int| 0 <= m < found0.len() && found0[m] == e;
                    assert(found@[m] == e);
                } else {
                    assert(fresh@.contains(x));
                    let m = choose|m: int| 0 <= m < fresh@.len() && fresh@[m] == x;
                    assert(found@[found0.len() + m] == e);
                }
            }
            assert forall|i: int, j: int| 0 <= i < j < found@.len() implies (#[trigger] found@[i]).file != (
            #[trigger] found@[j]).file by {
                if j >= found0.len() {
                    let b = j - found0.len();
                    assert(found@[found0.len() + b].file == FileId(fresh@[b]));
                    assert(fresh@.contains(fresh@[b]));
                    if i >= found0.len() {
                        let a = i - found0.len();
                        assert(found@[found0.len() + a].file == FileId(fresh@[a]));
                    } else {
                        assert(found@[i] == found0[i]);
                        graph::lemma_within_grows(
                            *g,
                            dir,
                            target,
                            found0[i].depth as nat,
                            r,
                            found0[i].file.0,
                        );
                        assert(seen0.contains(found0[i].file.0));
                    }
                } else {
                    assert(found@[i] == found0[i] && found@[j] == found0[j]);
                }
            }
        }
        ring = ring + 1;
        frontier = fresh;
    }
    let ghost all = found@;
    let ghost le = entry_order();
    assert(order::total_preorder(le));
    let out = order::sort_by(found, &entry_before, Ghost(le));
    proof {
        order::lemma_arranged(all, le);
        assert(all.no_duplicates());
        order::lemma_arranged_distinct(all, le);
        assert forall|k: int| 0 <= k < out@.len() implies all.contains(#[trigger] out@[k]) by {
            assert(out@.contains(out@[k]));
        }
        assert forall|x: u32, d: nat|
            1 <= d <= depth && #[trigger] graph::at_distance(*g, dir, target, d, x) implies out@.contains(
            NeighborhoodEntry { file: FileId(x), depth: d as u8 },
        ) by {
            assert(all.contains(NeighborhoodEntry { file: FileId(x), depth: d as u8 }));
        }
        assert forall|i: int, j: int| 0 <= i < j < out@.len() implies entry_le(
            #[trigger] out@[i],
            #[trigger] out@[j],
        ) && out@[i].file != out@[j].file by {
            let a = choose|m: int| 0 <= m < all.len() && all[m] == out@[i];
            let b = choose|m: int| 0 <= m < all.len() && all[m] == out@[j];
            assert(le(out@[i], out@[j]));
            assert(out@[i] != out@[j]);
            assert(all[a].file != all[b].file);
        }
    }
    out
}

/// The files at a distance of `1 ..= depth` import steps from `target`, with
/// their distances, nearest first and by number within one distance.
///
/// A depth above [`MAX_NEIGHBORHOOD_DEPTH`] counts as that depth. Depth 0 and
/// an unknown target give nothing.
pub fn neighborhood(
    g: &CodeGraph,
    target: FileId,
    direction: NeighborhoodDirection,
    depth: u8,
) -> (out: Vec<NeighborhoodEntry>)
    ensures
        depth == 0 || !graph::known(g.files@, target.0) ==> out@.len() == 0,
        depth > 0 && graph::known(g.files@, target.0) ==> is_neighborhood(
            out@,
            *g,
            target.0,
            direction,
            clamped(depth) as nat,
        ),
{
    if depth == 0 {
        return Vec::new();
    }
    let depth: u8 = if depth <= MAX_NEIGHBORHOOD_DEPTH {
        depth
    } else {
        MAX_NEIGHBORHOOD_DEPTH
    };
    let files = graph::known_ids(&g.files);
    if !files.contains(&target.0) {
        return Vec::new();
    }
    let next = graph::import_neighbors(g, direction);
    bfs_layers(g, &next, target.0, direction, depth)
}

// ------------------------------------------------------------------ laws

/// The graph with every edge turned round.
pub open spec fn is_flipped(g: CodeGraph, h: CodeGraph) -> bool {
    &&& h.files@ == g.files@
    &&& h.edges@ == g.edges@.map_values(
        |e: CodeEdge| CodeEdge { from: e.to, to: e.from, ..e },
    )
}

proof fn lemma_flipped_imports(g: CodeGraph, h: CodeGraph, a: u32, b: u32)
    requires
        is_flipped(g, h),
    ensures
        graph::imports(g, a, b) <==> graph::imports(h, b, a),
{
    if graph::imports(g, a, b) {
        let e = choose|e: int|
            0 <= e < g.edges@.len() && (#[trigger] g.edges@[e]).kind == crate::types::EdgeKind::Import
                && g.edges@[e].from == a && g.edges@[e].to == b;
        assert(h.edges@[e].from == b);
    }
    if graph::imports(h, b, a) {
        let e = choose|e: int|
            0 <= e < h.edges@.len() && (#[trigger] h.edges@[e]).kind == crate::types::EdgeKind::Import
                && h.edges@[e].from == b && h.edges@[e].to == a;
        assert(g.edges@[e].from == a);
    }
}

proof fn lemma_flipped_within(g: CodeGraph, h: CodeGraph, target: u32, d: nat, x: u32)
    requires
        is_flipped(g, h),
    ensures
        graph::within(g, NeighborhoodDirection::Dependents, target, d, x) <==> graph::within(
            h,
            NeighborhoodDirection::Dependencies,
            target,
            d,
            x,
        ),
    decreases d,
{
    let up = NeighborhoodDirection::Dependents;
    let down = NeighborhoodDirection::Dependencies;
    if d > 0 {
        let e = (d - 1) as nat;
        lemma_flipped_within(g, h, target, e, x);
        if graph::within(g, up, target, d, x) && !graph::within(g, up, target, e, x) {
            let y = graph::lemma_within_back(g, up, target, e, x);
            lemma_flipped_within(g, h, target, e, y);
            lemma_flipped_imports(g, h, x, y);
            graph::lemma_within_step(h, down, target, e, y, x);
        }
        if graph::within(h, down, target, d, x) && !graph::within(h, down, target, e, x) {
            let y = graph::lemma_within_back(h, down, target, e, x);
            lemma_flipped_within(g, h, target, e, y);
            lemma_flipped_imports(g, h, x, y);
            graph::lemma_within_step(g, up, target, e, y, x);
        }
        if graph::within(g, up, target, e, x) {
            graph::lemma_within_grows(g, up, target, e, d, x);
            graph::lemma_within_grows(h, down, target, e, d, x);
        }
    }
}

/// The dependents of a file in a graph stand where its dependencies stand in
/// the graph with every edge turned round, at the same distances.
pub proof fn law_dependents_mirror_flipped_dependencies(
    g: CodeGraph,
    h: CodeGraph,
    target: u32,
    d: nat,
    x: u32,
)
    requires
        is_flipped(g, h),
    ensures
        graph::at_distance(g, NeighborhoodDirection::Dependents, target, d, x)
            <==> graph::at_distance(h, NeighborhoodDirection::Dependencies, target, d, x),
{
    lemma_flipped_within(g, h, target, d, x);
    if d > 0 {
        lemma_flipped_within(g, h, target, (d - 1) as nat, x);
    }
}

/// A file has one distance at most.
pub proof fn law_distance_is_unique(
    g: CodeGraph,
    dir: NeighborhoodDirection,
    target: u32,
    d: nat,
    e: nat,
    x: u32,
)
    requires
        graph::at_distance(g, dir, target, d, x),
        graph::at_distance(g, dir, target, e, x),
    ensures
        d == e,
{
    if d < e {
        graph::lemma_within_grows(g, dir, target, d, (e - 1) as nat, x);
    }
    if e < d {
        graph::lemma_within_grows(g, dir, target, e, (d - 1) as nat, x);
    }
}

proof fn lemma_least_distance(
    g: CodeGraph,
    dir: NeighborhoodDirection,
    target: u32,
    d: nat,
    x: u32,
) -> (e: nat)
    requires
        graph::within(g, dir, target, d, x),
    ensures
        e <= d,
        graph::at_distance(g, dir, target, e, x),
    decreases d,
{
    if d == 0 || !graph::within(g, dir, target, (d - 1) as nat, x) {
        d
    } else {
        lemma_least_distance(g, dir, target, (d - 1) as nat, x)
    }
}

/// A neighbourhood holds only what can be reached, and whatever can be reached
/// has a distance: growing the depth ends in the reachable files.
pub proof fn law_neighborhoods_exhaust_reachability(
    g: CodeGraph,
    dir: NeighborhoodDirection,
    target: u32,
    x: u32,
)
    ensures
        graph::reaches(g, dir, target, x) <==> exists|d: nat|
            graph::at_distance(g, dir, target, d, x),
{
    if graph::reaches(g, dir, target, x) {
        let d = choose|d: nat| graph::within(g, dir, target, d, x);
        let e = lemma_least_distance(g, dir, target, d, x);
        assert(graph::at_distance(g, dir, target, e, x));
    }
    if exists|d: nat| graph::at_distance(g, dir, target, d, x) {
        let d = choose|d: nat| graph::at_distance(g, dir, target, d, x);
        assert(graph::within(g, dir, target, d, x));
    }
}

/// A neighbourhood is determined by the graph, the target, the direction and
/// the depth: two lists that are one are the same list.
pub proof fn law_neighborhood_is_unique(
    a: Seq<NeighborhoodEntry>,
    b: Seq<NeighborhoodEntry>,
    g: CodeGraph,
    target: u32,
    dir: NeighborhoodDirection,
    depth: nat,
)
    requires
        depth <= u8::MAX,
        is_neighborhood(a, g, target, dir, depth),
        is_neighborhood(b, g, target, dir, depth),
    ensures
        a == b,
{
    assert forall|e: NeighborhoodEntry| a.contains(e) <==> b.contains(e) by {
        if a.contains(e) {
            let k = choose|k: int| 0 <= k < a.len() && a[k] == e;
            assert(graph::at_distance(g, dir, target, a[k].depth as nat, a[k].file.0));
            assert(b.contains(NeighborhoodEntry { file: FileId(a[k].file.0), depth: a[k].depth }));
        }
        if b.contains(e) {
            let k = choose|k: int| 0 <= k < b.len() && b[k] == e;
            assert(graph::at_distance(g, dir, target, b[k].depth as nat, b[k].file.0));
            assert(a.contains(NeighborhoodEntry { file: FileId(b[k].file.0), depth: b[k].depth }));
        }
    }
    lemma_strictly_sorted_equal(a, b);
}

proof fn lemma_strictly_sorted_equal(a: Seq<NeighborhoodEntry>, b: Seq<NeighborhoodEntry>)
    requires
        forall|e: NeighborhoodEntry| a.contains(e) <==> b.contains(e),
        forall|i: int, j: int|
            0 <= i < j < a.len() ==> entry_le(#[trigger] a[i], #[trigger] a[j]) && a[i].file
                != a[j].file,
        forall|i: int, j: int|
            0 <= i < j < b.len() ==> entry_le(#[trigger] b[i], #[trigger] b[j]) && b[i].file
                != b[j].file,
    ensures
        a == b,
    decreases a.len(),
{
    if a.len() == 0 {
        if b.len() > 0 {
            assert(b.contains(b[0]));
        }
        assert(a =~= b);
    } else {
        assert(a.contains(a.last()));
        assert(b.contains(a.last()));
        assert(b.len() > 0);
        assert(a.contains(b.last())) by {
            assert(b.contains(b.last()));
        }
        let i = choose|i: int| 0 <= i < b.len() && b[i] == a.last();
        let j = choose|j: int| 0 <= j < a.len() && a[j] == b.last();
        assert(a.last() == b.last()) by {
            if i < b.len() - 1 {
                assert(entry_le(b[i], b[b.len() - 1]));
            }
            if j < a.len() - 1 {
                assert(entry_le(a[j], a[a.len() - 1]));
            }
        }
        let x = a.drop_last();
        let y = b.drop_last();
        assert forall|e: NeighborhoodEntry| x.contains(e) <==> y.contains(e) by {
            if x.contains(e) {
                let k = choose|k: int| 0 <= k < x.len() && x[k] == e;
                assert(a[k] == e);
                assert(a.contains(e));
                assert(a[k].file != a[a.len() - 1].file);
                let m = choose|m: int| 0 <= m < b.len() && b[m] == e;
                assert(y[m] == e);
            }
            if y.contains(e) {
                let k = choose|k: int| 0 <= k < y.len() && y[k] == e;
                assert(b[k] == e);
                assert(b.contains(e));
                assert(b[k].file != b[b.len() - 1].file);
                let m = choose|m: int| 0 <= m < a.len() && a[m] == e;
                assert(x[m] == e);
            }
        }
        lemma_strictly_sorted_equal(x, y);
        assert(a =~= x.push(a.last()));
        assert(b =~= y.push(b.last()));
    }
}

} // verus!
