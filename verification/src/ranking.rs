//! What ranking works on: files in canonical order, weighted import rows, the
//! words of a task, and how strongly a task speaks for each file.

use crate::graph;
use crate::graph::CodeGraph;
use crate::order;
use crate::text;
use crate::types::{CodeEdge, CodeFile, CodeSymbol, EdgeKind};
use std::collections::{HashMap, HashSet};
use vstd::prelude::*;

verus! {

broadcast use vstd::std_specs::hash::group_hash_axioms;

// ----------------------------------------------------------- file order

/// Path first, then number.
pub open spec fn file_le(a: CodeFile, b: CodeFile) -> bool {
    if a.path@ != b.path@ {
        text::text_le(a.path@, b.path@)
    } else {
        a.id.0 <= b.id.0
    }
}

/// [`file_le`] on positions.
pub open spec fn file_order(files: Seq<CodeFile>) -> spec_fn(usize, usize) -> bool {
    |a: usize, b: usize|
        b >= files.len() || (a < files.len() && file_le(files[a as int], files[b as int]))
}

/// The positions of the files in the order of their paths.
pub open spec fn sorted_positions(files: Seq<CodeFile>) -> Seq<usize> {
    order::arranged(Seq::new(files.len(), |i: int| i as usize), file_order(files))
}

pub(crate) proof fn lemma_file_order(files: Seq<CodeFile>)
    ensures
        order::total_preorder(file_order(files)),
{
    let le = file_order(files);
    assert forall|a: usize, b: usize| #[trigger] le(a, b) || le(b, a) by {
        if a < files.len() && b < files.len() {
            text::lemma_text_le_total(files[a as int].path@, files[b as int].path@);
        }
    }
    assert forall|a: usize, b: usize, c: usize| #[trigger] le(a, b) && #[trigger] le(b, c) implies le(
        a,
        c,
    ) by {
        if c < files.len() {
            let x = files[a as int].path@;
            let y = files[b as int].path@;
            let z = files[c as int].path@;
            if text::text_le(x, y) && text::text_le(y, z) {
                text::lemma_text_le_transitive(x, y, z);
                if x == z {
                    text::lemma_text_le_antisymmetric(x, y);
                }
            }
        }
    }
}

/// The positions of the files of `g` in the order of their paths.
pub fn sorted_files(g: &CodeGraph) -> (out: Vec<usize>)
    ensures
        out@ == sorted_positions(g.files@),
        out@.len() == g.files@.len(),
        forall|k: int| 0 <= k < out@.len() ==> #[trigger] out@[k] < g.files@.len(),
        out@.no_duplicates(),
{
    let files = &g.files;
    let mut all: Vec<usize> = Vec::new();
    let mut i: usize = 0;
    while i < files.len()
        invariant
            i <= files.len(),
            all@.len() == i,
            forall|k: int| 0 <= k < i ==> #[trigger] all@[k] == k,
        decreases files.len() - i,
    {
        all.push(i);
        i = i + 1;
    }
    let ghost given = all@;
    assert(given =~= Seq::new(files@.len(), |i: int| i as usize));
    let ghost le = file_order(files@);
    let f = |a: &usize, b: &usize| -> (r: bool)
        ensures
            r == file_order(files@)(*a, *b),
        {
            if *b >= files.len() {
                true
            } else if *a >= files.len() {
                false
            } else {
                match text::rank(files[*a].path.as_str(), files[*b].path.as_str()) {
                    text::Rank::Before => true,
                    text::Rank::After => false,
                    text::Rank::Same => files[*a].id.0 <= files[*b].id.0,
                }
            }
        };
    proof {
        lemma_file_order(files@);
    }
    let out = order::sort_by(all, &f, Ghost(le));
    proof {
        order::lemma_arranged(given, le);
        order::lemma_arranged_distinct(given, le);
        assert forall|k: int| 0 <= k < out@.len() implies #[trigger] out@[k] < g.files@.len() by {
            assert(out@.contains(out@[k]));
            assert(given.contains(out@[k]));
        }
    }
    out
}

/// The numbers of the files in the order of their paths.
pub open spec fn sorted_ids(files: Seq<CodeFile>) -> Seq<u32> {
    sorted_positions(files).map_values(|p: usize| files[p as int].id.0)
}

/// The last of the first `n` places that holds `id`.
pub open spec fn place_of(ids: Seq<u32>, id: u32, n: nat) -> Option<int>
    decreases n,
{
    if n == 0 {
        None
    } else if ids[n - 1] == id {
        Some(n - 1)
    } else {
        place_of(ids, id, (n - 1) as nat)
    }
}

pub proof fn lemma_place_in_range(ids: Seq<u32>, id: u32, n: nat)
    ensures
        place_of(ids, id, n) matches Some(k) ==> 0 <= k < n && ids[k] == id,
    decreases n,
{
    if n > 0 {
        lemma_place_in_range(ids, id, (n - 1) as nat);
    }
}

/// `m` gives every file number its place in canonical order.
pub open spec fn is_placing(m: Map<u32, usize>, ids: Seq<u32>) -> bool {
    placing_within(m, ids, ids.len())
}

/// [`is_placing`] for the first `n` places.
pub open spec fn placing_within(m: Map<u32, usize>, ids: Seq<u32>, n: nat) -> bool {
    &&& forall|id: u32| #[trigger] m.contains_key(id) <==> place_of(ids, id, n) is Some
    &&& forall|id: u32| #[trigger]
        m.contains_key(id) ==> place_of(ids, id, n) == Some(m[id] as int) && m[id] < n
            && ids[m[id] as int] == id
}

/// The place of every file number in canonical order.
pub fn file_positions(g: &CodeGraph, sorted: &Vec<usize>) -> (m: HashMap<u32, usize>)
    requires
        sorted@ == sorted_positions(g.files@),
        forall|k: int| 0 <= k < sorted@.len() ==> #[trigger] sorted@[k] < g.files@.len(),
    ensures
        is_placing(m@, sorted_ids(g.files@)),
{
    let ghost ids = sorted_ids(g.files@);
    let mut m: HashMap<u32, usize> = HashMap::new();
    let mut i: usize = 0;
    while i < sorted.len()
        invariant
            i <= sorted.len(),
            sorted@ == sorted_positions(g.files@),
            ids == sorted_ids(g.files@),
            forall|k: int| 0 <= k < sorted@.len() ==> #[trigger] sorted@[k] < g.files@.len(),
            placing_within(m@, ids, i as nat),
        decreases sorted.len() - i,
    {
        let ghost was = m@;
        let id: u32 = g.files[sorted[i]].id.0;
        assert(ids[i as int] == id);
        m.insert(id, i);
        assert(placing_within(m@, ids, (i + 1) as nat)) by {
            assert forall|x: u32| #[trigger] m@.contains_key(x) <==> place_of(
                ids,
                x,
                (i + 1) as nat,
            ) is Some by {
                assert(was.contains_key(x) <==> place_of(ids, x, i as nat) is Some);
            }
            assert forall|x: u32| #[trigger] m@.contains_key(x) implies place_of(
                ids,
                x,
                (i + 1) as nat,
            ) == Some(m@[x] as int) && m@[x] < i + 1 && ids[m@[x] as int] == x by {
                assert(was.contains_key(x) <==> place_of(ids, x, i as nat) is Some);
            }
        }
        i = i + 1;
    }
    m
}

// --------------------------------------------------------------- weights

/// What one import edge counts for before its factor.
pub open spec fn edge_weight(e: CodeEdge) -> int {
    if e.weight == 0 {
        1
    } else {
        e.weight as int
    }
}

/// One of the first `n` edges is an import of `b` by `a`.
pub open spec fn imported_within(edges: Seq<CodeEdge>, a: u32, b: u32, n: int) -> bool {
    exists|e: int|
        0 <= e < n && (#[trigger] edges[e]).kind == EdgeKind::Import && edges[e].from == a
            && edges[e].to == b
}

/// What the imports of `b` by `a` among the first `n` edges count for.
pub open spec fn weight_within(
    edges: Seq<CodeEdge>,
    context: Set<u32>,
    a: u32,
    b: u32,
    n: nat,
) -> int
    decreases n,
{
    if n == 0 {
        0
    } else {
        let e = edges[n - 1];
        let before = weight_within(edges, context, a, b, (n - 1) as nat);
        if e.kind == EdgeKind::Import && e.from == a && e.to == b {
            before + (if context.contains(a) {
                edge_weight(e) * 50
            } else {
                edge_weight(e)
            })
        } else {
            before
        }
    }
}

/// `n` brought down to what a `u64` holds.
pub open spec fn capped(n: int) -> u64 {
    if n > u64::MAX {
        u64::MAX
    } else {
        n as u64
    }
}

/// `row` lists the imports of the file at place `i`, by ascending place, each
/// with its capped weight.
pub open spec fn is_import_row(
    row: Seq<(usize, u64)>,
    edges: Seq<CodeEdge>,
    ids: Seq<u32>,
    places: Map<u32, usize>,
    context: Set<u32>,
    i: int,
) -> bool {
    &&& forall|k: int|
        0 <= k < row.len() ==> (#[trigger] row[k]).0 < ids.len() && imported_within(
            edges,
            ids[i],
            ids[row[k].0 as int],
            edges.len() as int,
        ) && row[k].1 == capped(
            weight_within(edges, context, ids[i], ids[row[k].0 as int], edges.len()),
        )
    &&& forall|b: u32|
        #[trigger] places.contains_key(b) && imported_within(edges, ids[i], b, edges.len() as int)
            ==> exists|k: int| 0 <= k < row.len() && (#[trigger] row[k]).0 == places[b]
    &&& forall|j: int, k: int| 0 <= j < k < row.len() ==> (#[trigger] row[j]).0 < (#[trigger] row[k]).0
}

/// One cell of the import matrix.
#[derive(Clone, Copy, Debug, PartialEq, Eq, Structural)]
struct Cell {
    from: usize,
    to: usize,
    weight: u64,
}

spec fn cell_order() -> spec_fn(Cell, Cell) -> bool {
    |a: Cell, b: Cell| a.from < b.from || (a.from == b.from && a.to <= b.to)
}

fn cell_before(a: &Cell, b: &Cell) -> (r: bool)
    ensures
        r == cell_order()(*a, *b),
{
    a.from < b.from || (a.from == b.from && a.to <= b.to)
}

/// Two numbers as one.
pub open spec fn pair_key(a: u32, b: u32) -> u64 {
    (a as int * 0x1_0000_0000 + b as int) as u64
}

pub proof fn lemma_pair_key(a: u32, b: u32, c: u32, d: u32)
    ensures
        pair_key(a, b) == pair_key(c, d) ==> a == c && b == d,
        pair_key(a, b) as int == a as int * 0x1_0000_0000 + b as int,
{
}

pub(crate) fn key_of(a: u32, b: u32) -> (r: u64)
    ensures
        r == pair_key(a, b),
{
    (a as u64) * 0x1_0000_0000 + (b as u64)
}

proof fn lemma_weight_positive(edges: Seq<CodeEdge>, context: Set<u32>, a: u32, b: u32, n: nat)
    requires
        n <= edges.len(),
    ensures
        weight_within(edges, context, a, b, n) >= 0,
        imported_within(edges, a, b, n as int) <==> weight_within(edges, context, a, b, n) > 0,
    decreases n,
{
    if n > 0 {
        let m = (n - 1) as nat;
        lemma_weight_positive(edges, context, a, b, m);
        let e = edges[n - 1];
        if imported_within(edges, a, b, m as int) {
            let k = choose|k: int|
                0 <= k < m && (#[trigger] edges[k]).kind == EdgeKind::Import && edges[k].from == a
                    && edges[k].to == b;
            assert(edges[k].kind == EdgeKind::Import);
        }
        assert(edge_weight(e) > 0);
    }
}

/// The weight of every pair of known files that an import joins.
fn pair_weights(
    g: &CodeGraph,
    places: &HashMap<u32, usize>,
    context: &HashSet<u32>,
) -> (r: (HashMap<u64, u64>, Vec<(u32, u32)>))
    ensures
        forall|a: u32, b: u32| #[trigger]
            r.0@.contains_key(pair_key(a, b)) <==> places@.contains_key(a) && places@.contains_key(b)
                && imported_within(g.edges@, a, b, g.edges@.len() as int),
        forall|a: u32, b: u32| #[trigger]
            r.0@.contains_key(pair_key(a, b)) ==> r.0@[pair_key(a, b)] == capped(
                weight_within(g.edges@, context@, a, b, g.edges@.len()),
            ),
        forall|a: u32, b: u32|
            r.1@.contains((a, b)) <==> #[trigger] r.0@.contains_key(pair_key(a, b)),
        r.1@.no_duplicates(),
{
    let mut totals: HashMap<u64, u64> = HashMap::new();
    let mut pairs: Vec<(u32, u32)> = Vec::new();
    let mut e: usize = 0;
    while e < g.edges.len()
        invariant
            e <= g.edges.len(),
            forall|a: u32, b: u32| #[trigger]
                totals@.contains_key(pair_key(a, b)) <==> places@.contains_key(a)
                    && places@.contains_key(b) && imported_within(g.edges@, a, b, e as int),
            forall|a: u32, b: u32| #[trigger]
                totals@.contains_key(pair_key(a, b)) ==> totals@[pair_key(a, b)] == capped(
                    weight_within(g.edges@, context@, a, b, e as nat),
                ),
            forall|a: u32, b: u32|
                pairs@.contains((a, b)) <==> #[trigger] totals@.contains_key(pair_key(a, b)),
            pairs@.no_duplicates(),
        decreases g.edges.len() - e,
    {
        let ghost was = totals@;
        let ghost listed = pairs@;
        let edge = g.edges[e];
        let used = edge.kind == EdgeKind::Import && places.contains_key(&edge.from)
            && places.contains_key(&edge.to);
        if used {
            let single: u64 = if edge.weight == 0 {
                1
            } else {
                edge.weight as u64
            };
            let weight: u64 = if context.contains(&edge.from) {
                single * 50
            } else {
                single
            };
            let key: u64 = key_of(edge.from, edge.to);
            proof {
                lemma_weight_positive(g.edges@, context@, edge.from, edge.to, e as nat);
            }
            match totals.get(&key) {
                Some(t) => {
                    let sum: u64 = (*t).saturating_add(weight);
                    totals.insert(key, sum);
                    assert(listed.contains((edge.from, edge.to)));
                },
                None => {
                    totals.insert(key, weight);
                    pairs.push((edge.from, edge.to));
                },
            }
        }
        proof {
            let n = e as int;
            assert forall|a: u32, b: u32| #[trigger]
                totals@.contains_key(pair_key(a, b)) <==> places@.contains_key(a)
                    && places@.contains_key(b) && imported_within(g.edges@, a, b, n + 1) by {
                lemma_pair_key(a, b, edge.from, edge.to);
                assert(was.contains_key(pair_key(a, b)) <==> places@.contains_key(a)
                    && places@.contains_key(b) && imported_within(g.edges@, a, b, n));
                if imported_within(g.edges@, a, b, n) {
                    let k = choose|k: int|
                        0 <= k < n && (#[trigger] g.edges@[k]).kind == EdgeKind::Import
                            && g.edges@[k].from == a && g.edges@[k].to == b;
                    assert(g.edges@[k].kind == EdgeKind::Import);
                }
                if edge.kind == EdgeKind::Import && edge.from == a && edge.to == b {
                    assert(g.edges@[n].kind == EdgeKind::Import);
                }
            }
            assert forall|a: u32, b: u32| #[trigger]
                totals@.contains_key(pair_key(a, b)) implies totals@[pair_key(a, b)] == capped(
                weight_within(g.edges@, context@, a, b, e as nat + 1),
            ) by {
                lemma_pair_key(a, b, edge.from, edge.to);
                assert(was.contains_key(pair_key(a, b)) || !was.contains_key(pair_key(a, b)));
                lemma_weight_positive(g.edges@, context@, a, b, e as nat);
            }
            assert forall|a: u32, b: u32|
                pairs@.contains((a, b)) <==> #[trigger] totals@.contains_key(pair_key(a, b)) by {
                lemma_pair_key(a, b, edge.from, edge.to);
                assert(was.contains_key(pair_key(a, b)) <==> listed.contains((a, b)));
                if listed.contains((a, b)) {
                    let k = choose|k: int| 0 <= k < listed.len() && listed[k] == (a, b);
                    assert(pairs@[k] == (a, b));
                }
                if pairs@.len() > listed.len() && a == edge.from && b == edge.to {
                    assert(pairs@[listed.len() as int] == (a, b));
                }
                if pairs@.contains((a, b)) {
                    let k = choose|k: int| 0 <= k < pairs@.len() && pairs@[k] == (a, b);
                    if k < listed.len() {
                        assert(listed[k] == (a, b));
                    }
                }
            }
            if pairs@.len() > listed.len() {
                assert(!was.contains_key(pair_key(edge.from, edge.to)));
                assert(!listed.contains((edge.from, edge.to)));
            }
        }
        e = e + 1;
    }
    (totals, pairs)
}

/// The cells of row `i` among `cells`.
spec fn row_of(cells: Seq<Cell>, i: int) -> Seq<(usize, u64)>
    decreases cells.len(),
{
    if cells.len() == 0 {
        Seq::empty()
    } else {
        let before = row_of(cells.drop_last(), i);
        if cells.last().from == i {
            before.push((cells.last().to, cells.last().weight))
        } else {
            before
        }
    }
}

/// `item` comes from a cell of row `i`.
spec fn is_from_row(cells: Seq<Cell>, i: int, item: (usize, u64)) -> bool {
    exists|m: int|
        0 <= m < cells.len() && (#[trigger] cells[m]).from == i && item == (
            cells[m].to,
            cells[m].weight,
        )
}

proof fn lemma_row_of(cells: Seq<Cell>, i: int)
    requires
        order::is_sorted(cells, cell_order()),
        forall|j: int, k: int|
            0 <= j < k < cells.len() ==> (#[trigger] cells[j]).from != (#[trigger] cells[k]).from
                || cells[j].to != cells[k].to,
    ensures
        forall|k: int|
            0 <= k < row_of(cells, i).len() ==> is_from_row(
                cells,
                i,
                #[trigger] row_of(cells, i)[k],
            ),
        forall|m: int|
            0 <= m < cells.len() && (#[trigger] cells[m]).from == i ==> row_of(cells, i).contains(
                (cells[m].to, cells[m].weight),
            ),
        forall|j: int, k: int|
            0 <= j < k < row_of(cells, i).len() ==> (#[trigger] row_of(cells, i)[j]).0 < (
            #[trigger] row_of(cells, i)[k]).0,
    decreases cells.len(),
{
    if cells.len() > 0 {
        let t = cells.drop_last();
        let last = cells.last();
        let before = row_of(t, i);
        let row = row_of(cells, i);
        assert(order::is_sorted(t, cell_order()));
        lemma_row_of(t, i);
        assert forall|k: int| 0 <= k < row.len() implies is_from_row(cells, i, #[trigger] row[k]) by {
            if k < before.len() {
                assert(is_from_row(t, i, before[k]));
                let m = choose|m: int|
                    0 <= m < t.len() && (#[trigger] t[m]).from == i && before[k] == (
                        t[m].to,
                        t[m].weight,
                    );
                assert(cells[m].from == i && row[k] == before[k]);
            } else {
                assert(cells[cells.len() - 1].from == i);
            }
        }
        assert forall|m: int| 0 <= m < cells.len() && (#[trigger] cells[m]).from == i implies row.contains(
            (cells[m].to, cells[m].weight),
        ) by {
            if m < t.len() {
                assert(t[m].from == i);
                assert(before.contains((t[m].to, t[m].weight)));
                let k = choose|k: int| 0 <= k < before.len() && before[k] == (t[m].to, t[m].weight);
                assert(row[k] == before[k]);
            } else {
                assert(row[row.len() - 1] == (cells[m].to, cells[m].weight));
            }
        }
        assert forall|j: int, k: int| 0 <= j < k < row.len() implies (#[trigger] row[j]).0 < (
        #[trigger] row[k]).0 by {
            assert(before[j] == row[j]);
            if k < before.len() {
                assert(before[k] == row[k]);
            } else {
                assert(is_from_row(t, i, before[j]));
                let m = choose|m: int|
                    0 <= m < t.len() && (#[trigger] t[m]).from == i && before[j] == (
                        t[m].to,
                        t[m].weight,
                    );
                assert(cells[m] == t[m]);
                assert(cell_order()(cells[m], cells[cells.len() - 1]));
            }
        }
    }
}

/// The import rows of all files in canonical order. An import counts with its
/// weight, 1 at least, and fifty times that where the importer is in `context`.
pub fn import_adjacency(
    g: &CodeGraph,
    places: &HashMap<u32, usize>,
    context: &HashSet<u32>,
) -> (out: Vec<Vec<(usize, u64)>>)
    requires
        graph::unique_files(g.files@),
        is_placing(places@, sorted_ids(g.files@)),
    ensures
        out@.len() == g.files@.len(),
        forall|i: int|
            0 <= i < out@.len() ==> is_import_row(
                (#[trigger] out@[i])@,
                g.edges@,
                sorted_ids(g.files@),
                places@,
                context@,
                i,
            ),
{
    let n: usize = g.files.len();
    let ghost ids = sorted_ids(g.files@);
    let ghost m = places@;
    proof {
        lemma_file_order(g.files@);
        order::lemma_arranged(
            Seq::new(g.files@.len(), |i: int| i as usize),
            file_order(g.files@),
        );
        lemma_sorted_ids_distinct(g.files@);
    }
    assert(ids.len() == n);
    let (totals, pairs) = pair_weights(g, places, context);
    let mut cells: Vec<Cell> = Vec::new();
    let mut p: usize = 0;
    while p < pairs.len()
        invariant
            p <= pairs.len(),
            m == places@,
            is_placing(m, ids),
            forall|a: u32, b: u32|
                pairs@.contains((a, b)) <==> #[trigger] totals@.contains_key(pair_key(a, b)),
            forall|a: u32, b: u32| #[trigger]
                totals@.contains_key(pair_key(a, b)) ==> m.contains_key(a) && m.contains_key(b),
            cells@.len() == p,
            forall|k: int|
                0 <= k < p ==> (#[trigger] cells@[k]) == (Cell {
                    from: m[pairs@[k].0],
                    to: m[pairs@[k].1],
                    weight: totals@[pair_key(pairs@[k].0, pairs@[k].1)],
                }),
        decreases pairs.len() - p,
    {
        let a: u32 = pairs[p].0;
        let b: u32 = pairs[p].1;
        assert(pairs@.contains((a, b))) by {
            assert(pairs@[p as int] == (a, b));
        }
        assert(totals@.contains_key(pair_key(a, b)));
        let from: usize = match places.get(&a) {
            Some(i) => *i,
            None => 0,
        };
        let to: usize = match places.get(&b) {
            Some(i) => *i,
            None => 0,
        };
        let key: u64 = key_of(a, b);
        let weight: u64 = match totals.get(&key) {
            Some(w) => *w,
            None => 0,
        };
        cells.push(Cell { from, to, weight });
        p = p + 1;
    }
    let ghost given = cells@;
    let ghost le = cell_order();
    assert(order::total_preorder(le));
    let sorted = order::sort_by(cells, &cell_before, Ghost(le));
    proof {
        order::lemma_arranged(given, le);
        assert forall|j: int, k: int| 0 <= j < given.len() && 0 <= k < given.len() && j != k implies (
        #[trigger] given[j]).from != (#[trigger] given[k]).from || given[j].to != given[k].to by {
            assert(pairs@[j] != pairs@[k]);
            assert(pairs@.contains(pairs@[j]) && pairs@.contains(pairs@[k]));
            assert(totals@.contains_key(pair_key(pairs@[j].0, pairs@[j].1)));
            assert(totals@.contains_key(pair_key(pairs@[k].0, pairs@[k].1)));
            assert(m.contains_key(pairs@[j].0) && m.contains_key(pairs@[k].0));
            assert(m.contains_key(pairs@[j].1) && m.contains_key(pairs@[k].1));
        }
        assert(given.no_duplicates());
        order::lemma_arranged_distinct(given, le);
        assert forall|k: int| 0 <= k < sorted@.len() implies given.contains(#[trigger] sorted@[k]) by {
            assert(sorted@.contains(sorted@[k]));
        }
        assert forall|j: int, k: int| 0 <= j < k < sorted@.len() implies (#[trigger] sorted@[j]).from != (
        #[trigger] sorted@[k]).from || sorted@[j].to != sorted@[k].to by {
            let x = choose|x: int| 0 <= x < given.len() && given[x] == sorted@[j];
            let y = choose|y: int| 0 <= y < given.len() && given[y] == sorted@[k];
            assert(sorted@[j] != sorted@[k]);
            assert(x != y);
        }
    }
    let mut out: Vec<Vec<(usize, u64)>> = Vec::new();
    let mut i: usize = 0;
    while i < n
        invariant
            i <= n,
            out@.len() == i,
            forall|k: int| 0 <= k < i ==> (#[trigger] out@[k])@.len() == 0,
        decreases n - i,
    {
        out.push(Vec::new());
        i = i + 1;
    }
    let mut c: usize = 0;
    assert forall|k: int| 0 <= k < n implies (#[trigger] out@[k])@ == row_of(sorted@.take(0), k) by {
        assert(out@[k]@ =~= Seq::<(usize, u64)>::empty());
    }
    assert forall|k: int| 0 <= k < sorted@.len() implies (#[trigger] sorted@[k]).from < n
        && sorted@[k].to < n by {
        let x = choose|x: int| 0 <= x < given.len() && given[x] == sorted@[k];
        assert(pairs@.contains(pairs@[x]));
        assert(totals@.contains_key(pair_key(pairs@[x].0, pairs@[x].1)));
        assert(m.contains_key(pairs@[x].0) && m.contains_key(pairs@[x].1));
    }
    while c < sorted.len()
        invariant
            c <= sorted.len(),
            out@.len() == n,
            forall|k: int| 0 <= k < sorted@.len() ==> (#[trigger] sorted@[k]).from < n,
            forall|k: int|
                0 <= k < n ==> (#[trigger] out@[k])@ == row_of(sorted@.take(c as int), k),
        decreases sorted.len() - c,
    {
        let cell = sorted[c];
        let ghost was = out@;
        let mut row: Vec<(usize, u64)> = Vec::new();
        std::mem::swap(&mut row, &mut out[cell.from]);
        assert(row@ == was[cell.from as int]@);
        row.push((cell.to, cell.weight));
        out[cell.from] = row;
        assert(sorted@.take(c as int + 1).drop_last() =~= sorted@.take(c as int));
        assert forall|k: int| 0 <= k < n implies (#[trigger] out@[k])@ == row_of(
            sorted@.take(c as int + 1),
            k,
        ) by {
            if k != cell.from {
                assert(out@[k] == was[k]);
            }
        }
        c = c + 1;
    }
    proof {
        assert(sorted@.take(sorted@.len() as int) =~= sorted@);
        assert forall|i: int| 0 <= i < out@.len() implies is_import_row(
            (#[trigger] out@[i])@,
            g.edges@,
            ids,
            m,
            context@,
            i,
        ) by {
            let row = out@[i]@;
            lemma_row_of(sorted@, i);
            assert forall|k: int| 0 <= k < row.len() implies (#[trigger] row[k]).0 < ids.len()
                && imported_within(g.edges@, ids[i], ids[row[k].0 as int], g.edges@.len() as int)
                && row[k].1 == capped(
                weight_within(g.edges@, context@, ids[i], ids[row[k].0 as int], g.edges@.len()),
            ) by {
                assert(is_from_row(sorted@, i, row[k]));
                let x = choose|x: int|
                    0 <= x < sorted@.len() && (#[trigger] sorted@[x]).from == i && row[k] == (
                        sorted@[x].to,
                        sorted@[x].weight,
                    );
                let y = choose|y: int| 0 <= y < given.len() && given[y] == sorted@[x];
                assert(pairs@.contains(pairs@[y]));
                assert(totals@.contains_key(pair_key(pairs@[y].0, pairs@[y].1)));
                assert(m.contains_key(pairs@[y].0) && m.contains_key(pairs@[y].1));
            }
            assert forall|b: u32|
                #[trigger] m.contains_key(b) && imported_within(
                    g.edges@,
                    ids[i],
                    b,
                    g.edges@.len() as int,
                ) implies exists|k: int| 0 <= k < row.len() && (#[trigger] row[k]).0 == m[b] by {
                let a = ids[i];
                lemma_place_of_distinct(ids, i);
                assert(placing_within(m, ids, ids.len()));
                assert(place_of(ids, a, ids.len()) == Some(i));
                assert(m.contains_key(a));
                assert(m[a] == i);
                assert(totals@.contains_key(pair_key(a, b)));
                assert(pairs@.contains((a, b)));
                let y = choose|y: int| 0 <= y < pairs@.len() && pairs@[y] == (a, b);
                assert(given.contains(given[y]));
                assert(sorted@.contains(given[y]));
                let x = choose|x: int| 0 <= x < sorted@.len() && sorted@[x] == given[y];
                assert(sorted@[x].from == i);
                assert(row.contains((sorted@[x].to, sorted@[x].weight)));
                let k = choose|k: int| 0 <= k < row.len() && row[k] == (sorted@[x].to, sorted@[x].weight);
                assert(row[k].0 == m[b]);
            }
        }
    }
    out
}

/// The numbers in canonical order are those of the files.
pub proof fn lemma_sorted_ids_hold(files: Seq<CodeFile>, id: u32)
    requires
        files.len() <= usize::MAX,
    ensures
        sorted_ids(files).len() == files.len(),
        sorted_positions(files).len() == files.len(),
        sorted_ids(files).contains(id) <==> graph::known(files, id),
{
    let all = Seq::new(files.len(), |i: int| i as usize);
    let le = file_order(files);
    lemma_file_order(files);
    order::lemma_arranged(all, le);
    let s = sorted_positions(files);
    let ids = sorted_ids(files);
    if ids.contains(id) {
        let k = choose|k: int| 0 <= k < ids.len() && ids[k] == id;
        assert(s.contains(s[k]));
        assert(all.contains(s[k]));
        assert(files[s[k] as int].id.0 == id);
    }
    if graph::known(files, id) {
        let i = choose|i: int| 0 <= i < files.len() && (#[trigger] files[i]).id.0 == id;
        assert(all[i] == i as usize);
        assert(all.contains(i as usize));
        assert(s.contains(i as usize));
        let k = choose|k: int| 0 <= k < s.len() && s[k] == i as usize;
        assert(ids[k] == id);
    }
}

/// Distinct files have distinct numbers in canonical order.
pub proof fn lemma_sorted_ids_distinct(files: Seq<CodeFile>)
    requires
        graph::unique_files(files),
        files.len() <= usize::MAX,
    ensures
        sorted_ids(files).no_duplicates(),
        sorted_ids(files).len() == files.len(),
{
    let all = Seq::new(files.len(), |i: int| i as usize);
    let le = file_order(files);
    lemma_file_order(files);
    order::lemma_arranged(all, le);
    assert(all.no_duplicates());
    order::lemma_arranged_distinct(all, le);
    let s = sorted_positions(files);
    let ids = sorted_ids(files);
    assert forall|i: int, j: int| 0 <= i < ids.len() && 0 <= j < ids.len() && i != j implies ids[i]
        != ids[j] by {
        assert(s.contains(s[i]) && s.contains(s[j]));
        assert(all.contains(s[i]) && all.contains(s[j]));
        assert(s[i] != s[j]);
        assert(s[i] < files.len() && s[j] < files.len());
        if s[i] < s[j] {
            assert(files[s[i] as int].id != files[s[j] as int].id);
        } else {
            assert(files[s[j] as int].id != files[s[i] as int].id);
        }
    }
}

pub(crate) proof fn lemma_place_of_distinct(ids: Seq<u32>, i: int)
    requires
        ids.no_duplicates(),
        0 <= i < ids.len(),
    ensures
        place_of(ids, ids[i], ids.len()) == Some(i),
{
    lemma_place_of_step(ids, i, ids.len());
}

proof fn lemma_place_of_step(ids: Seq<u32>, i: int, n: nat)
    requires
        ids.no_duplicates(),
        0 <= i < n <= ids.len(),
    ensures
        place_of(ids, ids[i], n) == Some(i),
    decreases n,
{
    if i < n - 1 {
        assert(ids[n - 1] != ids[i]);
        lemma_place_of_step(ids, i, (n - 1) as nat);
    }
}

// ----------------------------------------------------------------- words

/// What Unicode says of a character.
#[derive(Clone, Copy, Debug, PartialEq, Eq, Structural)]
pub struct CharClass {
    pub alphanumeric: bool,
    pub uppercase: bool,
    pub lowercase: bool,
    pub numeric: bool,
}

/// The class of every character of `s`.
pub open spec fn classes_of(s: Seq<char>) -> Seq<CharClass> {
    s.map_values(
        |c: char|
            CharClass {
                alphanumeric: text::char_alphanumeric(c),
                uppercase: text::char_uppercase(c),
                lowercase: text::char_in_lowercase(c),
                numeric: text::char_numeric(c),
            },
    )
}

/// A capital at `i` starts a word of its own: it follows a small letter or a
/// digit, or it follows a capital and a small letter follows it.
pub open spec fn starts_hump(cl: Seq<CharClass>, i: int) -> bool {
    &&& 0 < i < cl.len()
    &&& cl[i].uppercase
    &&& (cl[i - 1].lowercase || cl[i - 1].numeric || (cl[i - 1].uppercase && i + 1 < cl.len()
        && cl[i + 1].lowercase))
}

/// No word runs across the place before `i`.
pub open spec fn cuts_at(cl: Seq<CharClass>, i: int) -> bool {
    i == 0 || i == cl.len() || !cl[i - 1].alphanumeric || !cl[i].alphanumeric || starts_hump(cl, i)
}

/// The characters `a .. b` are one word: a longest run of letters and digits
/// that nothing cuts.
pub open spec fn is_word(cl: Seq<CharClass>, a: int, b: int) -> bool {
    &&& 0 <= a < b <= cl.len()
    &&& cuts_at(cl, a)
    &&& cuts_at(cl, b)
    &&& forall|i: int| a <= i < b ==> (#[trigger] cl[i]).alphanumeric
    &&& forall|i: int| a < i < b ==> !#[trigger] cuts_at(cl, i)
}

proof fn lemma_word_end(cl: Seq<CharClass>, a: int, c: int, b: int)
    requires
        is_word(cl, a, b),
        is_word(cl, c, b),
    ensures
        a == c,
{
    if a < c {
        assert(cuts_at(cl, c));
    }
    if c < a {
        assert(cuts_at(cl, a));
    }
}

/// The words of a text with classes `cl`, from left to right.
pub fn word_spans(cl: &[CharClass]) -> (out: Vec<(usize, usize)>)
    ensures
        forall|k: int|
            0 <= k < out@.len() ==> is_word(cl@, (#[trigger] out@[k]).0 as int, out@[k].1 as int),
        forall|a: int, b: int| #[trigger]
            is_word(cl@, a, b) ==> out@.contains((a as usize, b as usize)),
        forall|j: int, k: int|
            0 <= j < k < out@.len() ==> (#[trigger] out@[j]).1 <= (#[trigger] out@[k]).0,
{
    let n: usize = cl.len();
    let mut out: Vec<(usize, usize)> = Vec::new();
    let mut start: usize = 0;
    let mut open = false;
    let mut i: usize = 0;
    while i < n
        invariant
            i <= n,
            n == cl.len(),
            open ==> start < i && cuts_at(cl@, start as int),
            open ==> forall|k: int| start <= k < i ==> (#[trigger] cl@[k]).alphanumeric,
            open ==> forall|k: int| start < k < i ==> !#[trigger] cuts_at(cl@, k),
            !open ==> i == 0 || !cl@[i - 1].alphanumeric,
            forall|k: int|
                0 <= k < out@.len() ==> is_word(
                    cl@,
                    (#[trigger] out@[k]).0 as int,
                    out@[k].1 as int,
                ) && out@[k].1 <= (if open {
                    start
                } else {
                    i
                }),
            forall|a: int, b: int| #[trigger]
                is_word(cl@, a, b) && b <= (if open {
                    start
                } else {
                    i
                }) ==> out@.contains((a as usize, b as usize)),
            forall|j: int, k: int|
                0 <= j < k < out@.len() ==> (#[trigger] out@[j]).1 <= (#[trigger] out@[k]).0,
        decreases n - i,
    {
        let ghost was = out@;
        let ghost was_start = start;
        let ghost was_open = open;
        let c = cl[i];
        let hump = c.uppercase && i > 0 && (cl[i - 1].lowercase || cl[i - 1].numeric || (cl[i
            - 1].uppercase && i + 1 < n && cl[i + 1].lowercase));
        assert(hump == (c.uppercase && starts_hump(cl@, i as int)));
        let closes = open && (!c.alphanumeric || hump);
        if closes {
            out.push((start, i));
            assert(is_word(cl@, start as int, i as int));
            open = false;
        }
        if c.alphanumeric {
            if !open {
                start = i;
                open = true;
            }
        }
        proof {
            let limit = if open {
                start as int
            } else {
                i + 1
            };
            assert forall|a: int, b: int| #[trigger] is_word(cl@, a, b) && b <= limit implies out@.contains(
                (a as usize, b as usize),
            ) by {
                let w = (a as usize, b as usize);
                assert(cl@[b - 1].alphanumeric);
                if was.contains(w) {
                    let k = choose|k: int| 0 <= k < was.len() && was[k] == w;
                    assert(out@[k] == w);
                } else if was_open {
                    assert(b > was_start);
                    if b < i {
                        assert(cuts_at(cl@, b));
                        assert(false);
                    }
                    assert(b == i || b == i + 1);
                    if b == i + 1 {
                        assert(cl@[i as int].alphanumeric);
                        assert(false);
                    }
                    assert(closes);
                    lemma_word_end(cl@, a, was_start as int, b);
                    assert(out@[was.len() as int] == w);
                } else {
                    assert(b > i);
                    assert(false);
                }
            }
        }
        i = i + 1;
    }
    if open {
        let ghost was = out@;
        out.push((start, n));
        proof {
            assert(is_word(cl@, start as int, n as int));
            assert forall|a: int, b: int| #[trigger] is_word(cl@, a, b) implies out@.contains(
                (a as usize, b as usize),
            ) by {
                let w = (a as usize, b as usize);
                if b <= start {
                    let k = choose|k: int| 0 <= k < was.len() && was[k] == w;
                    assert(out@[k] == w);
                } else {
                    if b < n {
                        assert(cuts_at(cl@, b));
                        assert(false);
                    }
                    lemma_word_end(cl@, a, start as int, b);
                    assert(out@[was.len() as int] == w);
                }
            }
        }
    }
    out
}

/// The lower-case words of a text.
pub open spec fn words_of(s: Seq<char>) -> Set<Seq<char>> {
    Set::new(
        |w: Seq<char>|
            exists|a: int, b: int| #[trigger]
                is_word(classes_of(s), a, b) && w == text::lowercase(s.subrange(a, b)),
    )
}

/// The lower-case words of a text, each once, in ascending order. Words end at
/// anything but letters and digits, and at the humps of mixed case.
pub fn split_words(s: &str) -> (out: Vec<String>)
    ensures
        text::ascending(text::texts(out@)),
        forall|w: Seq<char>| #[trigger]
            text::texts(out@).contains(w) <==> words_of(s@).contains(w),
{
    let cs = text::chars_of(s);
    let mut cl: Vec<CharClass> = Vec::new();
    let mut i: usize = 0;
    while i < cs.len()
        invariant
            i <= cs.len(),
            cl@ == classes_of(cs@.take(i as int)),
        decreases cs.len() - i,
    {
        let c = cs[i];
        cl.push(
            CharClass {
                alphanumeric: c.is_alphanumeric(),
                uppercase: c.is_uppercase(),
                lowercase: c.is_lowercase(),
                numeric: c.is_numeric(),
            },
        );
        assert(cl@ =~= classes_of(cs@.take(i as int + 1)));
        i = i + 1;
    }
    assert(cs@.take(cs@.len() as int) =~= cs@);
    let spans = word_spans(&cl);
    let mut words: Vec<String> = Vec::new();
    let mut k: usize = 0;
    while k < spans.len()
        invariant
            k <= spans.len(),
            cs@ == s@,
            cl@ == classes_of(s@),
            words@.len() == k,
            forall|m: int|
                0 <= m < spans@.len() ==> is_word(
                    cl@,
                    (#[trigger] spans@[m]).0 as int,
                    spans@[m].1 as int,
                ),
            forall|m: int|
                0 <= m < k ==> (#[trigger] words@[m])@ == text::lowercase(
                    s@.subrange(spans@[m].0 as int, spans@[m].1 as int),
                ),
        decreases spans.len() - k,
    {
        let span = spans[k];
        let word = text::string_of(&text::slice_of(&cs, span.0, span.1));
        words.push(text::fold(word.as_str()));
        k = k + 1;
    }
    let ghost all = text::texts(words@);
    let out = text::sort_unique(words);
    proof {
        assert forall|w: Seq<char>| #[trigger] text::texts(out@).contains(w) <==> words_of(
            s@,
        ).contains(w) by {
            if all.contains(w) {
                let m = choose|m: int| 0 <= m < all.len() && all[m] == w;
                assert(is_word(cl@, spans@[m].0 as int, spans@[m].1 as int));
            }
            if words_of(s@).contains(w) {
                let (a, b) = choose|a: int, b: int| #[trigger]
                    is_word(classes_of(s@), a, b) && w == text::lowercase(s@.subrange(a, b));
                assert(spans@.contains((a as usize, b as usize)));
                let m = choose|m: int|
                    0 <= m < spans@.len() && spans@[m] == (a as usize, b as usize);
                assert(all[m] == w);
            }
        }
    }
    out
}

// -------------------------------------------------------------- emphasis

/// The letters and digits of a text, run together in lower case.
pub open spec fn compacted(s: Seq<char>) -> Seq<char>
    decreases s.len(),
{
    if s.len() == 0 {
        Seq::empty()
    } else if text::char_alphanumeric(s.last()) {
        compacted(s.drop_last()) + text::char_lowercase(s.last())
    } else {
        compacted(s.drop_last())
    }
}

/// The letters and digits of a text, run together in lower case.
pub fn compact(s: &str) -> (out: String)
    ensures
        out@ == compacted(s@),
{
    let cs = text::chars_of(s);
    let mut out: Vec<char> = Vec::new();
    let mut i: usize = 0;
    while i < cs.len()
        invariant
            i <= cs.len(),
            out@ == compacted(cs@.take(i as int)),
        decreases cs.len() - i,
    {
        assert(cs@.take(i as int + 1).drop_last() =~= cs@.take(i as int));
        if cs[i].is_alphanumeric() {
            let mut low = text::fold_char(cs[i]);
            out.append(&mut low);
        }
        i = i + 1;
    }
    assert(cs@.take(cs@.len() as int) =~= cs@);
    text::string_of(&out)
}

/// The words among `words` that take three bytes or more.
pub open spec fn long_words(words: Set<Seq<char>>) -> Set<Seq<char>> {
    words.filter(|w: Seq<char>| text::utf8_len(w) >= 3)
}

/// A name with these words and this compact form is named by a task with
/// those: the task holds the compact form, if it takes three bytes or more, or
/// it shares two of the name's long words, or the only one.
pub open spec fn is_named(
    words: Set<Seq<char>>,
    compact: Seq<char>,
    task_words: Set<Seq<char>>,
    task_compact: Seq<char>,
) -> bool {
    let long = long_words(words);
    let shared = long.intersect(task_words);
    ||| text::utf8_len(compact) >= 3 && text::contains_text(task_compact, compact)
    ||| long.len() > 0 && shared.len() >= (if long.len() < 2 {
        long.len()
    } else {
        2
    })
}

/// A name is specific: its compact form takes twelve bytes or more, or it has
/// three long words or more.
pub open spec fn is_specific(words: Set<Seq<char>>, compact: Seq<char>) -> bool {
    text::utf8_len(compact) >= 12 || long_words(words).len() >= 3
}

pub proof fn lemma_ascending_is_set(v: Seq<Seq<char>>, s: Set<Seq<char>>)
    requires
        text::ascending(v),
        forall|t: Seq<char>| #[trigger] v.contains(t) <==> s.contains(t),
    ensures
        v.no_duplicates(),
        s.len() == v.len(),
        s.finite(),
{
    assert forall|i: int, j: int| 0 <= i < v.len() && 0 <= j < v.len() && i != j implies v[i] != v[j] by {
        if i < j {
            assert(text::text_le(v[i], v[j]) && v[i] != v[j]);
        } else {
            assert(text::text_le(v[j], v[i]) && v[j] != v[i]);
        }
    }
    assert(v.to_set() =~= s);
    v.unique_seq_to_set();
    vstd::seq_lib::seq_to_set_is_finite(v);
}

/// A text is kept: it is in `other`, or with `None` it takes three bytes or more.
spec fn is_kept(other: Option<&Vec<String>>, t: Seq<char>) -> bool {
    match other {
        Some(o) => text::texts(o@).contains(t),
        None => text::utf8_len(t) >= 3,
    }
}

/// The texts of `v` that are kept, in their order.
fn select(v: &Vec<String>, other: Option<&Vec<String>>) -> (out: Vec<String>)
    requires
        text::ascending(text::texts(v@)),
    ensures
        text::ascending(text::texts(out@)),
        forall|t: Seq<char>| #[trigger]
            text::texts(out@).contains(t) <==> text::texts(v@).contains(t) && is_kept(other, t),
{
    let mut out: Vec<String> = Vec::new();
    let ghost mut from: Seq<int> = Seq::empty();
    let mut i: usize = 0;
    while i < v.len()
        invariant
            i <= v.len(),
            text::ascending(text::texts(v@)),
            from.len() == out@.len(),
            forall|k: int|
                0 <= k < out@.len() ==> 0 <= #[trigger] from[k] < i && out@[k] == v@[from[k]]
                    && is_kept(other, out@[k]@),
            forall|j: int, k: int| 0 <= j < k < from.len() ==> #[trigger] from[j] < #[trigger] from[k],
            forall|m: int| 0 <= m < i && is_kept(other, (#[trigger] v@[m])@) ==> from.contains(m),
        decreases v.len() - i,
    {
        let ghost was = from;
        let ghost had = out@;
        let keep = match other {
            Some(o) => text::has_string(o, v[i].as_str()),
            None => text::byte_len(v[i].as_str()) >= 3,
        };
        assert(keep == is_kept(other, v@[i as int]@));
        if keep {
            out.push(v[i].clone());
            proof {
                from = from.push(i as int);
            }
        }
        proof {
            assert forall|k: int| 0 <= k < out@.len() implies 0 <= #[trigger] from[k] < i + 1
                && out@[k] == v@[from[k]] && is_kept(other, out@[k]@) by {
                if k < had.len() {
                    assert(from[k] == was[k] && out@[k] == had[k]);
                }
            }
            assert forall|m: int| 0 <= m < i + 1 && is_kept(other, (#[trigger] v@[m])@) implies from.contains(
                m,
            ) by {
                if m < i {
                    let k = choose|k: int| 0 <= k < was.len() && was[k] == m;
                    assert(from[k] == m);
                } else {
                    assert(from[was.len() as int] == m);
                }
            }
        }
        i = i + 1;
    }
    proof {
        let x = text::texts(v@);
        let y = text::texts(out@);
        assert forall|a: int, b: int| 0 <= a < b < y.len() implies text::text_le(
            #[trigger] y[a],
            #[trigger] y[b],
        ) && y[a] != y[b] by {
            assert(from[a] < from[b]);
            assert(x[from[a]] == y[a] && x[from[b]] == y[b]);
        }
        assert forall|t: Seq<char>| #[trigger] y.contains(t) <==> x.contains(t) && is_kept(other, t) by {
            if y.contains(t) {
                let k = choose|k: int| 0 <= k < y.len() && y[k] == t;
                assert(from[k] < v@.len());
                assert(out@[k]@ == t);
                assert(x[from[k]] == t);
            }
            if x.contains(t) && is_kept(other, t) {
                let m = choose|m: int| 0 <= m < x.len() && x[m] == t;
                assert(v@[m]@ == t);
                let k = choose|k: int| 0 <= k < from.len() && from[k] == m;
                assert(out@[k] == v@[from[k]]);
                assert(y[k] == t);
            }
        }
    }
    out
}

/// Whether a task names a symbol, and whether the symbol's name is specific.
pub fn speaks_for(
    words: &Vec<String>,
    compact: &str,
    task_words: &Vec<String>,
    task_compact: &str,
) -> (r: (bool, bool))
    requires
        text::ascending(text::texts(words@)),
    ensures
        r.0 == is_named(
            text::texts(words@).to_set(),
            compact@,
            text::texts(task_words@).to_set(),
            task_compact@,
        ),
        r.1 == is_specific(text::texts(words@).to_set(), compact@),
{
    let long = select(words, None);
    let shared = select(&long, Some(task_words));
    proof {
        let all = text::texts(words@).to_set();
        let task = text::texts(task_words@).to_set();
        lemma_ascending_is_set(text::texts(long@), long_words(all));
        lemma_ascending_is_set(text::texts(shared@), long_words(all).intersect(task));
        assert(text::texts(long@).len() == long@.len());
        assert(text::texts(shared@).len() == shared@.len());
    }
    let wanted: usize = if long.len() < 2 {
        long.len()
    } else {
        2
    };
    let size = text::byte_len(compact);
    let explicit = size >= 3 && text::has_text(
        &text::chars_of(task_compact),
        &text::chars_of(compact),
    );
    let split = long.len() > 0 && shared.len() >= wanted;
    (explicit || split, size >= 12 || long.len() >= 3)
}

/// A task mentions a file: by its path or by its name, in any case.
pub open spec fn mentions(task: Seq<char>, path: Seq<char>) -> bool {
    ||| text::contains_text(text::lowercase(task), text::lowercase(path))
    ||| text::contains_text(
        text::lowercase(task),
        text::lowercase(crate::types::last_component(path)),
    )
}

/// The numbers of the files that `task` mentions.
pub fn context_files(g: &CodeGraph, task: &str) -> (out: HashSet<u32>)
    ensures
        forall|id: u32| #[trigger]
            out@.contains(id) <==> exists|k: int|
                0 <= k < g.files@.len() && (#[trigger] g.files@[k]).id.0 == id && mentions(
                    task@,
                    g.files@[k].path@,
                ),
{
    let folded = text::chars_of(text::fold(task).as_str());
    let mut out: HashSet<u32> = HashSet::new();
    let mut i: usize = 0;
    while i < g.files.len()
        invariant
            i <= g.files.len(),
            folded@ == text::lowercase(task@),
            forall|id: u32| #[trigger]
                out@.contains(id) <==> exists|k: int|
                    0 <= k < i && (#[trigger] g.files@[k]).id.0 == id && mentions(
                        task@,
                        g.files@[k].path@,
                    ),
        decreases g.files.len() - i,
    {
        let ghost was = out@;
        let file = &g.files[i];
        let path = text::chars_of(text::fold(file.path.as_str()).as_str());
        let own = file.path.file_name();
        let name = text::chars_of(text::fold(own.as_str()).as_str());
        let mentioned = text::has_text(&folded, &path) || text::has_text(&folded, &name);
        if mentioned {
            out.insert(file.id.0);
        }
        assert forall|id: u32| #[trigger] out@.contains(id) <==> exists|k: int|
            0 <= k < i + 1 && (#[trigger] g.files@[k]).id.0 == id && mentions(
                task@,
                g.files@[k].path@,
            ) by {
            if was.contains(id) {
                let k = choose|k: int|
                    0 <= k < i && (#[trigger] g.files@[k]).id.0 == id && mentions(
                        task@,
                        g.files@[k].path@,
                    );
                assert(g.files@[k].id.0 == id);
            }
            if mentioned && id == file.id.0 {
                assert(g.files@[i as int].id.0 == id);
            }
        }
        i = i + 1;
    }
    out
}

/// How strongly a task speaks for a file.
#[derive(Clone, Copy, Debug, PartialEq, Eq, Structural)]
pub struct Emphasis {
    /// How many of its symbols the task names: a factor of ten each.
    pub named: usize,
    /// How many of those have specific names: another factor of ten each.
    pub specific: usize,
    /// The task mentions the file: a factor of fifty.
    pub in_context: bool,
}

/// The task names a symbol of this name.
pub open spec fn task_names(task: Seq<char>, name: Seq<char>) -> bool {
    is_named(words_of(name), compacted(name), words_of(task), compacted(task))
}

/// The name of a symbol is specific.
pub open spec fn name_is_specific(name: Seq<char>) -> bool {
    is_specific(words_of(name), compacted(name))
}

/// How many of the first `n` symbols belong to the file at place `i` and are
/// named by the task; with `specific` only those with specific names.
pub open spec fn named_symbols(
    symbols: Seq<CodeSymbol>,
    places: Map<u32, usize>,
    task: Seq<char>,
    i: int,
    specific: bool,
    n: nat,
) -> nat
    decreases n,
{
    if n == 0 {
        0
    } else {
        let s = symbols[n - 1];
        let before = named_symbols(symbols, places, task, i, specific, (n - 1) as nat);
        if places.contains_key(s.file.0) && places[s.file.0] == i && task_names(task, s.name@) && (
        !specific || name_is_specific(s.name@)) {
            before + 1
        } else {
            before
        }
    }
}

/// How strongly `task` speaks for each file, in canonical order.
pub fn task_emphasis(
    g: &CodeGraph,
    task: &str,
    sorted: &Vec<usize>,
    places: &HashMap<u32, usize>,
    context: &HashSet<u32>,
) -> (out: Vec<Emphasis>)
    requires
        sorted@ == sorted_positions(g.files@),
        forall|k: int| 0 <= k < sorted@.len() ==> #[trigger] sorted@[k] < g.files@.len(),
        is_placing(places@, sorted_ids(g.files@)),
    ensures
        out@.len() == sorted@.len(),
        forall|i: int|
            0 <= i < out@.len() ==> (#[trigger] out@[i]) == (Emphasis {
                named: named_symbols(
                    g.symbols@,
                    places@,
                    task@,
                    i,
                    false,
                    g.symbols@.len(),
                ) as usize,
                specific: named_symbols(
                    g.symbols@,
                    places@,
                    task@,
                    i,
                    true,
                    g.symbols@.len(),
                ) as usize,
                in_context: context@.contains(g.files@[sorted@[i] as int].id.0),
            }),
        forall|i: int|
            0 <= i < out@.len() ==> named_symbols(
                g.symbols@,
                places@,
                task@,
                i,
                false,
                g.symbols@.len(),
            ) == (#[trigger] out@[i]).named && named_symbols(
                g.symbols@,
                places@,
                task@,
                i,
                true,
                g.symbols@.len(),
            ) == out@[i].specific,
{
    let task_words = split_words(task);
    let task_compact = compact(task);
    let mut out: Vec<Emphasis> = Vec::new();
    let mut i: usize = 0;
    while i < sorted.len()
        invariant
            i <= sorted.len(),
            forall|k: int| 0 <= k < sorted@.len() ==> #[trigger] sorted@[k] < g.files@.len(),
            out@.len() == i,
            forall|k: int|
                0 <= k < i ==> (#[trigger] out@[k]) == (Emphasis {
                    named: 0,
                    specific: 0,
                    in_context: context@.contains(g.files@[sorted@[k] as int].id.0),
                }),
        decreases sorted.len() - i,
    {
        let id: u32 = g.files[sorted[i]].id.0;
        out.push(Emphasis { named: 0, specific: 0, in_context: context.contains(&id) });
        i = i + 1;
    }
    let ghost ids = sorted_ids(g.files@);
    assert(ids.len() == sorted@.len());
    let mut s: usize = 0;
    while s < g.symbols.len()
        invariant
            s <= g.symbols.len(),
            out@.len() == sorted@.len(),
            ids.len() == sorted@.len(),
            is_placing(places@, ids),
            text::ascending(text::texts(task_words@)),
            forall|w: Seq<char>| #[trigger]
                text::texts(task_words@).contains(w) <==> words_of(task@).contains(w),
            task_compact@ == compacted(task@),
            forall|i: int|
                0 <= i < out@.len() ==> (#[trigger] out@[i]).in_context == context@.contains(
                    g.files@[sorted@[i] as int].id.0,
                ) && named_symbols(g.symbols@, places@, task@, i, false, s as nat) == out@[i].named
                    && named_symbols(g.symbols@, places@, task@, i, true, s as nat)
                    == out@[i].specific && out@[i].named <= s && out@[i].specific <= s,
        decreases g.symbols.len() - s,
    {
        let ghost was = out@;
        let symbol = &g.symbols[s];
        if let Some(place) = places.get(&symbol.file.0) {
            let at: usize = *place;
            assert(placing_within(places@, ids, ids.len()));
            assert(places@.contains_key(symbol.file.0));
            assert(at < ids.len());
            let words = split_words(symbol.name.as_str());
            let own = compact(symbol.name.as_str());
            let (named, specific) = speaks_for(
                &words,
                own.as_str(),
                &task_words,
                task_compact.as_str(),
            );
            assert(text::texts(words@).to_set() =~= words_of(symbol.name@));
            assert(text::texts(task_words@).to_set() =~= words_of(task@));
            if named {
                let e = out[at];
                let more: usize = if specific {
                    e.specific + 1
                } else {
                    e.specific
                };
                out.set(
                    at,
                    Emphasis { named: e.named + 1, specific: more, in_context: e.in_context },
                );
            }
        }
        assert forall|i: int| 0 <= i < out@.len() implies (#[trigger] out@[i]).in_context
            == context@.contains(g.files@[sorted@[i] as int].id.0) && named_symbols(
            g.symbols@,
            places@,
            task@,
            i,
            false,
            s as nat + 1,
        ) == out@[i].named && named_symbols(g.symbols@, places@, task@, i, true, s as nat + 1)
            == out@[i].specific && out@[i].named <= s + 1 && out@[i].specific <= s + 1 by {
            assert(was[i].in_context == context@.contains(g.files@[sorted@[i] as int].id.0));
        }
        s = s + 1;
    }
    out
}

} // verus!
