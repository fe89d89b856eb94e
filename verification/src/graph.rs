//! The file graph: import edges, reachability and the order of answers.

use crate::order;
use crate::text;
use crate::types::{CodeEdge, CodeFile, CodeSymbol, EdgeKind, FileId};
use std::collections::{HashMap, HashSet};
use vstd::prelude::*;

verus! {

broadcast use vstd::std_specs::hash::group_hash_axioms;

/// Files, symbols and edges of one repository.
#[derive(Debug)]
pub struct CodeGraph {
    pub files: Vec<CodeFile>,
    pub symbols: Vec<CodeSymbol>,
    pub edges: Vec<CodeEdge>,
}

impl Default for CodeGraph {
    fn default() -> (r: CodeGraph)
        ensures
            r.files@.len() == 0,
            r.symbols@.len() == 0,
            r.edges@.len() == 0,
    {
        CodeGraph { files: Vec::new(), symbols: Vec::new(), edges: Vec::new() }
    }
}

/// Which way import edges are followed.
#[derive(Clone, Copy, Debug, PartialEq, Eq, Structural)]
pub enum NeighborhoodDirection {
    /// From importer to imported.
    Dependencies,
    /// From imported to importer.
    Dependents,
    /// Either way at every step.
    Both,
}

// ----------------------------------------------------------------- edges

/// A file of the graph has the number `id`.
pub open spec fn known(files: Seq<CodeFile>, id: u32) -> bool {
    exists|i: int| 0 <= i < files.len() && (#[trigger] files[i]).id.0 == id
}

/// An import edge leads from `a` to `b`, both of them files of the graph.
pub open spec fn imports(g: CodeGraph, a: u32, b: u32) -> bool {
    &&& known(g.files@, a)
    &&& known(g.files@, b)
    &&& exists|e: int|
        0 <= e < g.edges@.len() && (#[trigger] g.edges@[e]).kind == EdgeKind::Import
            && g.edges@[e].from == a && g.edges@[e].to == b
}

/// One step from `a` to `b` in the given direction.
pub open spec fn step(g: CodeGraph, dir: NeighborhoodDirection, a: u32, b: u32) -> bool {
    match dir {
        NeighborhoodDirection::Dependencies => imports(g, a, b),
        NeighborhoodDirection::Dependents => imports(g, b, a),
        NeighborhoodDirection::Both => imports(g, a, b) || imports(g, b, a),
    }
}

/// `x` lies at most `d` steps from `target`.
pub open spec fn within(
    g: CodeGraph,
    dir: NeighborhoodDirection,
    target: u32,
    d: nat,
    x: u32,
) -> bool
    decreases d,
{
    if d == 0 {
        x == target
    } else {
        within(g, dir, target, (d - 1) as nat, x) || exists|y: u32|
            #[trigger] step(g, dir, y, x) && within(g, dir, target, (d - 1) as nat, y)
    }
}

/// `x` lies exactly `d` steps from `target`.
pub open spec fn at_distance(
    g: CodeGraph,
    dir: NeighborhoodDirection,
    target: u32,
    d: nat,
    x: u32,
) -> bool {
    within(g, dir, target, d, x) && (d > 0 ==> !within(g, dir, target, (d - 1) as nat, x))
}

/// `x` can be reached from `target`.
pub open spec fn reaches(g: CodeGraph, dir: NeighborhoodDirection, target: u32, x: u32) -> bool {
    exists|d: nat| within(g, dir, target, d, x)
}

/// A step leads one layer further at most.
pub proof fn lemma_within_step(
    g: CodeGraph,
    dir: NeighborhoodDirection,
    target: u32,
    d: nat,
    y: u32,
    x: u32,
)
    requires
        within(g, dir, target, d, y),
        step(g, dir, y, x),
    ensures
        within(g, dir, target, d + 1, x),
{
    assert(((d + 1) - 1) as nat == d);
}

/// What lies within `d` steps lies within any greater number of steps.
pub proof fn lemma_within_grows(
    g: CodeGraph,
    dir: NeighborhoodDirection,
    target: u32,
    d: nat,
    e: nat,
    x: u32,
)
    requires
        within(g, dir, target, d, x),
        d <= e,
    ensures
        within(g, dir, target, e, x),
    decreases e - d,
{
    if d < e {
        lemma_within_grows(g, dir, target, d, (e - 1) as nat, x);
    }
}

/// What a layer holds comes from the layer before it.
pub proof fn lemma_within_back(
    g: CodeGraph,
    dir: NeighborhoodDirection,
    target: u32,
    d: nat,
    x: u32,
) -> (y: u32)
    requires
        within(g, dir, target, d + 1, x),
        !within(g, dir, target, d, x),
    ensures
        step(g, dir, y, x),
        within(g, dir, target, d, y),
{
    assert(((d + 1) - 1) as nat == d);
    let y = choose|y: u32| #[trigger] step(g, dir, y, x) && within(g, dir, target, d, y);
    y
}

/// Everything within reach of a known file is known.
pub proof fn lemma_within_known(
    g: CodeGraph,
    dir: NeighborhoodDirection,
    target: u32,
    d: nat,
    x: u32,
)
    requires
        known(g.files@, target),
        within(g, dir, target, d, x),
    ensures
        known(g.files@, x),
    decreases d,
{
    if d > 0 && !within(g, dir, target, (d - 1) as nat, x) {
        let y = lemma_within_back(g, dir, target, (d - 1) as nat, x);
    } else if d > 0 {
        lemma_within_known(g, dir, target, (d - 1) as nat, x);
    }
}

// ------------------------------------------------------------- adjacency

/// The file numbers of a graph.
pub(crate) fn known_ids(files: &Vec<CodeFile>) -> (out: HashSet<u32>)
    ensures
        forall|id: u32| #[trigger] out@.contains(id) <==> known(files@, id),
        out@.finite(),
{
    let mut out: HashSet<u32> = HashSet::new();
    let mut i: usize = 0;
    while i < files.len()
        invariant
            i <= files.len(),
            out@.finite(),
            forall|id: u32| #[trigger]
                out@.contains(id) <==> exists|k: int|
                    0 <= k < i && (#[trigger] files@[k]).id.0 == id,
        decreases files.len() - i,
    {
        let ghost was = out@;
        let id: u32 = files[i].id.0;
        out.insert(id);
        assert forall|x: u32| #[trigger] out@.contains(x) <==> exists|k: int|
            0 <= k < i + 1 && (#[trigger] files@[k]).id.0 == x by {
            if was.contains(x) {
                let k = choose|k: int| 0 <= k < i && (#[trigger] files@[k]).id.0 == x;
                assert(files@[k].id.0 == x);
            }
            if x == id {
                assert(files@[i as int].id.0 == x);
            }
        }
        i = i + 1;
    }
    out
}

/// `m` holds `b` among the neighbours of `a`.
pub open spec fn linked(m: Map<u32, Vec<u32>>, a: u32, b: u32) -> bool {
    m.contains_key(a) && m[a]@.contains(b)
}

/// Adds `b` to the neighbours of `a`.
fn link(m: &mut HashMap<u32, Vec<u32>>, a: u32, b: u32)
    ensures
        forall|x: u32, y: u32| #[trigger]
            linked(final(m)@, x, y) <==> linked(old(m)@, x, y) || (x == a && y == b),
{
    let ghost was = m@;
    let mut row: Vec<u32> = match m.remove(&a) {
        Some(row) => row,
        None => Vec::new(),
    };
    let ghost old_row = row@;
    row.push(b);
    m.insert(a, row);
    assert forall|x: u32, y: u32| #[trigger] linked(m@, x, y) <==> linked(was, x, y) || (x == a && y
        == b) by {
        if x == a {
            assert(m@[a]@ == old_row.push(b));
            if old_row.contains(y) {
                let k = choose|k: int| 0 <= k < old_row.len() && old_row[k] == y;
                assert(m@[a]@[k] == y);
            }
            if y == b {
                assert(m@[a]@[old_row.len() as int] == y);
            }
            if m@[a]@.contains(y) && y != b {
                let k = choose|k: int| 0 <= k < m@[a]@.len() && m@[a]@[k] == y;
                assert(old_row[k] == y);
            }
        }
    }
}

/// The neighbours of every file, one step in the given direction.
pub(crate) fn import_neighbors(g: &CodeGraph, dir: NeighborhoodDirection) -> (m: HashMap<
    u32,
    Vec<u32>,
>)
    ensures
        forall|a: u32, b: u32| #[trigger] linked(m@, a, b) <==> step(*g, dir, a, b),
{
    let files = known_ids(&g.files);
    let mut m: HashMap<u32, Vec<u32>> = HashMap::new();
    let mut e: usize = 0;
    while e < g.edges.len()
        invariant
            e <= g.edges.len(),
            forall|id: u32| #[trigger] files@.contains(id) <==> known(g.files@, id),
            forall|a: u32, b: u32| #[trigger]
                linked(m@, a, b) <==> step_before(*g, dir, a, b, e as int),
        decreases g.edges.len() - e,
    {
        let ghost was = m@;
        let edge = g.edges[e];
        let used = edge.kind == EdgeKind::Import && files.contains(&edge.from) && files.contains(
            &edge.to,
        );
        if used {
            match dir {
                NeighborhoodDirection::Dependencies => {
                    link(&mut m, edge.from, edge.to);
                },
                NeighborhoodDirection::Dependents => {
                    link(&mut m, edge.to, edge.from);
                },
                NeighborhoodDirection::Both => {
                    link(&mut m, edge.from, edge.to);
                    link(&mut m, edge.to, edge.from);
                },
            }
        }
        assert forall|a: u32, b: u32| #[trigger]
            linked(m@, a, b) <==> step_before(*g, dir, a, b, e as int + 1) by {
            assert(linked(was, a, b) <==> step_before(*g, dir, a, b, e as int));
            lemma_imports_before(*g, a, b, e as int);
            lemma_imports_before(*g, b, a, e as int);
        }
        e = e + 1;
    }
    assert forall|a: u32, b: u32| #[trigger] linked(m@, a, b) <==> step(*g, dir, a, b) by {
        assert(imports_before(*g, a, b, g.edges@.len() as int) == imports(*g, a, b));
        assert(imports_before(*g, b, a, g.edges@.len() as int) == imports(*g, b, a));
    }
    m
}

/// [`imports`] by one of the first `n` edges.
spec fn imports_before(g: CodeGraph, a: u32, b: u32, n: int) -> bool {
    &&& known(g.files@, a)
    &&& known(g.files@, b)
    &&& exists|e: int|
        0 <= e < n && (#[trigger] g.edges@[e]).kind == EdgeKind::Import && g.edges@[e].from == a
            && g.edges@[e].to == b
}

/// [`step`] by one of the first `n` edges.
spec fn step_before(g: CodeGraph, dir: NeighborhoodDirection, a: u32, b: u32, n: int) -> bool {
    match dir {
        NeighborhoodDirection::Dependencies => imports_before(g, a, b, n),
        NeighborhoodDirection::Dependents => imports_before(g, b, a, n),
        NeighborhoodDirection::Both => imports_before(g, a, b, n) || imports_before(g, b, a, n),
    }
}

proof fn lemma_imports_before(g: CodeGraph, a: u32, b: u32, n: int)
    requires
        0 <= n < g.edges@.len(),
    ensures
        imports_before(g, a, b, n + 1) == (imports_before(g, a, b, n) || (known(g.files@, a)
            && known(g.files@, b) && g.edges@[n].kind == EdgeKind::Import && g.edges@[n].from == a
            && g.edges@[n].to == b)),
{
    if imports_before(g, a, b, n) {
        let e = choose|e: int|
            0 <= e < n && (#[trigger] g.edges@[e]).kind == EdgeKind::Import && g.edges@[e].from == a
                && g.edges@[e].to == b;
        assert(g.edges@[e].kind == EdgeKind::Import);
    }
}

// ---------------------------------------------------------- reachability

/// The files other than `target` that can be reached from it, unordered.
pub(crate) fn reachable_set(g: &CodeGraph, target: u32, dir: NeighborhoodDirection) -> (out: Vec<
    u32,
>)
    ensures
        !known(g.files@, target) ==> out@.len() == 0,
        known(g.files@, target) ==> forall|x: u32| #[trigger]
            out@.contains(x) <==> x != target && reaches(*g, dir, target, x),
        out@.no_duplicates(),
{
    let files = known_ids(&g.files);
    if !files.contains(&target) {
        return Vec::new();
    }
    let next = import_neighbors(g, dir);
    let mut visited: HashSet<u32> = HashSet::new();
    let mut out: Vec<u32> = Vec::new();
    let mut frontier: Vec<u32> = Vec::new();
    frontier.push(target);
    proof {
        assert(within(*g, dir, target, 0, target));
        assert(frontier@[0] == target);
    }
    while frontier.len() > 0
        invariant
            known(g.files@, target),
            forall|id: u32| #[trigger] files@.contains(id) <==> known(g.files@, id),
            files@.finite(),
            visited@.finite(),
            visited@.subset_of(files@),
            forall|a: u32, b: u32| #[trigger] linked(next@, a, b) <==> step(*g, dir, a, b),
            forall|x: u32| #[trigger]
                visited@.contains(x) ==> x != target && reaches(*g, dir, target, x),
            forall|k: int|
                0 <= k < frontier@.len() ==> reaches(*g, dir, target, #[trigger] frontier@[k]),
            forall|x: u32| #[trigger] out@.contains(x) <==> visited@.contains(x),
            out@.no_duplicates(),
            forall|a: u32, b: u32| #[trigger]
                step(*g, dir, a, b) && (a == target || visited@.contains(a)) && b != target
                    && !visited@.contains(b) ==> frontier@.contains(a),
        decreases files@.len() - visited@.len(), frontier@.len(),
    {
        proof {
            vstd::set_lib::lemma_len_subset(visited@, files@);
        }
        let ghost before = frontier@;
        let ghost seen0 = visited@;
        let popped = frontier.pop();
        if let Some(current) = popped {
            assert(before =~= frontier@.push(current));
            assert(before[before.len() - 1] == current);
            assert(reaches(*g, dir, target, current));
            assert forall|k: int| 0 <= k < frontier@.len() implies reaches(
                *g,
                dir,
                target,
                #[trigger] frontier@[k],
            ) by {
                assert(before[k] == frontier@[k]);
            }
            let ghost rest = frontier@;
            if let Some(row) = next.get(&current) {
                assert(next@[current] == *row);
                let mut k: usize = 0;
                while k < row.len()
                    invariant
                        k <= row.len(),
                        next@.contains_key(current),
                        next@[current] == *row,
                        known(g.files@, target),
                        forall|id: u32| #[trigger] files@.contains(id) <==> known(g.files@, id),
                        files@.finite(),
                        visited@.finite(),
                        visited@.subset_of(files@),
                        seen0.subset_of(visited@),
                        reaches(*g, dir, target, current),
                        forall|a: u32, b: u32| #[trigger] linked(next@, a, b) <==> step(*g, dir, a, b),
                        forall|x: u32| #[trigger]
                            visited@.contains(x) ==> x != target && reaches(*g, dir, target, x),
                        forall|k: int|
                            0 <= k < frontier@.len() ==> reaches(
                                *g,
                                dir,
                                target,
                                #[trigger] frontier@[k],
                            ),
                        forall|x: u32| #[trigger] out@.contains(x) <==> visited@.contains(x),
                        out@.no_duplicates(),
                        rest.len() <= frontier@.len(),
                        forall|j: int| 0 <= j < rest.len() ==> frontier@[j] == #[trigger] rest[j],
                        forall|x: u32| #[trigger]
                            visited@.contains(x) ==> seen0.contains(x) || frontier@.contains(x),
                        forall|j: int|
                            0 <= j < k ==> #[trigger] row@[j] == target || visited@.contains(row@[j]),
                        visited@.len() == seen0.len() ==> visited@ == seen0 && frontier@ == rest,
                        visited@.len() >= seen0.len(),
                    decreases row.len() - k,
                {
                    let file: u32 = row[k];
                    assert(row@.contains(file));
                    assert(linked(next@, current, file));
                    assert(step(*g, dir, current, file));
                    if file != target {
                        let ghost seen = visited@;
                        let ghost listed = out@;
                        let ghost ahead = frontier@;
                        let fresh = visited.insert(file);
                        proof {
                            let d = choose|d: nat| within(*g, dir, target, d, current);
                            lemma_within_step(*g, dir, target, d, current, file);
                            assert(reaches(*g, dir, target, file));
                        }
                        if fresh {
                            out.push(file);
                            frontier.push(file);
                            proof {
                                assert(!seen.contains(file));
                                assert(!listed.contains(file));
                                assert forall|x: u32| #[trigger] out@.contains(x) <==> visited@.contains(x) by {
                                    if listed.contains(x) {
                                        let m = choose|m: int| 0 <= m < listed.len() && listed[m] == x;
                                        assert(out@[m] == x);
                                    }
                                    if x == file {
                                        assert(out@[listed.len() as int] == x);
                                    }
                                }
                                assert forall|x: u32| #[trigger] visited@.contains(x) implies seen0.contains(x)
                                    || frontier@.contains(x) by {
                                    if x == file {
                                        assert(frontier@[ahead.len() as int] == x);
                                    } else if !seen0.contains(x) {
                                        let m = choose|m: int| 0 <= m < ahead.len() && ahead[m] == x;
                                        assert(frontier@[m] == x);
                                    }
                                }
                            }
                        } else {
                            assert(visited@ =~= seen);
                        }
                    }
                    k = k + 1;
                }
                proof {
                    assert forall|b: u32| #[trigger] step(*g, dir, current, b) implies b == target
                        || visited@.contains(b) by {
                        assert(linked(next@, current, b));
                        let j = choose|j: int| 0 <= j < row@.len() && row@[j] == b;
                        assert(row@[j] == b);
                    }
                }
            } else {
                assert forall|b: u32| !#[trigger] step(*g, dir, current, b) by {
                    assert(linked(next@, current, b) <==> step(*g, dir, current, b));
                }
            }
            proof {
                vstd::set_lib::lemma_len_subset(visited@, files@);
                assert forall|a: u32, b: u32| #[trigger]
                    step(*g, dir, a, b) && (a == target || visited@.contains(a)) && b != target
                        && !visited@.contains(b) implies frontier@.contains(a) by {
                    assert(a != current);
                    if a == target || seen0.contains(a) {
                        assert(before.contains(a));
                        let m = choose|m: int| 0 <= m < before.len() && before[m] == a;
                        assert(rest[m] == a);
                        assert(frontier@[m] == a);
                    }
                }
            }
        }
    }
    proof {
        assert forall|x: u32| x != target && reaches(*g, dir, target, x) implies visited@.contains(
            x,
        ) by {
            let d = choose|d: nat| within(*g, dir, target, d, x);
            lemma_closed(*g, dir, target, visited@, d, x);
        }
    }
    out
}

proof fn lemma_closed(
    g: CodeGraph,
    dir: NeighborhoodDirection,
    target: u32,
    seen: Set<u32>,
    d: nat,
    x: u32,
)
    requires
        within(g, dir, target, d, x),
        forall|a: u32, b: u32| #[trigger]
            step(g, dir, a, b) && (a == target || seen.contains(a)) && b != target ==> seen.contains(b),
    ensures
        x == target || seen.contains(x),
    decreases d,
{
    if d > 0 {
        let e = (d - 1) as nat;
        if within(g, dir, target, e, x) {
            lemma_closed(g, dir, target, seen, e, x);
        } else {
            let y = lemma_within_back(g, dir, target, e, x);
            lemma_closed(g, dir, target, seen, e, y);
        }
    }
}

// ------------------------------------------------------ order of answers

/// No two files share a number.
pub open spec fn unique_files(files: Seq<CodeFile>) -> bool {
    forall|i: int, j: int|
        0 <= i < j < files.len() ==> (#[trigger] files[i]).id != (#[trigger] files[j]).id
}

/// The score of a file; a file without one has score 0.
pub open spec fn score_of(scores: Map<u32, u64>, id: u32) -> u64 {
    if scores.contains_key(id) {
        scores[id]
    } else {
        0
    }
}

/// The path of the file `id`, by the last of the first `n` files with that
/// number; empty where there is none.
pub open spec fn path_of(files: Seq<CodeFile>, id: u32, n: nat) -> Seq<char>
    decreases n,
{
    if n == 0 {
        Seq::empty()
    } else if files[n - 1].id.0 == id {
        files[n - 1].path@
    } else {
        path_of(files, id, (n - 1) as nat)
    }
}

/// The least first line of the symbols of file `id` among the first `n`.
pub open spec fn first_line_of(symbols: Seq<CodeSymbol>, id: u32, n: nat) -> Option<u32>
    decreases n,
{
    if n == 0 {
        None
    } else {
        let before = first_line_of(symbols, id, (n - 1) as nat);
        let s = symbols[n - 1];
        if s.file.0 != id {
            before
        } else {
            match before {
                None => Some(s.start_line),
                Some(line) => Some(
                    if line <= s.start_line {
                        line
                    } else {
                        s.start_line
                    },
                ),
            }
        }
    }
}

/// What the place of a file in an answer depends on.
#[derive(Debug)]
pub struct Standing {
    pub id: u32,
    pub score: u64,
    pub path: Vec<char>,
    pub line: u32,
}

/// `r` describes file `id` of `g`.
pub open spec fn describes(r: Standing, g: CodeGraph, scores: Map<u32, u64>, id: u32) -> bool {
    &&& r.id == id
    &&& r.score == score_of(scores, id)
    &&& r.path@ == path_of(g.files@, id, g.files@.len())
    &&& r.line == first_line_or_zero(g, id)
}

/// The least first line of the symbols of file `id`, or 0.
pub open spec fn first_line_or_zero(g: CodeGraph, id: u32) -> u32 {
    match first_line_of(g.symbols@, id, g.symbols@.len()) {
        Some(line) => line,
        None => 0,
    }
}

/// Higher score first; then path, first line and number.
pub open spec fn standing_le(
    a_score: u64,
    a_path: Seq<char>,
    a_line: u32,
    a_id: u32,
    b_score: u64,
    b_path: Seq<char>,
    b_line: u32,
    b_id: u32,
) -> bool {
    if a_score != b_score {
        a_score > b_score
    } else if a_path != b_path {
        text::text_le(a_path, b_path)
    } else if a_line != b_line {
        a_line < b_line
    } else {
        a_id <= b_id
    }
}

/// File `a` may stand before file `b` in an answer.
pub open spec fn answer_le(g: CodeGraph, scores: Map<u32, u64>, a: u32, b: u32) -> bool {
    standing_le(
        score_of(scores, a),
        path_of(g.files@, a, g.files@.len()),
        first_line_or_zero(g, a),
        a,
        score_of(scores, b),
        path_of(g.files@, b, g.files@.len()),
        first_line_or_zero(g, b),
        b,
    )
}

/// `out` holds the files that a walk over imports reaches from `target`, best
/// first.
pub open spec fn is_walk(
    g: CodeGraph,
    scores: Map<u32, u64>,
    target: u32,
    dir: NeighborhoodDirection,
    out: Seq<FileId>,
) -> bool {
    &&& !known(g.files@, target) ==> out.len() == 0
    &&& known(g.files@, target) ==> forall|x: u32| #[trigger]
        out.contains(FileId(x)) <==> x != target && reaches(g, dir, target, x)
    &&& forall|i: int, j: int|
        0 <= i < j < out.len() ==> (#[trigger] out[i]) != (#[trigger] out[j]) && answer_le(
            g,
            scores,
            out[i].0,
            out[j].0,
        )
}

spec fn standing_order() -> spec_fn(Standing, Standing) -> bool {
    |a: Standing, b: Standing|
        standing_le(a.score, a.path@, a.line, a.id, b.score, b.path@, b.line, b.id)
}

proof fn lemma_standing_order()
    ensures
        order::total_preorder(standing_order()),
{
    let le = standing_order();
    assert forall|a: Standing, b: Standing| #[trigger] le(a, b) || le(b, a) by {
        text::lemma_text_le_total(a.path@, b.path@);
    }
    assert forall|a: Standing, b: Standing, c: Standing| #[trigger]
        le(a, b) && #[trigger] le(b, c) implies le(a, c) by {
        if text::text_le(a.path@, b.path@) && text::text_le(b.path@, c.path@) {
            text::lemma_text_le_transitive(a.path@, b.path@, c.path@);
            if a.path@ == c.path@ {
                text::lemma_text_le_antisymmetric(a.path@, b.path@);
            }
        }
    }
}

fn standing_before(a: &Standing, b: &Standing) -> (r: bool)
    ensures
        r == standing_order()(*a, *b),
{
    if a.score != b.score {
        return a.score > b.score;
    }
    let x = text::string_of(&a.path);
    let y = text::string_of(&b.path);
    match text::rank(x.as_str(), y.as_str()) {
        text::Rank::Before => true,
        text::Rank::After => false,
        text::Rank::Same => {
            if a.line != b.line {
                a.line < b.line
            } else {
                a.id <= b.id
            }
        },
    }
}

/// The positions of the files by number; of several the last.
pub(crate) fn files_by_id(files: &Vec<CodeFile>) -> (m: HashMap<u32, usize>)
    ensures
        forall|id: u32| #[trigger] m@.contains_key(id) <==> known(files@, id),
        forall|id: u32| #[trigger]
            m@.contains_key(id) ==> m@[id] < files@.len() && files@[m@[id] as int].path@ == path_of(
                files@,
                id,
                files@.len(),
            ) && files@[m@[id] as int].id.0 == id,
{
    let mut m: HashMap<u32, usize> = HashMap::new();
    let mut i: usize = 0;
    while i < files.len()
        invariant
            i <= files.len(),
            forall|id: u32| #[trigger]
                m@.contains_key(id) <==> exists|k: int|
                    0 <= k < i && (#[trigger] files@[k]).id.0 == id,
            forall|id: u32| #[trigger]
                m@.contains_key(id) ==> m@[id] < files@.len() && files@[m@[id] as int].path@
                    == path_of(files@, id, i as nat) && files@[m@[id] as int].id.0 == id,
        decreases files.len() - i,
    {
        let ghost was = m@;
        let id: u32 = files[i].id.0;
        m.insert(id, i);
        assert forall|x: u32| #[trigger] m@.contains_key(x) <==> exists|k: int|
            0 <= k < i + 1 && (#[trigger] files@[k]).id.0 == x by {
            if was.contains_key(x) {
                let k = choose|k: int| 0 <= k < i && (#[trigger] files@[k]).id.0 == x;
                assert(files@[k].id.0 == x);
            }
            if x == id {
                assert(files@[i as int].id.0 == x);
            }
        }
        i = i + 1;
    }
    m
}

/// The least first line of every file that has symbols.
fn first_lines(symbols: &Vec<CodeSymbol>) -> (m: HashMap<u32, u32>)
    ensures
        forall|id: u32|
            (match first_line_of(symbols@, id, symbols@.len()) {
                Some(line) => #[trigger] m@.contains_key(id) && m@[id] == line,
                None => !m@.contains_key(id),
            }),
{
    let mut m: HashMap<u32, u32> = HashMap::new();
    let mut i: usize = 0;
    while i < symbols.len()
        invariant
            i <= symbols.len(),
            forall|id: u32|
                (match first_line_of(symbols@, id, i as nat) {
                    Some(line) => #[trigger] m@.contains_key(id) && m@[id] == line,
                    None => !m@.contains_key(id),
                }),
        decreases symbols.len() - i,
    {
        let ghost was = m@;
        let id: u32 = symbols[i].file.0;
        let line: u32 = symbols[i].start_line;
        let least: u32 = match m.get(&id) {
            Some(l) => if *l <= line {
                *l
            } else {
                line
            },
            None => line,
        };
        m.insert(id, least);
        assert forall|x: u32|
            (match first_line_of(symbols@, x, i as nat + 1) {
                Some(line) => #[trigger] m@.contains_key(x) && m@[x] == line,
                None => !m@.contains_key(x),
            }) by {
            assert(was.contains_key(x) || !was.contains_key(x));
        }
        i = i + 1;
    }
    m
}

/// The files that can be reached from `target`, without it, best first.
///
/// `scores` gives each file a number to be ranked by.
pub fn reachable_imports(
    g: &CodeGraph,
    target: FileId,
    dir: NeighborhoodDirection,
    scores: &HashMap<u32, u64>,
) -> (out: Vec<FileId>)
    ensures
        is_walk(*g, scores@, target.0, dir, out@),
{
    let found = reachable_set(g, target.0, dir);
    let paths = files_by_id(&g.files);
    let lines = first_lines(&g.symbols);
    let mut rows: Vec<Standing> = Vec::new();
    let mut i: usize = 0;
    while i < found.len()
        invariant
            i <= found.len(),
            known(g.files@, target.0) ==> forall|x: u32| #[trigger]
                found@.contains(x) <==> x != target.0 && reaches(*g, dir, target.0, x),
            !known(g.files@, target.0) ==> found@.len() == 0,
            forall|id: u32| #[trigger] paths@.contains_key(id) <==> known(g.files@, id),
            forall|id: u32| #[trigger]
                paths@.contains_key(id) ==> paths@[id] < g.files@.len()
                    && g.files@[paths@[id] as int].path@ == path_of(g.files@, id, g.files@.len())
                    && g.files@[paths@[id] as int].id.0 == id,
            forall|id: u32|
                (match first_line_of(g.symbols@, id, g.symbols@.len()) {
                    Some(line) => #[trigger] lines@.contains_key(id) && lines@[id] == line,
                    None => !lines@.contains_key(id),
                }),
            rows@.len() == i,
            forall|k: int|
                0 <= k < i ==> describes(#[trigger] rows@[k], *g, scores@, found@[k]),
        decreases found.len() - i,
    {
        let id: u32 = found[i];
        let score: u64 = match scores.get(&id) {
            Some(s) => *s,
            None => 0,
        };
        assert(known(g.files@, id)) by {
            assert(found@.contains(found@[i as int]));
            let d = choose|d: nat| within(*g, dir, target.0, d, id);
            lemma_within_known(*g, dir, target.0, d, id);
        }
        assert(paths@.contains_key(id));
        let path: Vec<char> = match paths.get(&id) {
            Some(at) => g.files[*at].path.chars(),
            None => Vec::new(),
        };
        assert(lines@.contains_key(id) || !lines@.contains_key(id));
        let line: u32 = match lines.get(&id) {
            Some(l) => *l,
            None => 0,
        };
        rows.push(Standing { id, score, path, line });
        i = i + 1;
    }
    let ghost all = rows@;
    let ghost le = standing_order();
    proof {
        lemma_standing_order();
    }
    let sorted = order::sort_by(rows, &standing_before, Ghost(le));
    proof {
        order::lemma_arranged(all, le);
        assert(all.no_duplicates()) by {
            assert forall|a: int, b: int| 0 <= a < all.len() && 0 <= b < all.len() && a != b implies all[a]
                != all[b] by {
                assert(describes(all[a], *g, scores@, found@[a]));
                assert(describes(all[b], *g, scores@, found@[b]));
            }
        }
        order::lemma_arranged_distinct(all, le);
        assert forall|k: int| 0 <= k < sorted@.len() implies exists|m: int|
            0 <= m < found@.len() && sorted@[k] == all[m] && describes(
                #[trigger] sorted@[k],
                *g,
                scores@,
                #[trigger] found@[m],
            ) by {
            assert(sorted@.contains(sorted@[k]));
            let m = choose|m: int| 0 <= m < all.len() && all[m] == sorted@[k];
            assert(describes(all[m], *g, scores@, found@[m]));
        }
    }
    let mut out: Vec<FileId> = Vec::new();
    let mut k: usize = 0;
    while k < sorted.len()
        invariant
            k <= sorted.len(),
            out@.len() == k,
            forall|j: int| 0 <= j < k ==> (#[trigger] out@[j]).0 == sorted@[j].id,
        decreases sorted.len() - k,
    {
        out.push(FileId(sorted[k].id));
        k = k + 1;
    }
    proof {
        assert forall|i: int, j: int| 0 <= i < j < out@.len() implies (#[trigger] out@[i]) != (
        #[trigger] out@[j]) && answer_le(*g, scores@, out@[i].0, out@[j].0) by {
            let a = choose|m: int|
                0 <= m < found@.len() && sorted@[i] == all[m] && describes(
                    #[trigger] sorted@[i],
                    *g,
                    scores@,
                    #[trigger] found@[m],
                );
            let b = choose|m: int|
                0 <= m < found@.len() && sorted@[j] == all[m] && describes(
                    #[trigger] sorted@[j],
                    *g,
                    scores@,
                    #[trigger] found@[m],
                );
            assert(sorted@[i] != sorted@[j]);
            assert(a != b);
            assert(found@[a] != found@[b]);
            assert(le(sorted@[i], sorted@[j]));
        }
        if known(g.files@, target.0) {
            assert forall|x: u32| #[trigger] out@.contains(FileId(x)) <==> x != target.0 && reaches(
                *g,
                dir,
                target.0,
                x,
            ) by {
                assert(found@.contains(x) <==> x != target.0 && reaches(*g, dir, target.0, x));
                if out@.contains(FileId(x)) {
                    let k = choose|k: int| 0 <= k < out@.len() && out@[k] == FileId(x);
                    let m = choose|m: int|
                        0 <= m < found@.len() && sorted@[k] == all[m] && describes(
                            #[trigger] sorted@[k],
                            *g,
                            scores@,
                            #[trigger] found@[m],
                        );
                    assert(found@[m] == x);
                }
                if found@.contains(x) {
                    let m = choose|m: int| 0 <= m < found@.len() && found@[m] == x;
                    assert(describes(all[m], *g, scores@, found@[m]));
                    assert(all.contains(all[m]));
                    assert(sorted@.contains(all[m]));
                    let k = choose|k: int| 0 <= k < sorted@.len() && sorted@[k] == all[m];
                    assert(out@[k] == FileId(x));
                }
            }
        }
    }
    out
}

/// The files that import `target`, directly or through others, best first.
pub fn dependents(g: &CodeGraph, target: FileId, scores: &HashMap<u32, u64>) -> (out: Vec<FileId>)
    ensures
        is_walk(*g, scores@, target.0, NeighborhoodDirection::Dependents, out@),
{
    reachable_imports(g, target, NeighborhoodDirection::Dependents, scores)
}

/// The files that `target` imports, directly or through others, best first.
pub fn dependencies(g: &CodeGraph, target: FileId, scores: &HashMap<u32, u64>) -> (out: Vec<FileId>)
    ensures
        is_walk(*g, scores@, target.0, NeighborhoodDirection::Dependencies, out@),
{
    reachable_imports(g, target, NeighborhoodDirection::Dependencies, scores)
}

// ------------------------------------------------------------------ laws

proof fn lemma_within_front(
    g: CodeGraph,
    dir: NeighborhoodDirection,
    x: u32,
    y: u32,
    d: nat,
    z: u32,
)
    requires
        step(g, dir, x, y),
        within(g, dir, y, d, z),
    ensures
        within(g, dir, x, d + 1, z),
    decreases d,
{
    if d == 0 {
        assert(within(g, dir, x, 0, x));
        lemma_within_step(g, dir, x, 0, x, y);
    } else {
        let e = (d - 1) as nat;
        if within(g, dir, y, e, z) {
            lemma_within_front(g, dir, x, y, e, z);
            lemma_within_grows(g, dir, x, d, d + 1, z);
        } else {
            let w = lemma_within_back(g, dir, y, e, z);
            lemma_within_front(g, dir, x, y, e, w);
            lemma_within_step(g, dir, x, d, w, z);
        }
    }
}

proof fn lemma_within_reversed(g: CodeGraph, a: u32, d: nat, b: u32)
    ensures
        within(g, NeighborhoodDirection::Dependencies, a, d, b) ==> within(
            g,
            NeighborhoodDirection::Dependents,
            b,
            d,
            a,
        ),
        within(g, NeighborhoodDirection::Dependents, a, d, b) ==> within(
            g,
            NeighborhoodDirection::Dependencies,
            b,
            d,
            a,
        ),
        within(g, NeighborhoodDirection::Both, a, d, b) ==> within(
            g,
            NeighborhoodDirection::Both,
            b,
            d,
            a,
        ),
    decreases d,
{
    if d > 0 {
        let e = (d - 1) as nat;
        lemma_within_reversed(g, a, e, b);
        let down = NeighborhoodDirection::Dependencies;
        let up = NeighborhoodDirection::Dependents;
        let both = NeighborhoodDirection::Both;
        if within(g, down, a, d, b) {
            if within(g, down, a, e, b) {
                lemma_within_grows(g, up, b, e, d, a);
            } else {
                let y = lemma_within_back(g, down, a, e, b);
                lemma_within_reversed(g, a, e, y);
                lemma_within_front(g, up, b, y, e, a);
            }
        }
        if within(g, up, a, d, b) {
            if within(g, up, a, e, b) {
                lemma_within_grows(g, down, b, e, d, a);
            } else {
                let y = lemma_within_back(g, up, a, e, b);
                lemma_within_reversed(g, a, e, y);
                lemma_within_front(g, down, b, y, e, a);
            }
        }
        if within(g, both, a, d, b) {
            if within(g, both, a, e, b) {
                lemma_within_grows(g, both, b, e, d, a);
            } else {
                let y = lemma_within_back(g, both, a, e, b);
                lemma_within_reversed(g, a, e, y);
                lemma_within_front(g, both, b, y, e, a);
            }
        }
    }
}

/// `a` is among the dependents of `b` exactly where `b` is among the
/// dependencies of `a`.
pub proof fn law_dependents_mirror_dependencies(g: CodeGraph, a: u32, b: u32)
    ensures
        reaches(g, NeighborhoodDirection::Dependents, b, a) <==> reaches(
            g,
            NeighborhoodDirection::Dependencies,
            a,
            b,
        ),
{
    if reaches(g, NeighborhoodDirection::Dependents, b, a) {
        let d = choose|d: nat| within(g, NeighborhoodDirection::Dependents, b, d, a);
        lemma_within_reversed(g, b, d, a);
    }
    if reaches(g, NeighborhoodDirection::Dependencies, a, b) {
        let d = choose|d: nat| within(g, NeighborhoodDirection::Dependencies, a, d, b);
        lemma_within_reversed(g, a, d, b);
    }
}

/// Dependencies are transitive.
pub proof fn law_reachability_is_transitive(
    g: CodeGraph,
    dir: NeighborhoodDirection,
    a: u32,
    b: u32,
    c: u32,
)
    requires
        reaches(g, dir, a, b),
        reaches(g, dir, b, c),
    ensures
        reaches(g, dir, a, c),
{
    let d = choose|d: nat| within(g, dir, a, d, b);
    let e = choose|e: nat| within(g, dir, b, e, c);
    lemma_within_chain(g, dir, a, d, b, e, c);
}

proof fn lemma_within_chain(
    g: CodeGraph,
    dir: NeighborhoodDirection,
    a: u32,
    d: nat,
    b: u32,
    e: nat,
    c: u32,
)
    requires
        within(g, dir, a, d, b),
        within(g, dir, b, e, c),
    ensures
        within(g, dir, a, d + e, c),
    decreases e,
{
    if e > 0 {
        let f = (e - 1) as nat;
        if within(g, dir, b, f, c) {
            lemma_within_chain(g, dir, a, d, b, f, c);
            lemma_within_grows(g, dir, a, d + f, d + e, c);
        } else {
            let y = lemma_within_back(g, dir, b, f, c);
            lemma_within_chain(g, dir, a, d, b, f, y);
            lemma_within_step(g, dir, a, d + f, y, c);
        }
    }
}

/// Two graphs have the same files, the same symbols and the same edges, the edges
/// in any order.
pub open spec fn same_graph(g: CodeGraph, h: CodeGraph) -> bool {
    &&& g.files@ == h.files@
    &&& g.symbols@ == h.symbols@
    &&& forall|e: CodeEdge| #[trigger] g.edges@.contains(e) <==> h.edges@.contains(e)
}

proof fn lemma_same_imports(g: CodeGraph, h: CodeGraph, a: u32, b: u32)
    requires
        same_graph(g, h),
        imports(g, a, b),
    ensures
        imports(h, a, b),
{
    let e = choose|e: int|
        0 <= e < g.edges@.len() && (#[trigger] g.edges@[e]).kind == EdgeKind::Import
            && g.edges@[e].from == a && g.edges@[e].to == b;
    assert(g.edges@.contains(g.edges@[e]));
    assert(h.edges@.contains(g.edges@[e]));
    let k = choose|k: int| 0 <= k < h.edges@.len() && h.edges@[k] == g.edges@[e];
    assert(h.edges@[k].kind == EdgeKind::Import);
}

proof fn lemma_same_step(
    g: CodeGraph,
    h: CodeGraph,
    dir: NeighborhoodDirection,
    a: u32,
    b: u32,
)
    requires
        same_graph(g, h),
        step(g, dir, a, b),
    ensures
        step(h, dir, a, b),
{
    if imports(g, a, b) {
        lemma_same_imports(g, h, a, b);
    }
    if imports(g, b, a) {
        lemma_same_imports(g, h, b, a);
    }
}

proof fn lemma_same_within(
    g: CodeGraph,
    h: CodeGraph,
    dir: NeighborhoodDirection,
    target: u32,
    d: nat,
    x: u32,
)
    requires
        same_graph(g, h),
        within(g, dir, target, d, x),
    ensures
        within(h, dir, target, d, x),
    decreases d,
{
    if d > 0 {
        let e = (d - 1) as nat;
        if within(g, dir, target, e, x) {
            lemma_same_within(g, h, dir, target, e, x);
        } else {
            let y = lemma_within_back(g, dir, target, e, x);
            lemma_same_within(g, h, dir, target, e, y);
            lemma_same_step(g, h, dir, y, x);
        }
    }
}

proof fn lemma_same_reach(
    g: CodeGraph,
    h: CodeGraph,
    dir: NeighborhoodDirection,
    target: u32,
    x: u32,
)
    requires
        same_graph(g, h),
        reaches(g, dir, target, x),
    ensures
        reaches(h, dir, target, x),
{
    let d = choose|d: nat| within(g, dir, target, d, x);
    lemma_same_within(g, h, dir, target, d, x);
}

spec fn file_order(g: CodeGraph, scores: Map<u32, u64>) -> spec_fn(FileId, FileId) -> bool {
    |a: FileId, b: FileId| answer_le(g, scores, a.0, b.0)
}

proof fn lemma_file_order(g: CodeGraph, scores: Map<u32, u64>)
    ensures
        order::total_preorder(file_order(g, scores)),
{
    let le = file_order(g, scores);
    let n = g.files@.len();
    assert forall|a: FileId, b: FileId| #[trigger] le(a, b) || le(b, a) by {
        text::lemma_text_le_total(path_of(g.files@, a.0, n), path_of(g.files@, b.0, n));
    }
    assert forall|a: FileId, b: FileId, c: FileId| #[trigger] le(a, b) && #[trigger] le(
        b,
        c,
    ) implies le(a, c) by {
        let x = path_of(g.files@, a.0, n);
        let y = path_of(g.files@, b.0, n);
        let z = path_of(g.files@, c.0, n);
        if text::text_le(x, y) && text::text_le(y, z) {
            text::lemma_text_le_transitive(x, y, z);
            if x == z {
                text::lemma_text_le_antisymmetric(x, y);
            }
        }
    }
}

/// The order in which the edges of a graph are listed does not matter: the same
/// question about the same graph has one answer.
pub proof fn law_answers_ignore_edge_order(
    g: CodeGraph,
    h: CodeGraph,
    scores: Map<u32, u64>,
    target: u32,
    dir: NeighborhoodDirection,
    a: Seq<FileId>,
    b: Seq<FileId>,
)
    requires
        same_graph(g, h),
        is_walk(g, scores, target, dir, a),
        is_walk(h, scores, target, dir, b),
    ensures
        a == b,
{
    if !known(g.files@, target) {
        assert(a =~= b);
    } else {
        let le = file_order(g, scores);
        lemma_file_order(g, scores);
        assert(same_graph(h, g));
        assert forall|x: FileId| #[trigger] a.contains(x) <==> b.contains(x) by {
            assert(x == FileId(x.0));
            if a.contains(FileId(x.0)) {
                lemma_same_reach(g, h, dir, target, x.0);
            }
            if b.contains(FileId(x.0)) {
                lemma_same_reach(h, g, dir, target, x.0);
            }
        }
        assert(order::is_sorted(a, le));
        assert(order::is_sorted(b, le)) by {
            assert forall|i: int, j: int| 0 <= i < j < b.len() implies le(
                #[trigger] b[i],
                #[trigger] b[j],
            ) by {
                assert(answer_le(h, scores, b[i].0, b[j].0));
            }
        }
        assert(a.no_duplicates());
        assert(b.no_duplicates());
        assert(order::no_ties(a, le)) by {
            assert forall|x: FileId, y: FileId|
                a.contains(x) && a.contains(y) && #[trigger] le(x, y) && #[trigger] le(
                    y,
                    x,
                ) implies x == y by {
                let n = g.files@.len();
                let p = path_of(g.files@, x.0, n);
                let q = path_of(g.files@, y.0, n);
                if p != q && text::text_le(p, q) && text::text_le(q, p) {
                    text::lemma_text_le_antisymmetric(p, q);
                }
            }
        }
        order::lemma_sorted_same_set(a, b, le);
    }
}

} // verus!
