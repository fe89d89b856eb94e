//! The folder view: files folded into groups, imports into weighted edges
//! between groups.

use crate::graph;
use crate::graph::CodeGraph;
use crate::order;
use crate::paths;
use crate::ranking;
use crate::text;
use crate::types::{CodeEdge, CodeFile, EdgeKind, FileId, RelPath};
use std::collections::HashMap;
use vstd::prelude::*;
use vstd::string::*;

verus! {

broadcast use vstd::std_specs::hash::group_hash_axioms;

/// The greatest number of directory levels in a group name.
pub const MAX_GROUP_DEPTH: u8 = 3;

/// A group by its name: leading directories, or `(root)`.
pub type GroupId = String;

/// The imports that cross from one group to another, by weight.
#[derive(Debug, PartialEq, Eq)]
pub struct GroupEdge {
    pub from: GroupId,
    pub to: GroupId,
    pub weight: u32,
}

/// A group and its files.
#[derive(Debug, PartialEq, Eq)]
pub struct GroupNode {
    pub id: GroupId,
    pub files: u32,
    /// The files, in the order of their paths.
    pub members: Vec<FileId>,
}

/// `depth` brought into `1 ..= 3`.
pub open spec fn group_depth(depth: u8) -> nat {
    if depth == 0 {
        1
    } else if depth > MAX_GROUP_DEPTH {
        MAX_GROUP_DEPTH as nat
    } else {
        depth as nat
    }
}

/// The group of a path: its first `depth` directories, as far as it has them;
/// a path without any belongs to `(root)`.
pub open spec fn group_text(path: Seq<char>, depth: nat) -> Seq<char> {
    let dirs = text::pieces(path, '/').drop_last();
    if dirs.len() == 0 {
        "(root)"@
    } else if dirs.len() < depth {
        paths::joined(dirs)
    } else {
        paths::joined(dirs.take(depth as int))
    }
}

/// The group of a path.
pub fn group_of(path: &RelPath, depth: u8) -> (out: GroupId)
    requires
        depth > 0,
    ensures
        out@ == group_text(path@, depth as nat),
{
    let segments = text::split_on(&path.chars(), '/');
    let ghost parts = text::rows(segments@);
    proof {
        text::lemma_pieces_nonempty(path@, '/');
    }
    let n: usize = segments.len() - 1;
    if n == 0 {
        return String::from_str("(root)");
    }
    let take: usize = if n < depth as usize {
        n
    } else {
        depth as usize
    };
    let mut out: Vec<char> = text::slice_of(&segments[0], 0, segments[0].len());
    assert(out@ =~= parts[0]);
    assert(parts.take(1) =~= seq![parts[0]]);
    let mut i: usize = 1;
    while i < take
        invariant
            1 <= i <= take,
            take <= n,
            n < segments.len(),
            parts == text::rows(segments@),
            out@ == paths::joined(parts.take(i as int)),
        decreases take - i,
    {
        assert(parts.take(i as int + 1).drop_last() =~= parts.take(i as int));
        let mut next = text::slice_of(&segments[i], 0, segments[i].len());
        assert(next@ =~= parts[i as int]);
        out.push('/');
        out.append(&mut next);
        i = i + 1;
    }
    proof {
        let dirs = parts.drop_last();
        if dirs.len() < depth {
            assert(parts.take(take as int) =~= dirs);
        } else {
            assert(parts.take(take as int) =~= dirs.take(depth as int));
        }
    }
    text::string_of(&out)
}

// ------------------------------------------------------------------ spec

/// The group of the file `id`, if the graph has that file.
pub open spec fn group_of_id(files: Seq<CodeFile>, depth: nat, id: u32) -> Option<Seq<char>> {
    let ids = ranking::sorted_ids(files);
    match ranking::place_of(ids, id, ids.len()) {
        Some(k) => Some(group_at(files, depth, k)),
        None => None,
    }
}

/// The group of the file at place `k` in canonical order.
pub open spec fn group_at(files: Seq<CodeFile>, depth: nat, k: int) -> Seq<char> {
    group_text(files[ranking::sorted_positions(files)[k] as int].path@, depth)
}

/// The files of group `name` among the first `n` in canonical order.
pub open spec fn members_of(
    files: Seq<CodeFile>,
    depth: nat,
    name: Seq<char>,
    n: nat,
) -> Seq<FileId>
    decreases n,
{
    if n == 0 {
        Seq::empty()
    } else {
        let before = members_of(files, depth, name, (n - 1) as nat);
        if group_at(files, depth, n - 1) == name {
            before.push(FileId(ranking::sorted_ids(files)[n - 1]))
        } else {
            before
        }
    }
}

/// An import edge crosses from group `a` to group `b`.
pub open spec fn crosses(
    files: Seq<CodeFile>,
    depth: nat,
    e: CodeEdge,
    a: Seq<char>,
    b: Seq<char>,
) -> bool {
    &&& e.kind == EdgeKind::Import
    &&& group_of_id(files, depth, e.from) == Some(a)
    &&& group_of_id(files, depth, e.to) == Some(b)
    &&& a != b
}

/// The weight of the imports from group `a` to group `b` among the first `n`
/// edges; an edge without weight counts 1.
pub open spec fn group_weight(
    files: Seq<CodeFile>,
    edges: Seq<CodeEdge>,
    depth: nat,
    a: Seq<char>,
    b: Seq<char>,
    n: nat,
) -> int
    decreases n,
{
    if n == 0 {
        0
    } else {
        let before = group_weight(files, edges, depth, a, b, (n - 1) as nat);
        if crosses(files, depth, edges[n - 1], a, b) {
            before + ranking::edge_weight(edges[n - 1])
        } else {
            before
        }
    }
}

/// `nodes` lists the groups that have files, by name.
pub open spec fn are_nodes(nodes: Seq<GroupNode>, files: Seq<CodeFile>, depth: nat) -> bool {
    &&& forall|i: int, j: int|
        0 <= i < j < nodes.len() ==> text::text_le(
            (#[trigger] nodes[i]).id@,
            (#[trigger] nodes[j]).id@,
        ) && nodes[i].id@ != nodes[j].id@
    &&& forall|k: int|
        0 <= k < nodes.len() ==> (#[trigger] nodes[k]).members@ == members_of(
            files,
            depth,
            nodes[k].id@,
            files.len(),
        ) && nodes[k].files == nodes[k].members@.len() && nodes[k].files > 0
    &&& forall|k: int|
        0 <= k < files.len() ==> has_node(nodes, #[trigger] group_at(files, depth, k))
}

/// One of the nodes has the name `name`.
pub open spec fn has_node(nodes: Seq<GroupNode>, name: Seq<char>) -> bool {
    exists|m: int| 0 <= m < nodes.len() && (#[trigger] nodes[m]).id@ == name
}

/// `(from, to)` in text order.
pub open spec fn pair_le(a: GroupEdge, b: GroupEdge) -> bool {
    if a.from@ != b.from@ {
        text::text_le(a.from@, b.from@)
    } else {
        text::text_le(a.to@, b.to@)
    }
}

/// `out` lists the pairs of groups that imports cross between, by name, each
/// with its weight.
pub open spec fn are_edges(
    out: Seq<GroupEdge>,
    files: Seq<CodeFile>,
    edges: Seq<CodeEdge>,
    depth: nat,
) -> bool {
    &&& forall|i: int, j: int|
        0 <= i < j < out.len() ==> pair_le(#[trigger] out[i], #[trigger] out[j]) && (out[i].from@
            != out[j].from@ || out[i].to@ != out[j].to@)
    &&& forall|k: int|
        0 <= k < out.len() ==> (#[trigger] out[k]).weight > 0 && out[k].weight == group_weight(
            files,
            edges,
            depth,
            out[k].from@,
            out[k].to@,
            edges.len(),
        )
    &&& forall|a: Seq<char>, b: Seq<char>| #[trigger]
        group_weight(files, edges, depth, a, b, edges.len()) > 0 ==> exists|k: int|
            0 <= k < out.len() && (#[trigger] out[k]).from@ == a && out[k].to@ == b
}

// ------------------------------------------------------------------ exec

/// The place of `t` among ascending `names`.
fn index_in(names: &Vec<String>, t: &str) -> (r: usize)
    requires
        text::texts(names@).contains(t@),
    ensures
        r < names@.len(),
        names@[r as int]@ == t@,
{
    let mut i: usize = 0;
    while i < names.len()
        invariant
            i <= names.len(),
            text::texts(names@).contains(t@),
            forall|k: int| 0 <= k < i ==> (#[trigger] names@[k])@ != t@,
        decreases names.len() - i,
    {
        if text::same(names[i].as_str(), t) {
            return i;
        }
        i = i + 1;
    }
    proof {
        let all = text::texts(names@);
        let k = choose|k: int| 0 <= k < all.len() && all[k] == t@;
        assert(names@[k]@ == t@);
    }
    0
}

/// The group of every file in canonical order.
fn groups_in_order(g: &CodeGraph, sorted: &Vec<usize>, depth: u8) -> (out: Vec<String>)
    requires
        depth > 0,
        sorted@ == ranking::sorted_positions(g.files@),
        forall|k: int| 0 <= k < sorted@.len() ==> #[trigger] sorted@[k] < g.files@.len(),
    ensures
        out@.len() == sorted@.len(),
        forall|k: int|
            0 <= k < out@.len() ==> (#[trigger] out@[k])@ == group_at(g.files@, depth as nat, k),
{
    let mut out: Vec<String> = Vec::new();
    let mut i: usize = 0;
    while i < sorted.len()
        invariant
            i <= sorted.len(),
            depth > 0,
            sorted@ == ranking::sorted_positions(g.files@),
            forall|k: int| 0 <= k < sorted@.len() ==> #[trigger] sorted@[k] < g.files@.len(),
            out@.len() == i,
            forall|k: int|
                0 <= k < i ==> (#[trigger] out@[k])@ == group_at(g.files@, depth as nat, k),
        decreases sorted.len() - i,
    {
        out.push(group_of(&g.files[sorted[i]].path, depth));
        i = i + 1;
    }
    out
}

proof fn lemma_group_weight_grows(
    files: Seq<CodeFile>,
    edges: Seq<CodeEdge>,
    depth: nat,
    a: Seq<char>,
    b: Seq<char>,
    m: nat,
    n: nat,
)
    requires
        m <= n,
    ensures
        0 <= group_weight(files, edges, depth, a, b, m) <= group_weight(
            files,
            edges,
            depth,
            a,
            b,
            n,
        ),
    decreases n,
{
    if m < n {
        lemma_group_weight_grows(files, edges, depth, a, b, m, (n - 1) as nat);
    } else if n > 0 {
        lemma_group_weight_grows(files, edges, depth, a, b, (n - 1) as nat, (n - 1) as nat);
    }
}

spec fn at_index(names: Seq<String>, i: int) -> Seq<char> {
    names[i]@
}

/// The weights between groups, by the places of the groups among `names`.
fn index_weights(
    g: &CodeGraph,
    depth: u8,
    names: &Vec<String>,
    of_place: &Vec<u32>,
    places: &HashMap<u32, usize>,
) -> (r: (HashMap<u64, u32>, Vec<(u32, u32)>))
    requires
        g.files@.len() <= u32::MAX,
        names@.len() <= u32::MAX,
        text::ascending(text::texts(names@)),
        ranking::is_placing(places@, ranking::sorted_ids(g.files@)),
        ranking::sorted_ids(g.files@).len() == g.files@.len(),
        of_place@.len() == g.files@.len(),
        forall|k: int|
            0 <= k < of_place@.len() ==> #[trigger] of_place@[k] < names@.len() && at_index(
                names@,
                of_place@[k] as int,
            ) == group_at(g.files@, depth as nat, k),
        forall|a: Seq<char>, b: Seq<char>| #[trigger]
            group_weight(g.files@, g.edges@, depth as nat, a, b, g.edges@.len()) <= u32::MAX,
    ensures
        forall|a: u32, b: u32| #[trigger]
            r.0@.contains_key(ranking::pair_key(a, b)) <==> a < names@.len() && b < names@.len()
                && group_weight(
                g.files@,
                g.edges@,
                depth as nat,
                at_index(names@, a as int),
                at_index(names@, b as int),
                g.edges@.len(),
            ) > 0,
        forall|a: u32, b: u32| #[trigger]
            r.0@.contains_key(ranking::pair_key(a, b)) ==> r.0@[ranking::pair_key(a, b)]
                == group_weight(
                g.files@,
                g.edges@,
                depth as nat,
                at_index(names@, a as int),
                at_index(names@, b as int),
                g.edges@.len(),
            ),
        forall|a: u32, b: u32|
            r.1@.contains((a, b)) <==> #[trigger] r.0@.contains_key(ranking::pair_key(a, b)),
        r.1@.no_duplicates(),
{
    let ghost files = g.files@;
    let ghost edges = g.edges@;
    let ghost d = depth as nat;
    let ghost ids = ranking::sorted_ids(g.files@);
    let mut totals: HashMap<u64, u32> = HashMap::new();
    let mut pairs: Vec<(u32, u32)> = Vec::new();
    let mut e: usize = 0;
    assert forall|a: u32, b: u32| a < names@.len() && b < names@.len() implies group_weight(
        files,
        edges,
        d,
        #[trigger] at_index(names@, a as int),
        #[trigger] at_index(names@, b as int),
        0,
    ) == 0 by {}
    while e < g.edges.len()
        invariant
            e <= g.edges.len(),
            files == g.files@,
            edges == g.edges@,
            d == depth as nat,
            ids == ranking::sorted_ids(files),
            ids.len() == files.len(),
            names@.len() <= u32::MAX,
            text::ascending(text::texts(names@)),
            ranking::is_placing(places@, ids),
            of_place@.len() == files.len(),
            forall|k: int|
                0 <= k < of_place@.len() ==> #[trigger] of_place@[k] < names@.len() && at_index(
                    names@,
                    of_place@[k] as int,
                ) == group_at(files, d, k),
            forall|a: Seq<char>, b: Seq<char>| #[trigger]
                group_weight(files, edges, d, a, b, edges.len()) <= u32::MAX,
            forall|a: u32, b: u32| #[trigger]
                totals@.contains_key(ranking::pair_key(a, b)) <==> a < names@.len() && b
                    < names@.len() && group_weight(
                    files,
                    edges,
                    d,
                    at_index(names@, a as int),
                    at_index(names@, b as int),
                    e as nat,
                ) > 0,
            forall|a: u32, b: u32| #[trigger]
                totals@.contains_key(ranking::pair_key(a, b)) ==> totals@[ranking::pair_key(a, b)]
                    == group_weight(
                    files,
                    edges,
                    d,
                    at_index(names@, a as int),
                    at_index(names@, b as int),
                    e as nat,
                ),
            forall|a: u32, b: u32|
                pairs@.contains((a, b)) <==> #[trigger] totals@.contains_key(
                    ranking::pair_key(a, b),
                ),
            pairs@.no_duplicates(),
        decreases g.edges.len() - e,
    {
        let ghost was = totals@;
        let ghost listed = pairs@;
        let edge = g.edges[e];
        let from = places.get(&edge.from);
        let to = places.get(&edge.to);
        assert(ranking::placing_within(places@, ids, ids.len()));
        assert(places@.contains_key(edge.from) || !places@.contains_key(edge.from));
        assert(places@.contains_key(edge.to) || !places@.contains_key(edge.to));
        let ghost mut cross: Option<(u32, u32)> = None;
        if edge.kind == EdgeKind::Import && from.is_some() && to.is_some() {
            let x: u32 = of_place[*from.unwrap()];
            let y: u32 = of_place[*to.unwrap()];
            assert(group_of_id(files, d, edge.from) == Some(at_index(names@, x as int)));
            assert(group_of_id(files, d, edge.to) == Some(at_index(names@, y as int)));
            if x != y {
                proof {
                    cross = Some((x, y));
                    let t = text::texts(names@);
                    assert(t[x as int] != t[y as int]) by {
                        if x < y {
                            assert(text::text_le(t[x as int], t[y as int]));
                        } else {
                            assert(text::text_le(t[y as int], t[x as int]));
                        }
                    }
                    assert(at_index(names@, x as int) != at_index(names@, y as int));
                    lemma_group_weight_grows(
                        files,
                        edges,
                        d,
                        at_index(names@, x as int),
                        at_index(names@, y as int),
                        (e + 1) as nat,
                        edges.len(),
                    );
                    assert(group_weight(
                        files,
                        edges,
                        d,
                        at_index(names@, x as int),
                        at_index(names@, y as int),
                        edges.len(),
                    ) <= u32::MAX);
                    lemma_group_weight_grows(
                        files,
                        edges,
                        d,
                        at_index(names@, x as int),
                        at_index(names@, y as int),
                        e as nat,
                        (e + 1) as nat,
                    );
                }
                let weight: u32 = if edge.weight == 0 {
                    1
                } else {
                    edge.weight
                };
                let key: u64 = ranking::key_of(x, y);
                match totals.get(&key) {
                    Some(t) => {
                        let sum: u32 = *t + weight;
                        totals.insert(key, sum);
                        assert(listed.contains((x, y)));
                    },
                    None => {
                        totals.insert(key, weight);
                        pairs.push((x, y));
                    },
                }
            }
        }
        proof {
            let n = (e + 1) as nat;
            assert forall|a: u32, b: u32| a < names@.len() && b < names@.len() implies #[trigger]
                group_weight(
                    files,
                    edges,
                    d,
                    at_index(names@, a as int),
                    at_index(names@, b as int),
                    n,
                ) == group_weight(
                files,
                edges,
                d,
                at_index(names@, a as int),
                at_index(names@, b as int),
                e as nat,
            ) + (if cross == Some((a, b)) {
                ranking::edge_weight(edge)
            } else {
                0
            }) by {
                let t = text::texts(names@);
                let p = at_index(names@, a as int);
                let q = at_index(names@, b as int);
                if crosses(files, d, edge, p, q) {
                    assert(places@.contains_key(edge.from) && places@.contains_key(edge.to));
                    let x = of_place@[places@[edge.from] as int];
                    let y = of_place@[places@[edge.to] as int];
                    assert(t[x as int] == p && t[a as int] == p);
                    assert(t[y as int] == q && t[b as int] == q);
                    lemma_ascending_injective(t, x as int, a as int);
                    lemma_ascending_injective(t, y as int, b as int);
                    assert(x != y);
                }
                if cross == Some((a, b)) {
                    assert(crosses(files, d, edge, p, q));
                }
            }
            assert forall|a: u32, b: u32| #[trigger]
                totals@.contains_key(ranking::pair_key(a, b)) <==> a < names@.len() && b
                    < names@.len() && group_weight(
                    files,
                    edges,
                    d,
                    at_index(names@, a as int),
                    at_index(names@, b as int),
                    n,
                ) > 0 by {
                assert(was.contains_key(ranking::pair_key(a, b)) || !was.contains_key(
                    ranking::pair_key(a, b),
                ));
                if cross is Some {
                    ranking::lemma_pair_key(a, b, cross.unwrap().0, cross.unwrap().1);
                }
                lemma_group_weight_grows(
                    files,
                    edges,
                    d,
                    at_index(names@, a as int),
                    at_index(names@, b as int),
                    e as nat,
                    n,
                );
            }
            assert forall|a: u32, b: u32| #[trigger]
                totals@.contains_key(ranking::pair_key(a, b)) implies totals@[ranking::pair_key(a, b)]
                == group_weight(
                files,
                edges,
                d,
                at_index(names@, a as int),
                at_index(names@, b as int),
                n,
            ) by {
                assert(was.contains_key(ranking::pair_key(a, b)) || !was.contains_key(
                    ranking::pair_key(a, b),
                ));
                if cross is Some {
                    ranking::lemma_pair_key(a, b, cross.unwrap().0, cross.unwrap().1);
                }
                lemma_group_weight_grows(
                    files,
                    edges,
                    d,
                    at_index(names@, a as int),
                    at_index(names@, b as int),
                    e as nat,
                    n,
                );
            }
            assert forall|a: u32, b: u32|
                pairs@.contains((a, b)) <==> #[trigger] totals@.contains_key(
                    ranking::pair_key(a, b),
                ) by {
                assert(was.contains_key(ranking::pair_key(a, b)) <==> listed.contains((a, b)));
                if cross is Some {
                    ranking::lemma_pair_key(a, b, cross.unwrap().0, cross.unwrap().1);
                }
                if listed.contains((a, b)) {
                    let k = choose|k: int| 0 <= k < listed.len() && listed[k] == (a, b);
                    assert(pairs@[k] == (a, b));
                }
                if pairs@.len() > listed.len() && cross == Some((a, b)) {
                    assert(pairs@[listed.len() as int] == (a, b));
                }
                if pairs@.contains((a, b)) {
                    let k = choose|k: int| 0 <= k < pairs@.len() && pairs@[k] == (a, b);
                    if k < listed.len() {
                        assert(listed[k] == (a, b));
                    }
                }
            }
            if pairs@.len() > listed.len() {
                let (x, y) = cross.unwrap();
                assert(!was.contains_key(ranking::pair_key(x, y)));
                assert(!listed.contains((x, y)));
            }
        }
        e = e + 1;
    }
    (totals, pairs)
}

proof fn lemma_ascending_injective(t: Seq<Seq<char>>, i: int, j: int)
    requires
        text::ascending(t),
        0 <= i < t.len(),
        0 <= j < t.len(),
        t[i] == t[j],
    ensures
        i == j,
{
    if i < j {
        assert(text::text_le(t[i], t[j]) && t[i] != t[j]);
    }
    if j < i {
        assert(text::text_le(t[j], t[i]) && t[j] != t[i]);
    }
}

spec fn index_order() -> spec_fn((u32, u32), (u32, u32)) -> bool {
    |a: (u32, u32), b: (u32, u32)| a.0 < b.0 || (a.0 == b.0 && a.1 <= b.1)
}

fn index_before(a: &(u32, u32), b: &(u32, u32)) -> (r: bool)
    ensures
        r == index_order()(*a, *b),
{
    a.0 < b.0 || (a.0 == b.0 && a.1 <= b.1)
}

/// `edge` joins the groups at the places `at`, with their weight.
spec fn stands_for(
    edge: GroupEdge,
    at: (u32, u32),
    names: Seq<String>,
    files: Seq<CodeFile>,
    edges: Seq<CodeEdge>,
    depth: nat,
) -> bool {
    &&& at.0 < names.len()
    &&& at.1 < names.len()
    &&& edge.from@ == names[at.0 as int]@
    &&& edge.to@ == names[at.1 as int]@
    &&& edge.weight > 0
    &&& edge.weight == group_weight(files, edges, depth, edge.from@, edge.to@, edges.len())
}

/// The files of every group, in canonical order.
fn group_members(
    g: &CodeGraph,
    depth: u8,
    names: &Vec<String>,
    sorted: &Vec<usize>,
    of_place: &Vec<u32>,
) -> (out: Vec<Vec<FileId>>)
    requires
        g.files@.len() <= u32::MAX,
        text::ascending(text::texts(names@)),
        sorted@ == ranking::sorted_positions(g.files@),
        sorted@.len() == g.files@.len(),
        forall|k: int| 0 <= k < sorted@.len() ==> #[trigger] sorted@[k] < g.files@.len(),
        of_place@.len() == g.files@.len(),
        forall|k: int|
            0 <= k < of_place@.len() ==> #[trigger] of_place@[k] < names@.len() && at_index(
                names@,
                of_place@[k] as int,
            ) == group_at(g.files@, depth as nat, k),
    ensures
        out@.len() == names@.len(),
        forall|k: int|
            0 <= k < out@.len() ==> (#[trigger] out@[k])@ == members_of(
                g.files@,
                depth as nat,
                names@[k]@,
                g.files@.len(),
            ),
{
    let ghost files = g.files@;
    let ghost d = depth as nat;
    let mut out: Vec<Vec<FileId>> = Vec::new();
    let mut i: usize = 0;
    while i < names.len()
        invariant
            i <= names.len(),
            out@.len() == i,
            forall|k: int| 0 <= k < i ==> (#[trigger] out@[k])@ == Seq::<FileId>::empty(),
        decreases names.len() - i,
    {
        out.push(Vec::new());
        i = i + 1;
    }
    let mut p: usize = 0;
    while p < sorted.len()
        invariant
            p <= sorted.len(),
            files == g.files@,
            d == depth as nat,
            text::ascending(text::texts(names@)),
            sorted@ == ranking::sorted_positions(files),
            forall|k: int| 0 <= k < sorted@.len() ==> #[trigger] sorted@[k] < files.len(),
            sorted@.len() == files.len(),
            of_place@.len() == files.len(),
            forall|k: int|
                0 <= k < of_place@.len() ==> #[trigger] of_place@[k] < names@.len() && at_index(
                    names@,
                    of_place@[k] as int,
                ) == group_at(files, d, k),
            out@.len() == names@.len(),
            forall|k: int|
                0 <= k < out@.len() ==> (#[trigger] out@[k])@ == members_of(
                    files,
                    d,
                    names@[k]@,
                    p as nat,
                ),
        decreases sorted.len() - p,
    {
        let at: usize = of_place[p] as usize;
        let id = g.files[sorted[p]].id;
        assert(at_index(names@, at as int) == group_at(files, d, p as int));
        assert(id == FileId(ranking::sorted_ids(files)[p as int]));
        let ghost was = out@;
        let mut row: Vec<FileId> = Vec::new();
        std::mem::swap(&mut row, &mut out[at]);
        assert(row@ == was[at as int]@);
        row.push(id);
        out[at] = row;
        assert forall|k: int| 0 <= k < out@.len() implies (#[trigger] out@[k])@ == members_of(
            files,
            d,
            names@[k]@,
            (p + 1) as nat,
        ) by {
            if k == at {
                assert(was[at as int]@ == members_of(files, d, names@[k]@, p as nat));
            } else {
                assert(out@[k] == was[k]);
                if names@[k]@ == group_at(files, d, p as int) {
                    let t = text::texts(names@);
                    assert(t[k] == t[at as int]);
                    lemma_ascending_injective(t, k, at as int);
                }
            }
        }
        p = p + 1;
    }
    out
}

/// Folds files into groups and imports into edges between groups.
///
/// `depth` is the number of directory levels in a group name, brought into
/// `1 ..= 3`. Groups come by name, edges by the names of their ends. Imports
/// within one group, and those with an end outside the graph, do not count.
pub fn group_graph(g: &CodeGraph, depth: u8) -> (r: (Vec<GroupNode>, Vec<GroupEdge>))
    requires
        g.files@.len() <= u32::MAX,
        forall|a: Seq<char>, b: Seq<char>| #[trigger]
            group_weight(g.files@, g.edges@, group_depth(depth), a, b, g.edges@.len()) <= u32::MAX,
    ensures
        are_nodes(r.0@, g.files@, group_depth(depth)),
        are_edges(r.1@, g.files@, g.edges@, group_depth(depth)),
{
    let levels: u8 = if depth == 0 {
        1
    } else if depth > MAX_GROUP_DEPTH {
        MAX_GROUP_DEPTH
    } else {
        depth
    };
    assert(levels as nat == group_depth(depth));
    let ghost files = g.files@;
    let ghost edges = g.edges@;
    let ghost d = levels as nat;
    let ghost ids = ranking::sorted_ids(files);
    let sorted = ranking::sorted_files(g);
    assert(ids.len() == files.len());
    let places = ranking::file_positions(g, &sorted);
    let groups = groups_in_order(g, &sorted, levels);
    let mut copy: Vec<String> = Vec::new();
    let mut i: usize = 0;
    while i < groups.len()
        invariant
            i <= groups.len(),
            copy@ == groups@.take(i as int),
        decreases groups.len() - i,
    {
        copy.push(groups[i].clone());
        assert(copy@ =~= groups@.take(i as int + 1));
        i = i + 1;
    }
    assert(copy@ =~= groups@);
    let names = text::sort_unique(copy);
    proof {
        let t = text::texts(names@);
        let s = text::texts(groups@);
        assert(t.to_set() =~= s.to_set());
        ranking::lemma_ascending_is_set(t, t.to_set());
        s.lemma_cardinality_of_set();
        assert(t.len() == names@.len() && s.len() == groups@.len());
    }
    let mut of_place: Vec<u32> = Vec::new();
    let mut p: usize = 0;
    while p < groups.len()
        invariant
            p <= groups.len(),
            groups@.len() == files.len(),
            names@.len() <= u32::MAX,
            forall|k: int|
                0 <= k < groups@.len() ==> (#[trigger] groups@[k])@ == group_at(files, d, k),
            forall|t: Seq<char>| #[trigger]
                text::texts(names@).contains(t) <==> text::texts(groups@).contains(t),
            of_place@.len() == p,
            forall|k: int|
                0 <= k < p ==> #[trigger] of_place@[k] < names@.len() && at_index(
                    names@,
                    of_place@[k] as int,
                ) == group_at(files, d, k),
        decreases groups.len() - p,
    {
        assert(text::texts(groups@)[p as int] == groups@[p as int]@);
        assert(text::texts(groups@).contains(groups@[p as int]@));
        let at: usize = index_in(&names, groups[p].as_str());
        of_place.push(at as u32);
        p = p + 1;
    }
    let mut members = group_members(g, levels, &names, &sorted, &of_place);
    let (totals, pairs) = index_weights(g, levels, &names, &of_place, &places);

    let ghost all_pairs = pairs@;
    let ghost le = index_order();
    assert(order::total_preorder(le));
    let ordered = order::sort_by(pairs, &index_before, Ghost(le));
    proof {
        order::lemma_arranged(all_pairs, le);
        order::lemma_arranged_distinct(all_pairs, le);
    }
    let mut out: Vec<GroupEdge> = Vec::new();
    let mut e: usize = 0;
    while e < ordered.len()
        invariant
            e <= ordered.len(),
            files == g.files@,
            edges == g.edges@,
            d == levels as nat,
            forall|x: (u32, u32)| #[trigger] ordered@.contains(x) <==> all_pairs.contains(x),
            forall|a: u32, b: u32|
                all_pairs.contains((a, b)) <==> #[trigger] totals@.contains_key(
                    ranking::pair_key(a, b),
                ),
            forall|a: u32, b: u32| #[trigger]
                totals@.contains_key(ranking::pair_key(a, b)) ==> a < names@.len() && b
                    < names@.len() && totals@[ranking::pair_key(a, b)] == group_weight(
                    files,
                    edges,
                    d,
                    at_index(names@, a as int),
                    at_index(names@, b as int),
                    edges.len(),
                ) && totals@[ranking::pair_key(a, b)] > 0,
            out@.len() == e,
            forall|k: int|
                0 <= k < e ==> stands_for(#[trigger] out@[k], ordered@[k], names@, files, edges, d),
        decreases ordered.len() - e,
    {
        let a: u32 = ordered[e].0;
        let b: u32 = ordered[e].1;
        assert(ordered@.contains((a, b))) by {
            assert(ordered@[e as int] == (a, b));
        }
        assert(totals@.contains_key(ranking::pair_key(a, b)));
        let key: u64 = ranking::key_of(a, b);
        let weight: u32 = match totals.get(&key) {
            Some(w) => *w,
            None => 0,
        };
        assert(at_index(names@, a as int) == names@[a as int]@);
        assert(at_index(names@, b as int) == names@[b as int]@);
        assert(weight == totals@[ranking::pair_key(a, b)]);
        assert(weight > 0);
        let ghost was = out@;
        out.push(
            GroupEdge {
                from: names[a as usize].clone(),
                to: names[b as usize].clone(),
                weight,
            },
        );
        assert(stands_for(out@[e as int], ordered@[e as int], names@, files, edges, d));
        assert forall|k: int| 0 <= k < e + 1 implies stands_for(
            #[trigger] out@[k],
            ordered@[k],
            names@,
            files,
            edges,
            d,
        ) by {
            if k < e {
                assert(out@[k] == was[k]);
            }
        }
        e = e + 1;
    }
    proof {
        let t = text::texts(names@);
        assert forall|i: int, j: int| 0 <= i < j < out@.len() implies pair_le(
            #[trigger] out@[i],
            #[trigger] out@[j],
        ) && (out@[i].from@ != out@[j].from@ || out@[i].to@ != out@[j].to@) by {
            let x = ordered@[i];
            let y = ordered@[j];
            assert(stands_for(out@[i], x, names@, files, edges, d));
            assert(stands_for(out@[j], y, names@, files, edges, d));
            assert(le(x, y));
            assert(x != y);
            assert(t[x.0 as int] == out@[i].from@ && t[y.0 as int] == out@[j].from@);
            assert(t[x.1 as int] == out@[i].to@ && t[y.1 as int] == out@[j].to@);
            if x.0 < y.0 {
                assert(text::text_le(t[x.0 as int], t[y.0 as int]));
            } else {
                assert(x.1 < y.1);
                assert(text::text_le(t[x.1 as int], t[y.1 as int]));
            }
        }
        assert forall|a: Seq<char>, b: Seq<char>| #[trigger]
            group_weight(files, edges, d, a, b, edges.len()) > 0 implies exists|k: int|
            0 <= k < out@.len() && (#[trigger] out@[k]).from@ == a && out@[k].to@ == b by {
            let k = lemma_some_crosses(files, edges, d, a, b, edges.len());
            lemma_group_has_index(files, d, edges[k].from, t, groups@);
            lemma_group_has_index(files, d, edges[k].to, t, groups@);
            let i = choose|i: int| 0 <= i < t.len() && t[i] == a;
            let j = choose|j: int| 0 <= j < t.len() && t[j] == b;
            assert(at_index(names@, i) == a && at_index(names@, j) == b);
            assert(totals@.contains_key(ranking::pair_key(i as u32, j as u32)));
            assert(all_pairs.contains((i as u32, j as u32)));
            assert(ordered@.contains((i as u32, j as u32)));
            let m = choose|m: int| 0 <= m < ordered@.len() && ordered@[m] == (i as u32, j as u32);
            assert(stands_for(out@[m], ordered@[m], names@, files, edges, d));
        }
    }

    let mut nodes: Vec<GroupNode> = Vec::new();
    let mut k: usize = names.len();
    let ghost full = members@;
    let mut tail: Vec<GroupNode> = Vec::new();
    while k > 0
        invariant
            k <= names@.len(),
            members@ == full.take(k as int),
            full.len() == names@.len(),
            forall|m: int|
                0 <= m < full.len() ==> (#[trigger] full[m])@ == members_of(
                    files,
                    d,
                    names@[m]@,
                    files.len(),
                ),
            files.len() <= u32::MAX,
            tail@.len() == names@.len() - k,
            forall|m: int|
                0 <= m < tail@.len() ==> (#[trigger] tail@[m]).id@ == names@[names@.len() - 1 - m]@
                    && tail@[m].members@ == full[names@.len() - 1 - m]@ && tail@[m].files
                    == tail@[m].members@.len(),
        decreases k,
    {
        k = k - 1;
        if let Some(row) = members.pop() {
            assert(members@ =~= full.take(k as int));
            assert(row == full[k as int]);
            proof {
                lemma_members_bound(files, d, names@[k as int]@, files.len());
            }
            let count: u32 = row.len() as u32;
            tail.push(GroupNode { id: names[k].clone(), files: count, members: row });
        }
    }
    let ghost turned = tail@;
    while tail.len() > 0
        invariant
            nodes@.len() + tail@.len() == turned.len(),
            tail@ == turned.take(tail@.len() as int),
            forall|m: int|
                0 <= m < nodes@.len() ==> #[trigger] nodes@[m] == turned[turned.len() - 1 - m],
        decreases tail.len(),
    {
        if let Some(node) = tail.pop() {
            assert(tail@ =~= turned.take(tail@.len() as int));
            nodes.push(node);
        }
    }
    proof {
        let t = text::texts(names@);
        assert forall|m: int| 0 <= m < nodes@.len() implies (#[trigger] nodes@[m]).id@ == names@[m]@
            && nodes@[m].members@ == members_of(files, d, names@[m]@, files.len())
            && nodes@[m].files == nodes@[m].members@.len() by {
            assert(nodes@[m] == turned[turned.len() - 1 - m]);
            assert(full[m]@ == members_of(files, d, names@[m]@, files.len()));
        }
        assert forall|i: int, j: int| 0 <= i < j < nodes@.len() implies text::text_le(
            (#[trigger] nodes@[i]).id@,
            (#[trigger] nodes@[j]).id@,
        ) && nodes@[i].id@ != nodes@[j].id@ by {
            assert(t[i] == names@[i]@ && t[j] == names@[j]@);
        }
        assert forall|k: int| 0 <= k < nodes@.len() implies (#[trigger] nodes@[k]).files > 0 by {
            assert(t[k] == names@[k]@);
            assert(t.contains(t[k]));
            let s = text::texts(groups@);
            let q = choose|q: int| 0 <= q < s.len() && s[q] == t[k];
            assert(groups@[q]@ == t[k]);
            lemma_members_nonempty(files, d, names@[k]@, q, files.len());
        }
        assert forall|k: int| 0 <= k < files.len() implies has_node(
            nodes@,
            #[trigger] group_at(files, d, k),
        ) by {
            let s = text::texts(groups@);
            assert(s[k] == groups@[k]@);
            assert(s.contains(s[k]));
            assert(t.contains(s[k]));
            let m = choose|m: int| 0 <= m < t.len() && t[m] == s[k];
            assert(nodes@[m].id@ == names@[m]@);
        }
        assert(are_nodes(nodes@, files, d));
    }
    (nodes, out)
}

proof fn lemma_members_bound(files: Seq<CodeFile>, depth: nat, name: Seq<char>, n: nat)
    ensures
        members_of(files, depth, name, n).len() <= n,
    decreases n,
{
    if n > 0 {
        lemma_members_bound(files, depth, name, (n - 1) as nat);
    }
}

proof fn lemma_members_nonempty(files: Seq<CodeFile>, depth: nat, name: Seq<char>, q: int, n: nat)
    requires
        0 <= q < n,
        group_at(files, depth, q) == name,
    ensures
        members_of(files, depth, name, n).len() > 0,
    decreases n,
{
    if q < n - 1 {
        lemma_members_nonempty(files, depth, name, q, (n - 1) as nat);
    }
}

proof fn lemma_some_crosses(
    files: Seq<CodeFile>,
    edges: Seq<CodeEdge>,
    depth: nat,
    a: Seq<char>,
    b: Seq<char>,
    n: nat,
) -> (k: int)
    requires
        group_weight(files, edges, depth, a, b, n) > 0,
    ensures
        0 <= k < n,
        crosses(files, depth, edges[k], a, b),
    decreases n,
{
    if n == 0 {
        0
    } else if crosses(files, depth, edges[n - 1], a, b) {
        n - 1
    } else {
        lemma_some_crosses(files, edges, depth, a, b, (n - 1) as nat)
    }
}

proof fn lemma_group_has_index(
    files: Seq<CodeFile>,
    depth: nat,
    id: u32,
    t: Seq<Seq<char>>,
    groups: Seq<String>,
)
    requires
        group_of_id(files, depth, id) is Some,
        groups.len() == files.len(),
        ranking::sorted_ids(files).len() == files.len(),
        forall|k: int| 0 <= k < groups.len() ==> (#[trigger] groups[k])@ == group_at(files, depth, k),
        forall|x: Seq<char>| #[trigger] t.contains(x) <==> text::texts(groups).contains(x),
    ensures
        t.contains(group_of_id(files, depth, id).unwrap()),
{
    let ids = ranking::sorted_ids(files);
    ranking::lemma_place_in_range(ids, id, ids.len());
    let k = ranking::place_of(ids, id, ids.len()).unwrap();
    let s = text::texts(groups);
    assert(s[k] == groups[k]@);
    assert(s.contains(s[k]));
}

// ------------------------------------------------------------------ laws

proof fn lemma_members(files: Seq<CodeFile>, depth: nat, name: Seq<char>, n: nat, id: u32)
    ensures
        members_of(files, depth, name, n).contains(FileId(id)) <==> exists|k: int|
            0 <= k < n && #[trigger] ranking::sorted_ids(files)[k] == id && group_at(
                files,
                depth,
                k,
            ) == name,
    decreases n,
{
    let ids = ranking::sorted_ids(files);
    let whole = members_of(files, depth, name, n);
    if n > 0 {
        let m = (n - 1) as nat;
        let before = members_of(files, depth, name, m);
        lemma_members(files, depth, name, m, id);
        if before.contains(FileId(id)) {
            let i = choose|i: int| 0 <= i < before.len() && before[i] == FileId(id);
            assert(whole[i] == FileId(id));
        }
        if whole.contains(FileId(id)) {
            let i = choose|i: int| 0 <= i < whole.len() && whole[i] == FileId(id);
            if i < before.len() {
                assert(before[i] == FileId(id));
            } else {
                assert(ids[n - 1] == id);
            }
        }
        if ids[n - 1] == id && group_at(files, depth, n - 1) == name {
            assert(whole[before.len() as int] == FileId(id));
        }
    }
}

/// A file is a member of the group at a place.
pub open spec fn is_member(nodes: Seq<GroupNode>, m: int, id: u32) -> bool {
    0 <= m < nodes.len() && nodes[m].members@.contains(FileId(id))
}

/// Every file belongs to one group and to no other.
pub proof fn law_groups_partition_files(
    nodes: Seq<GroupNode>,
    files: Seq<CodeFile>,
    depth: nat,
    id: u32,
) -> (m: int)
    requires
        are_nodes(nodes, files, depth),
        graph::unique_files(files),
        files.len() <= usize::MAX,
        graph::known(files, id),
    ensures
        is_member(nodes, m, id),
        forall|k: int| is_member(nodes, k, id) ==> k == m,
{
    let ids = ranking::sorted_ids(files);
    ranking::lemma_sorted_ids_hold(files, id);
    ranking::lemma_sorted_ids_distinct(files);
    let at = choose|k: int| 0 <= k < ids.len() && ids[k] == id;
    let name = group_at(files, depth, at);
    assert(has_node(nodes, name));
    let m = choose|m: int| 0 <= m < nodes.len() && (#[trigger] nodes[m]).id@ == name;
    lemma_members(files, depth, name, files.len(), id);
    assert(ids[at] == id);
    assert forall|k: int| is_member(nodes, k, id) implies k == m by {
        lemma_members(files, depth, nodes[k].id@, files.len(), id);
        let j = choose|j: int|
            0 <= j < files.len() && #[trigger] ids[j] == id && group_at(files, depth, j)
                == nodes[k].id@;
        assert(j == at);
        if k < m {
            assert(nodes[k].id@ != nodes[m].id@);
        } else if m < k {
            assert(nodes[m].id@ != nodes[k].id@);
        }
    }
    m
}

} // verus!
