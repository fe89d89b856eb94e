//! Files folded into groups, and imports between the groups.

use crate::graph;
use crate::graph::CodeGraph;
use crate::group_graph;
use crate::group_graph::{GroupEdge, GroupNode};
use crate::laws::text as texts;
use crate::order;
use crate::paths;
use crate::ranking;
use crate::text;
use crate::types::{CodeEdge, CodeFile, EdgeKind, FileId, RelPath};
use vstd::prelude::*;

verus! {

/// How many slashes a text has.
pub open spec fn slashes(s: Seq<char>) -> nat
    decreases s.len(),
{
    if s.len() == 0 {
        0
    } else {
        slashes(s.drop_last()) + (if s.last() == '/' {
            1nat
        } else {
            0nat
        })
    }
}

proof fn lemma_slashes_add(a: Seq<char>, b: Seq<char>)
    ensures
        slashes(a + b) == slashes(a) + slashes(b),
    decreases b.len(),
{
    if b.len() == 0 {
        assert(a + b =~= a);
    } else {
        lemma_slashes_add(a, b.drop_last());
        assert((a + b).drop_last() =~= a + b.drop_last());
    }
}

proof fn lemma_no_slashes(s: Seq<char>)
    ensures
        slashes(s) == 0 <==> !s.contains('/'),
    decreases s.len(),
{
    if s.len() > 0 {
        let t = s.drop_last();
        lemma_no_slashes(t);
        if t.contains('/') {
            let k = choose|k: int| 0 <= k < t.len() && t[k] == '/';
            assert(s[k] == '/');
        }
        if s.contains('/') {
            let k = choose|k: int| 0 <= k < s.len() && s[k] == '/';
            if k < t.len() {
                assert(t[k] == '/');
            }
        }
        if s.last() == '/' {
            assert(s[s.len() - 1] == '/');
        }
    }
}

proof fn lemma_joined_front(a: Seq<char>, rest: Seq<Seq<char>>)
    requires
        rest.len() > 0,
    ensures
        paths::joined(seq![a] + rest) == a.push('/') + paths::joined(rest),
    decreases rest.len(),
{
    let all = seq![a] + rest;
    assert(all.drop_last() =~= seq![a] + rest.drop_last());
    assert(all.last() == rest.last());
    if rest.len() == 1 {
        assert(all.drop_last() =~= seq![a]);
        assert(paths::joined(all.drop_last()) == a);
        assert(paths::joined(all) =~= a.push('/') + paths::joined(rest));
    } else {
        lemma_joined_front(a, rest.drop_last());
        assert(paths::joined(all) =~= a.push('/') + paths::joined(rest));
    }
}

/// Cuts a path at its first slash.
proof fn lemma_first_slash(path: Seq<char>) -> (k: int)
    requires
        path.contains('/'),
    ensures
        0 <= k < path.len(),
        path[k] == '/',
        !path.take(k).contains('/'),
    decreases path.len(),
{
    let t = path.drop_last();
    if t.contains('/') {
        let k = lemma_first_slash(t);
        assert(t.take(k) =~= path.take(k));
        k
    } else {
        let k = path.len() - 1;
        assert(path.take(k) =~= t);
        let j = choose|j: int| 0 <= j < path.len() && path[j] == '/';
        if j < k {
            assert(t[j] == '/');
        }
        k
    }
}

/// The first pieces of a path, joined, are what it starts with.
proof fn lemma_leading_pieces(path: Seq<char>, n: nat)
    requires
        0 < n <= slashes(path),
    ensures
        text::pieces(path, '/').len() == slashes(path) + 1,
        ({
            let lead = paths::joined(text::pieces(path, '/').take(n as int));
            &&& lead.len() < path.len()
            &&& lead == path.take(lead.len() as int)
            &&& path[lead.len() as int] == '/'
            &&& slashes(lead) == n - 1
        }),
    decreases path.len(),
{
    lemma_no_slashes(path);
    let k = lemma_first_slash(path);
    let a = path.take(k);
    let b = path.skip(k + 1);
    assert(path =~= a.push('/') + b);
    texts::law_texts_are_cut_everywhere(a, b, '/');
    lemma_slashes_add(a.push('/'), b);
    lemma_no_slashes(a);
    assert(a.push('/').drop_last() =~= a);
    let rest = text::pieces(b, '/');
    let all = text::pieces(path, '/');
    assert(all =~= seq![a] + rest);
    lemma_pieces_count(b);
    if n == 1 {
        assert(all.take(1) =~= seq![a]);
        assert(paths::joined(seq![a]) == a);
    } else {
        let m = (n - 1) as nat;
        lemma_leading_pieces(b, m);
        assert(all.take(n as int) =~= seq![a] + rest.take(m as int));
        lemma_joined_front(a, rest.take(m as int));
        let tail = paths::joined(rest.take(m as int));
        let lead = a.push('/') + tail;
        lemma_slashes_add(a.push('/'), tail);
        assert(lead =~= path.take(lead.len() as int));
        assert(path[lead.len() as int] == b[tail.len() as int]);
    }
}

proof fn lemma_pieces_count(s: Seq<char>)
    ensures
        text::pieces(s, '/').len() == slashes(s) + 1,
    decreases s.len(),
{
    if s.len() > 0 {
        lemma_pieces_count(s.drop_last());
    }
}

/// The group of a path is `(root)` only where the path has no slash. Otherwise it
/// is what the path starts with, up to one of its slashes: as many directories as
/// `depth` says, or all that it has.
pub proof fn law_groups_are_leading_directories(path: &RelPath, depth: u8, out: String)
    requires
        depth > 0,
        call_ensures(group_graph::group_of, (path, depth), out),
    ensures
        slashes(path@) == 0 ==> out@ == "(root)"@,
        slashes(path@) > 0 ==> {
            &&& out@.len() < path@.len()
            &&& out@ == path@.take(out@.len() as int)
            &&& path@[out@.len() as int] == '/'
            &&& slashes(out@) + 1 == (if slashes(path@) < depth {
                slashes(path@)
            } else {
                depth as nat
            })
        },
{
    lemma_group_text(path@, depth as nat);
}

proof fn lemma_group_text(path: Seq<char>, depth: nat)
    requires
        depth > 0,
    ensures
        slashes(path) == 0 ==> group_graph::group_text(path, depth) == "(root)"@,
        slashes(path) > 0 ==> ({
            let out = group_graph::group_text(path, depth);
            &&& out.len() < path.len()
            &&& out == path.take(out.len() as int)
            &&& path[out.len() as int] == '/'
            &&& slashes(out) + 1 == (if slashes(path) < depth {
                slashes(path)
            } else {
                depth
            })
        }),
{
    lemma_pieces_count(path);
    let dirs = text::pieces(path, '/').drop_last();
    if slashes(path) > 0 {
        let n = if slashes(path) < depth {
            slashes(path)
        } else {
            depth
        };
        lemma_leading_pieces(path, n);
        assert(dirs.take(n as int) =~= text::pieces(path, '/').take(n as int));
        if dirs.len() < depth {
            assert(dirs =~= dirs.take(n as int));
        }
    }
}

/// Depths are brought into `1 ..= 3`.
pub proof fn law_group_depths_are_one_to_three(depth: u8)
    ensures
        1 <= group_graph::group_depth(depth) <= 3,
        1 <= depth <= 3 ==> group_graph::group_depth(depth) == depth,
        depth == 0 ==> group_graph::group_depth(depth) == 1,
        depth > 3 ==> group_graph::group_depth(depth) == 3,
{
}

/// The group of a file of the graph is that of its path.
proof fn lemma_group_of_file(files: Seq<CodeFile>, depth: nat, k: int)
    requires
        graph::unique_files(files),
        files.len() <= usize::MAX,
        0 <= k < files.len(),
    ensures
        group_graph::group_of_id(files, depth, files[k].id.0) == Some(
            group_graph::group_text(files[k].path@, depth),
        ),
        exists|i: int|
            0 <= i < files.len() && #[trigger] ranking::sorted_positions(files)[i] == k,
{
    let all = Seq::new(files.len(), |i: int| i as usize);
    let at = ranking::sorted_positions(files);
    let ids = ranking::sorted_ids(files);
    ranking::lemma_file_order(files);
    order::lemma_arranged(all, ranking::file_order(files));
    ranking::lemma_sorted_ids_distinct(files);
    assert(all[k] == k as usize);
    assert(all.contains(k as usize));
    assert(at.contains(k as usize));
    let i = choose|i: int| 0 <= i < at.len() && at[i] == k as usize;
    assert(ids[i] == files[k].id.0);
    ranking::lemma_place_of_distinct(ids, i);
    assert(ranking::sorted_positions(files)[i] == k);
}

/// Every file is a member of the node that is named by the group of its path.
pub proof fn law_files_stand_in_the_group_of_their_path(
    g: &CodeGraph,
    depth: u8,
    r: (Vec<GroupNode>, Vec<GroupEdge>),
    k: int,
    name: String,
) -> (m: int)
    requires
        call_ensures(group_graph::group_graph, (g, depth), r),
        graph::unique_files(g.files@),
        g.files@.len() <= usize::MAX,
        0 <= k < g.files@.len(),
        call_ensures(
            group_graph::group_of,
            (&g.files@[k].path, group_graph::group_depth(depth) as u8),
            name,
        ),
    ensures
        0 <= m < r.0@.len(),
        r.0@[m].id@ == name@,
        r.0@[m].members@.contains(g.files@[k].id),
        forall|n: int|
            0 <= n < r.0@.len() && (#[trigger] r.0@[n]).members@.contains(g.files@[k].id) ==> n
                == m,
        forall|n: int| 0 <= n < r.0@.len() ==> (#[trigger] r.0@[n]).files == r.0@[n].members@.len(),
        forall|n: int, o: int|
            0 <= n < o < r.0@.len() ==> text::text_le(
                (#[trigger] r.0@[n]).id@,
                (#[trigger] r.0@[o]).id@,
            ) && r.0@[n].id@ != r.0@[o].id@,
{
    let files = g.files@;
    let d = group_graph::group_depth(depth);
    let id = files[k].id.0;
    lemma_group_of_file(files, d, k);
    ranking::lemma_sorted_ids_hold(files, id);
    let i = choose|i: int|
        0 <= i < files.len() && #[trigger] ranking::sorted_positions(files)[i] == k;
    assert(group_graph::group_at(files, d, i) == name@);
    assert(group_graph::has_node(r.0@, group_graph::group_at(files, d, i)));
    let m = group_graph::law_groups_partition_files(r.0@, files, d, id);
    let o = choose|o: int| 0 <= o < r.0@.len() && (#[trigger] r.0@[o]).id@ == name@;
    lemma_member(files, d, name@, i, files.len());
    assert(ranking::sorted_ids(files)[i] == id);
    assert(r.0@[o].members@.contains(FileId(id)));
    assert(group_graph::is_member(r.0@, o, id));
    assert forall|n: int|
        0 <= n < r.0@.len() && (#[trigger] r.0@[n]).members@.contains(files[k].id) implies n
        == m by {
        assert(group_graph::is_member(r.0@, n, id));
    }
    m
}

proof fn lemma_member(files: Seq<CodeFile>, depth: nat, name: Seq<char>, i: int, n: nat)
    requires
        0 <= i < n,
        group_graph::group_at(files, depth, i) == name,
    ensures
        group_graph::members_of(files, depth, name, n).contains(
            FileId(ranking::sorted_ids(files)[i]),
        ),
    decreases n,
{
    let now = group_graph::members_of(files, depth, name, n);
    let before = group_graph::members_of(files, depth, name, (n - 1) as nat);
    let x = FileId(ranking::sorted_ids(files)[i]);
    if i < n - 1 {
        lemma_member(files, depth, name, i, (n - 1) as nat);
        let k = choose|k: int| 0 <= k < before.len() && before[k] == x;
        assert(now[k] == x);
    } else {
        assert(now[before.len() as int] == x);
    }
}

/// An import from a file of one group to a file of another: the files are those
/// with the numbers of its ends.
pub open spec fn crosses_between(
    files: Seq<CodeFile>,
    e: CodeEdge,
    depth: nat,
    a: Seq<char>,
    b: Seq<char>,
) -> bool {
    &&& e.kind == EdgeKind::Import
    &&& exists|k: int|
        0 <= k < files.len() && (#[trigger] files[k]).id.0 == e.from && group_graph::group_text(
            files[k].path@,
            depth,
        ) == a
    &&& exists|k: int|
        0 <= k < files.len() && (#[trigger] files[k]).id.0 == e.to && group_graph::group_text(
            files[k].path@,
            depth,
        ) == b
}

/// What the imports among the first `n` edges that cross between two groups weigh;
/// one without a weight weighs 1.
pub open spec fn crossing_weight(
    files: Seq<CodeFile>,
    edges: Seq<CodeEdge>,
    depth: nat,
    a: Seq<char>,
    b: Seq<char>,
    n: nat,
) -> int
    decreases n,
{
    if n == 0 {
        0
    } else {
        let e = edges[n - 1];
        crossing_weight(files, edges, depth, a, b, (n - 1) as nat) + (if crosses_between(
            files,
            e,
            depth,
            a,
            b,
        ) {
            if e.weight > 1 {
                e.weight as int
            } else {
                1
            }
        } else {
            0
        })
    }
}

proof fn lemma_crosses(
    files: Seq<CodeFile>,
    e: CodeEdge,
    depth: nat,
    a: Seq<char>,
    b: Seq<char>,
)
    requires
        graph::unique_files(files),
        files.len() <= usize::MAX,
        a != b,
    ensures
        group_graph::crosses(files, depth, e, a, b) == crosses_between(files, e, depth, a, b),
{
    lemma_grouped(files, depth, e.from, a);
    lemma_grouped(files, depth, e.to, b);
}

proof fn lemma_grouped(files: Seq<CodeFile>, depth: nat, id: u32, a: Seq<char>)
    requires
        graph::unique_files(files),
        files.len() <= usize::MAX,
    ensures
        group_graph::group_of_id(files, depth, id) == Some(a) <==> exists|k: int|
            0 <= k < files.len() && (#[trigger] files[k]).id.0 == id && group_graph::group_text(
                files[k].path@,
                depth,
            ) == a,
{
    let ids = ranking::sorted_ids(files);
    if group_graph::group_of_id(files, depth, id) is Some {
        ranking::lemma_place_in_range(ids, id, ids.len());
        ranking::lemma_sorted_ids_hold(files, id);
        let p = ranking::place_of(ids, id, ids.len()).unwrap();
        assert(ids.contains(ids[p]));
        let k = choose|k: int| 0 <= k < files.len() && (#[trigger] files[k]).id.0 == id;
        lemma_group_of_file(files, depth, k);
    }
    if exists|k: int|
        0 <= k < files.len() && (#[trigger] files[k]).id.0 == id && group_graph::group_text(
            files[k].path@,
            depth,
        ) == a {
        let k = choose|k: int|
            0 <= k < files.len() && (#[trigger] files[k]).id.0 == id && group_graph::group_text(
                files[k].path@,
                depth,
            ) == a;
        lemma_group_of_file(files, depth, k);
    }
}

proof fn lemma_crossing_weight(
    files: Seq<CodeFile>,
    edges: Seq<CodeEdge>,
    depth: nat,
    a: Seq<char>,
    b: Seq<char>,
    n: nat,
)
    requires
        graph::unique_files(files),
        files.len() <= usize::MAX,
        n <= edges.len(),
    ensures
        a != b ==> group_graph::group_weight(files, edges, depth, a, b, n) == crossing_weight(
            files,
            edges,
            depth,
            a,
            b,
            n,
        ),
        a == b ==> group_graph::group_weight(files, edges, depth, a, b, n) == 0,
    decreases n,
{
    if n > 0 {
        lemma_crossing_weight(files, edges, depth, a, b, (n - 1) as nat);
        if a != b {
            lemma_crosses(files, edges[n - 1], depth, a, b);
        }
    }
}

/// Two groups are joined by an edge exactly where an import crosses from the one
/// to the other, and its weight is what those imports weigh together. No edge
/// joins a group to itself, and none stands twice.
pub proof fn law_group_edges_weigh_crossing_imports(
    g: &CodeGraph,
    depth: u8,
    r: (Vec<GroupNode>, Vec<GroupEdge>),
    a: Seq<char>,
    b: Seq<char>,
)
    requires
        call_ensures(group_graph::group_graph, (g, depth), r),
        graph::unique_files(g.files@),
        g.files@.len() <= usize::MAX,
    ensures
        ({
            let d = group_graph::group_depth(depth);
            let weight = crossing_weight(g.files@, g.edges@, d, a, b, g.edges@.len());
            &&& (exists|k: int|
                0 <= k < r.1@.len() && (#[trigger] r.1@[k]).from@ == a && r.1@[k].to@ == b) <==> a
                != b && weight > 0
            &&& forall|k: int|
                0 <= k < r.1@.len() && (#[trigger] r.1@[k]).from@ == a && r.1@[k].to@ == b
                    ==> r.1@[k].weight == weight
        }),
        forall|i: int, j: int|
            0 <= i < j < r.1@.len() ==> (#[trigger] r.1@[i]).from@ != (#[trigger] r.1@[j]).from@
                || r.1@[i].to@ != r.1@[j].to@,
{
    let d = group_graph::group_depth(depth);
    lemma_crossing_weight(g.files@, g.edges@, d, a, b, g.edges@.len());
    assert(group_graph::group_weight(g.files@, g.edges@, d, a, b, g.edges@.len()) > 0
        ==> exists|k: int|
        0 <= k < r.1@.len() && (#[trigger] r.1@[k]).from@ == a && r.1@[k].to@ == b);
}

} // verus!
