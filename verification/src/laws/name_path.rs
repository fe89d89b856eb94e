//! Symbols found by their paths of names.

use crate::laws::text as texts;
use crate::name_path;
use crate::name_path::{KindFilter, NamePathMatch};
use crate::text;
use crate::types::{CodeSymbol, SymbolId, SymbolKind};
use vstd::prelude::*;

verus! {

/// The answer holds the symbol at this depth.
pub open spec fn holds(out: Seq<NamePathMatch>, symbol: SymbolId, depth: nat) -> bool {
    exists|k: int|
        0 <= k < out.len() && (#[trigger] out[k]).symbol == symbol && out[k].depth == depth
}

/// The range of `outer` holds that of `inner`, in one file, and is another.
pub open spec fn lies_around(outer: CodeSymbol, inner: CodeSymbol) -> bool {
    &&& outer.file == inner.file
    &&& outer.start_line <= inner.start_line
    &&& inner.end_line <= outer.end_line
    &&& !(outer.start_line == inner.start_line && outer.end_line == inner.end_line)
}

/// `inner` lies in `outer` with no other symbol between them.
pub open spec fn lies_directly_in(
    syms: Seq<CodeSymbol>,
    outer: CodeSymbol,
    inner: CodeSymbol,
) -> bool {
    lies_around(outer, inner) && forall|m: int|
        0 <= m < syms.len() ==> !(lies_around(outer, #[trigger] syms[m]) && lies_around(
            syms[m],
            inner,
        ))
}

proof fn lemma_depth_range(
    syms: Seq<CodeSymbol>,
    hit: Seq<bool>,
    i: int,
    from: nat,
    to: nat,
)
    ensures
        name_path::first_layer(syms, hit, i, from, to) matches Some(d) ==> from <= d <= to
            && name_path::in_layer(syms, hit, d, i) && forall|e: nat|
            from <= e < d ==> !name_path::in_layer(syms, hit, e, i),
        name_path::first_layer(syms, hit, i, from, to) is None ==> forall|e: nat|
            from <= e <= to ==> !name_path::in_layer(syms, hit, e, i),
    decreases to + 1 - from,
{
    if from <= to && !name_path::in_layer(syms, hit, from, i) {
        lemma_depth_range(syms, hit, i, from + 1, to);
    }
}

/// What an answer holds.
proof fn lemma_holds(
    syms: Seq<CodeSymbol>,
    hit: Seq<bool>,
    kind: KindFilter,
    depth: nat,
    i: int,
    d: nat,
)
    requires
        name_path::unique_ids(syms),
        syms.len() <= usize::MAX,
        depth <= 255,
        0 <= i < syms.len(),
    ensures
        holds(name_path::answer(syms, hit, kind, depth), syms[i].id, d) <==> name_path::depth_of(
            syms,
            hit,
            i,
            depth,
        ) == Some(d) && kind.allows(syms[i].kind),
{
    let out = name_path::answer(syms, hit, kind, depth);
    let at = name_path::answer_places(syms, hit, kind, depth);
    name_path::law_answers_are_complete(syms, hit, kind, depth);
    lemma_depth_range(syms, hit, i, 1, depth);
    assert(at.contains(i as usize) <==> name_path::is_reported(syms, hit, kind, depth, i));
    if holds(out, syms[i].id, d) {
        let k = choose|k: int|
            0 <= k < out.len() && (#[trigger] out[k]).symbol == syms[i].id && out[k].depth == d;
        assert(at.contains(at[k]));
        let j = at[k] as int;
        if j < i {
            assert(syms[j].id != syms[i].id);
        } else if i < j {
            assert(syms[i].id != syms[j].id);
        }
        assert(at[k] == i as usize);
    }
    if name_path::depth_of(syms, hit, i, depth) == Some(d) && kind.allows(syms[i].kind) {
        assert(at.contains(i as usize));
        let k = choose|k: int| 0 <= k < at.len() && at[k] == i as usize;
        assert(out[k].symbol == syms[i].id);
        assert(out[k].depth == d as u8);
    }
}

/// A filter by kind keeps of an answer exactly the symbols of that kind, whatever
/// the kind, each at its depth.
pub proof fn law_kinds_are_kept_exactly(
    syms: Seq<CodeSymbol>,
    query: Seq<char>,
    substring: bool,
    kind: SymbolKind,
    depth: nat,
    i: int,
    d: nat,
)
    requires
        name_path::unique_ids(syms),
        syms.len() <= usize::MAX,
        depth <= 255,
        0 <= i < syms.len(),
    ensures
        holds(
            name_path::found(syms, query, substring, KindFilter(Some(kind)), depth),
            syms[i].id,
            d,
        ) <==> holds(
            name_path::found(syms, query, substring, KindFilter(None), depth),
            syms[i].id,
            d,
        ) && syms[i].kind == kind,
{
    let hit = name_path::query_hits(syms, query, substring);
    lemma_holds(syms, hit, KindFilter(Some(kind)), depth, i, d);
    lemma_holds(syms, hit, KindFilter(None), depth, i, d);
}

/// Symbols, from the outside in, whose names are those of a query: each lies
/// around the next one, and `absolute` wants nothing around the first.
pub open spec fn is_path(
    syms: Seq<CodeSymbol>,
    names: Seq<Seq<char>>,
    at: Seq<int>,
    absolute: bool,
    substring: bool,
) -> bool {
    &&& at.len() == names.len() && at.len() > 0
    &&& forall|k: int| 0 <= k < at.len() ==> 0 <= #[trigger] at[k] < syms.len()
    &&& forall|k: int|
        0 <= k < at.len() - 1 ==> text::lowercase(syms[#[trigger] at[k]].name@) == text::lowercase(
            names[k],
        )
    &&& ({
        let own = text::lowercase(syms[at.last()].name@);
        let wanted = text::lowercase(names.last());
        if substring {
            text::contains_text(own, wanted)
        } else {
            own == wanted
        }
    })
    &&& forall|k: int, l: int|
        0 <= k && l == k + 1 && l < at.len() ==> lies_around(
            syms[#[trigger] at[k]],
            syms[#[trigger] at[l]],
        )
    &&& absolute ==> forall|m: int|
        0 <= m < syms.len() ==> !lies_around(#[trigger] syms[m], syms[at[0]])
}

/// Such a path ends at a symbol.
pub open spec fn is_found_at(
    syms: Seq<CodeSymbol>,
    names: Seq<Seq<char>>,
    absolute: bool,
    substring: bool,
    i: int,
) -> bool {
    exists|at: Seq<int>| #[trigger] is_path(syms, names, at, absolute, substring) && at.last() == i
}

proof fn lemma_chain(
    syms: Seq<CodeSymbol>,
    segs: Seq<Seq<char>>,
    target: CodeSymbol,
    i: int,
) -> (at: Seq<int>)
    requires
        0 <= i < syms.len(),
        name_path::stands_for(syms, name_path::folded_names(syms), target, segs, i),
    ensures
        is_outer_chain(syms, segs, target, at),
        at[0] == i,
    decreases segs.len(),
{
    let names = name_path::folded_names(syms);
    if segs.len() == 1 {
        let at = seq![i];
        assert(is_outer_chain(syms, segs, target, at));
        at
    } else {
        let rest = segs.drop_first();
        let j = choose|j: int|
            0 <= j < syms.len() && name_path::encloses(syms[i], #[trigger] syms[j])
                && name_path::stands_for(syms, names, target, rest, j);
        let tail = lemma_chain(syms, rest, target, j);
        let at = seq![i] + tail;
        assert forall|k: int| 0 <= k < at.len() implies 0 <= #[trigger] at[k] < syms.len()
            && names[at[k]] == segs[k] by {
            if k > 0 {
                assert(at[k] == tail[k - 1]);
                assert(names[tail[k - 1]] == rest[k - 1]);
            }
        }
        assert forall|k: int, l: int| 0 <= k && l == k + 1 && l < at.len() implies lies_around(
            syms[#[trigger] at[k]],
            syms[#[trigger] at[l]],
        ) by {
            if k > 0 {
                assert(at[k] == tail[k - 1]);
                assert(at[l] == tail[l - 1]);
                assert(lies_around(syms[tail[k - 1]], syms[tail[l - 1]]));
            }
        }
        assert(at.last() == tail.last());
        at
    }
}

/// Symbols around each other and around `target` whose folded names are `segs`.
spec fn is_outer_chain(
    syms: Seq<CodeSymbol>,
    segs: Seq<Seq<char>>,
    target: CodeSymbol,
    at: Seq<int>,
) -> bool {
    &&& at.len() == segs.len() && at.len() > 0
    &&& forall|k: int|
        0 <= k < at.len() ==> 0 <= #[trigger] at[k] < syms.len() && name_path::folded_names(
            syms,
        )[at[k]] == segs[k]
    &&& forall|k: int, l: int|
        0 <= k && l == k + 1 && l < at.len() ==> lies_around(
            syms[#[trigger] at[k]],
            syms[#[trigger] at[l]],
        )
    &&& lies_around(syms[at.last()], target)
}

proof fn lemma_chain_back(
    syms: Seq<CodeSymbol>,
    segs: Seq<Seq<char>>,
    target: CodeSymbol,
    at: Seq<int>,
)
    requires
        is_outer_chain(syms, segs, target, at),
    ensures
        name_path::stands_for(syms, name_path::folded_names(syms), target, segs, at[0]),
    decreases segs.len(),
{
    assert(0 <= at[0] < syms.len());
    if segs.len() == 1 {
        assert(at.last() == at[0]);
    } else {
        let rest = segs.drop_first();
        let tail = at.drop_first();
        assert forall|k: int| 0 <= k < tail.len() implies 0 <= #[trigger] tail[k] < syms.len()
            && name_path::folded_names(syms)[tail[k]] == rest[k] by {
            assert(tail[k] == at[k + 1]);
        }
        assert forall|k: int, l: int| 0 <= k && l == k + 1 && l < tail.len() implies lies_around(
            syms[#[trigger] tail[k]],
            syms[#[trigger] tail[l]],
        ) by {
            assert(tail[k] == at[k + 1]);
            assert(tail[l] == at[l + 1]);
            assert(lies_around(syms[at[k + 1]], syms[at[l + 1]]));
        }
        assert(tail.last() == at.last());
        lemma_chain_back(syms, rest, target, tail);
        assert(lies_around(syms[at[0]], syms[at[1]]));
        assert(tail[0] == at[1]);
        assert(name_path::encloses(syms[at[0]], syms[at[1]]));
    }
}

proof fn lemma_folded(syms: Seq<CodeSymbol>, query: Seq<char>)
    ensures
        name_path::folded_names(syms).len() == syms.len(),
        name_path::folded_segments(query).len() == name_path::query_segments(query).len(),
        forall|k: int|
            0 <= k < syms.len() ==> #[trigger] name_path::folded_names(syms)[k] == text::lowercase(
                syms[k].name@,
            ),
        forall|k: int|
            0 <= k < name_path::query_segments(query).len()
                ==> #[trigger] name_path::folded_segments(query)[k] == text::lowercase(
                name_path::query_segments(query)[k],
            ),
{
}

/// A symbol matches a query exactly where a path of symbols that lie around each
/// other leads to it whose names are those of the query, whatever the case; with
/// `substring` the last name may be part of the symbol's. Where the query ends
/// with a slash, something lies in the symbol.
pub proof fn law_queries_find_paths(
    syms: Seq<CodeSymbol>,
    query: Seq<char>,
    substring: bool,
    i: int,
)
    requires
        name_path::unique_ids(syms),
        syms.len() <= usize::MAX,
        0 <= i < syms.len(),
    ensures
        holds(
            name_path::found(syms, query, substring, KindFilter(None), 0),
            syms[i].id,
            0,
        ) <==> is_found_at(
            syms,
            name_path::query_segments(query),
            name_path::query_absolute(query),
            substring,
            i,
        ) && (name_path::query_trailing(query) ==> exists|m: int|
            0 <= m < syms.len() && lies_around(syms[i], #[trigger] syms[m])),
{
    let segs = name_path::query_segments(query);
    let folded = name_path::folded_segments(query);
    let names = name_path::folded_names(syms);
    let absolute = name_path::query_absolute(query);
    let hit = name_path::query_hits(syms, query, substring);
    lemma_holds(syms, hit, KindFilter(None), 0, i, 0);
    lemma_folded(syms, query);
    if segs.len() > 0 {
        assert(hit[i] == name_path::is_hit(
            syms,
            names,
            folded,
            absolute,
            name_path::query_trailing(query),
            substring,
            i,
        ));
        let outer = folded.drop_last();
        assert(folded.last() == text::lowercase(segs.last()));
        if name_path::names_agree(names[i], folded.last(), substring) && (if segs.len() == 1 {
            absolute ==> name_path::is_top_level(syms, syms[i])
        } else {
            name_path::path_fits(syms, names, syms[i], outer, absolute)
        }) {
            if segs.len() == 1 {
                let at = seq![i];
                assert(is_path(syms, segs, at, absolute, substring));
                assert(at.last() == i);
            } else {
                let p = choose|p: int|
                    0 <= p < syms.len() && #[trigger] name_path::stands_for(
                        syms,
                        names,
                        syms[i],
                        outer,
                        p,
                    ) && (absolute ==> name_path::is_top_level(syms, syms[p]));
                let above = lemma_chain(syms, outer, syms[i], p);
                let at = above.push(i);
                assert forall|k: int| 0 <= k < at.len() implies 0 <= #[trigger] at[k]
                    < syms.len() by {
                    if k < above.len() {
                        assert(at[k] == above[k]);
                    }
                }
                assert forall|k: int| 0 <= k < at.len() - 1 implies text::lowercase(
                    syms[#[trigger] at[k]].name@,
                ) == text::lowercase(segs[k]) by {
                    assert(at[k] == above[k]);
                    assert(names[above[k]] == outer[k]);
                }
                assert forall|k: int, l: int|
                    0 <= k && l == k + 1 && l < at.len() implies lies_around(
                    syms[#[trigger] at[k]],
                    syms[#[trigger] at[l]],
                ) by {
                    assert(at[k] == above[k]);
                    if l < above.len() {
                        assert(at[l] == above[l]);
                        assert(lies_around(syms[above[k]], syms[above[l]]));
                    } else {
                        assert(above[k] == above.last());
                    }
                }
                assert(at[0] == above[0]);
                assert(is_path(syms, segs, at, absolute, substring));
                assert(at.last() == i);
            }
        }
        if is_found_at(syms, segs, absolute, substring, i) {
            let at = choose|at: Seq<int>| #[trigger]
                is_path(syms, segs, at, absolute, substring) && at.last() == i;
            if segs.len() == 1 {
                assert(at[0] == i);
                assert(at.last() == at[0]);
            } else {
                let above = at.drop_last();
                assert forall|k: int| 0 <= k < above.len() implies 0 <= #[trigger] above[k]
                    < syms.len() && names[above[k]] == outer[k] by {
                    assert(above[k] == at[k]);
                }
                assert forall|k: int, l: int|
                    0 <= k && l == k + 1 && l < above.len() implies lies_around(
                    syms[#[trigger] above[k]],
                    syms[#[trigger] above[l]],
                ) by {
                    assert(above[k] == at[k] && above[l] == at[l]);
                }
                let last = at.len() - 1;
                assert(above.last() == at[last - 1]);
                assert(lies_around(syms[at[last - 1]], syms[at[last]]));
                lemma_chain_back(syms, outer, syms[i], above);
                assert(above[0] == at[0]);
            }
        }
    }
}

/// Without a depth, what is found is found as it is. With one, what lies directly
/// in a match is found at depth 1, and what lies directly in something found at
/// one depth is found at the next, or at a lesser one. Nothing else is found.
pub proof fn law_depths_go_down_by_layers(
    syms: Seq<CodeSymbol>,
    query: Seq<char>,
    substring: bool,
    depth: nat,
    i: int,
    d: nat,
)
    requires
        name_path::unique_ids(syms),
        syms.len() <= usize::MAX,
        0 < depth <= 255,
        0 <= i < syms.len(),
    ensures
        ({
            let hits = name_path::found(syms, query, substring, KindFilter(None), 0);
            let out = name_path::found(syms, query, substring, KindFilter(None), depth);
            &&& holds(hits, syms[i].id, d) ==> d == 0
            &&& holds(out, syms[i].id, d) ==> 1 <= d <= depth
            &&& holds(out, syms[i].id, 1) <==> exists|p: int|
                0 <= p < syms.len() && holds(hits, (#[trigger] syms[p]).id, 0) && lies_directly_in(
                    syms,
                    syms[p],
                    syms[i],
                )
            &&& d > 1 && holds(out, syms[i].id, d) ==> exists|p: int|
                0 <= p < syms.len() && holds(out, (#[trigger] syms[p]).id, (d - 1) as nat)
                    && lies_directly_in(syms, syms[p], syms[i])
            &&& forall|p: int|
                0 <= p < syms.len() && d < depth && holds(out, (#[trigger] syms[p]).id, d)
                    && lies_directly_in(syms, syms[p], syms[i]) ==> exists|e: nat|
                    e <= d + 1 && #[trigger] holds(out, syms[i].id, e)
        }),
{
    let hit = name_path::query_hits(syms, query, substring);
    let all = KindFilter(None);
    let out = name_path::found(syms, query, substring, all, depth);
    let hits = name_path::found(syms, query, substring, all, 0);
    if name_path::query_segments(query).len() > 0 {
        assert forall|p: int, e: nat|
            0 <= p < syms.len() implies #[trigger] holds(out, syms[p].id, e) == (
        name_path::depth_of(syms, hit, p, depth) == Some(e)) by {
            lemma_holds(syms, hit, all, depth, p, e);
        }
        assert forall|p: int| 0 <= p < syms.len() implies #[trigger] holds(
            hits,
            syms[p].id,
            0,
        ) == hit[p] by {
            lemma_holds(syms, hit, all, 0, p, 0);
        }
        lemma_holds(syms, hit, all, 0, i, d);
        lemma_depth_range(syms, hit, i, 1, depth);
        assert forall|p: int| 0 <= p < syms.len() implies name_path::is_child(
            syms,
            #[trigger] syms[p],
            syms[i],
        ) == lies_directly_in(syms, syms[p], syms[i]) by {
            lemma_child(syms, p, i);
        }
        assert(name_path::in_layer(syms, hit, 1, i) <==> exists|p: int|
            0 <= p < syms.len() && name_path::is_child(syms, #[trigger] syms[p], syms[i])
                && name_path::in_layer(syms, hit, 0, p));
        if holds(out, syms[i].id, 1) {
            let p = choose|p: int|
                0 <= p < syms.len() && name_path::is_child(syms, #[trigger] syms[p], syms[i])
                    && name_path::in_layer(syms, hit, 0, p);
            assert(holds(hits, syms[p].id, 0));
        }
        if exists|p: int|
            0 <= p < syms.len() && holds(hits, (#[trigger] syms[p]).id, 0) && lies_directly_in(
                syms,
                syms[p],
                syms[i],
            ) {
            let p = choose|p: int|
                0 <= p < syms.len() && holds(hits, (#[trigger] syms[p]).id, 0) && lies_directly_in(
                    syms,
                    syms[p],
                    syms[i],
                );
            assert(name_path::is_child(syms, syms[p], syms[i]));
            assert(name_path::in_layer(syms, hit, 0, p));
            assert(name_path::in_layer(syms, hit, 1, i));
            assert(holds(out, syms[i].id, 1));
        }
        if d > 1 && holds(out, syms[i].id, d) {
            let e = (d - 1) as nat;
            assert(name_path::in_layer(syms, hit, d, i));
            let p = choose|p: int|
                0 <= p < syms.len() && name_path::is_child(syms, #[trigger] syms[p], syms[i])
                    && name_path::in_layer(syms, hit, e, p);
            lemma_depth_range(syms, hit, p, 1, depth);
            let f = name_path::first_layer(syms, hit, p, 1, depth).unwrap();
            if f < e {
                assert(name_path::in_layer(syms, hit, f + 1, i));
                assert(false);
            }
            assert(holds(out, syms[p].id, e));
        }
        assert forall|p: int|
            0 <= p < syms.len() && d < depth && holds(out, (#[trigger] syms[p]).id, d)
                && lies_directly_in(syms, syms[p], syms[i]) implies exists|e: nat|
            e <= d + 1 && #[trigger] holds(out, syms[i].id, e) by {
            lemma_depth_range(syms, hit, p, 1, depth);
            assert(name_path::is_child(syms, syms[p], syms[i]));
            assert(name_path::in_layer(syms, hit, d, p));
            assert(name_path::in_layer(syms, hit, d + 1, i));
            let e = name_path::first_layer(syms, hit, i, 1, depth).unwrap();
            assert(holds(out, syms[i].id, e));
        }
    }
}

proof fn lemma_child(syms: Seq<CodeSymbol>, p: int, i: int)
    requires
        0 <= p < syms.len(),
    ensures
        name_path::is_child(syms, syms[p], syms[i]) == lies_directly_in(syms, syms[p], syms[i]),
{
    if name_path::stands_between(syms, syms[p], syms[i]) {
        let m = choose|m: int|
            0 <= m < syms.len() && name_path::encloses(syms[p], #[trigger] syms[m])
                && name_path::encloses(syms[m], syms[i]);
        assert(lies_around(syms[p], syms[m]) && lies_around(syms[m], syms[i]));
    } else {
        assert forall|m: int| 0 <= m < syms.len() implies !(lies_around(
            syms[p],
            #[trigger] syms[m],
        ) && lies_around(syms[m], syms[i])) by {
            if lies_around(syms[p], syms[m]) && lies_around(syms[m], syms[i]) {
                assert(name_path::encloses(syms[p], syms[m]));
                assert(name_path::encloses(syms[m], syms[i]));
            }
        }
    }
}

/// The order of what is found: by file, then by first line, by name, by last line
/// and by number.
pub open spec fn comes_before(a: CodeSymbol, b: CodeSymbol) -> bool {
    &&& a.file.0 <= b.file.0
    &&& a.file.0 == b.file.0 ==> a.start_line <= b.start_line
    &&& a.file.0 == b.file.0 && a.start_line == b.start_line ==> text::text_le(a.name@, b.name@)
    &&& a.file.0 == b.file.0 && a.start_line == b.start_line && a.name@ == b.name@ ==> a.end_line
        <= b.end_line
    &&& a.file.0 == b.file.0 && a.start_line == b.start_line && a.name@ == b.name@ && a.end_line
        == b.end_line ==> a.id.0 < b.id.0
}

/// What is found stands in the order of files, lines and names, each symbol once,
/// and all of it are symbols that were given.
pub proof fn law_answers_stand_in_order(
    syms: Seq<CodeSymbol>,
    query: Seq<char>,
    substring: bool,
    kind: KindFilter,
    depth: nat,
    j: int,
    k: int,
) -> (at: (int, int))
    requires
        name_path::unique_ids(syms),
        syms.len() <= usize::MAX,
        depth <= 255,
        0 <= j < k < name_path::found(syms, query, substring, kind, depth).len(),
    ensures
        0 <= at.0 < syms.len(),
        0 <= at.1 < syms.len(),
        at.0 != at.1,
        name_path::found(syms, query, substring, kind, depth)[j].symbol == syms[at.0].id,
        name_path::found(syms, query, substring, kind, depth)[k].symbol == syms[at.1].id,
        comes_before(syms[at.0], syms[at.1]),
{
    let hit = name_path::query_hits(syms, query, substring);
    let at = name_path::answer_places(syms, hit, kind, depth);
    name_path::law_answers_are_complete(syms, hit, kind, depth);
    assert(at.contains(at[j]) && at.contains(at[k]));
    let a = at[j] as int;
    let b = at[k] as int;
    let out = name_path::answer(syms, hit, kind, depth);
    assert(out[j].symbol != out[k].symbol);
    assert(name_path::place_order(syms)(at[j], at[k]));
    assert(syms[a].id != syms[b].id);
    text::lemma_text_le_total(syms[a].name@, syms[b].name@);
    (a, b)
}

// --------------------------------------------------------------- queries

/// The names of a query are what slashes part, without white space around them,
/// empty ones left out: those before a slash and then those behind it.
pub proof fn law_slashes_part_names(a: Seq<char>, b: Seq<char>)
    ensures
        name_path::query_segments(a.push('/') + b) == name_path::query_segments(a)
            + name_path::query_segments(b),
        !a.contains('/') ==> name_path::query_segments(a) == (if text::trimmed(a).len() == 0 {
            Seq::<Seq<char>>::empty()
        } else {
            seq![text::trimmed(a)]
        }),
{
    let whole = a.push('/') + b;
    lemma_segments_untrimmed(whole);
    lemma_segments_untrimmed(a);
    lemma_segments_untrimmed(b);
    texts::law_texts_are_cut_everywhere(a, b, '/');
    lemma_named_add(text::pieces(a, '/'), text::pieces(b, '/'));
    if !a.contains('/') {
        assert(seq![a].drop_last() =~= Seq::<Seq<char>>::empty());
        assert(name_path::named_pieces(seq![a].drop_last()) =~= Seq::<Seq<char>>::empty());
        assert(seq![a].last() == a);
    }
}

proof fn lemma_named_add(a: Seq<Seq<char>>, b: Seq<Seq<char>>)
    ensures
        name_path::named_pieces(a + b) == name_path::named_pieces(a) + name_path::named_pieces(b),
    decreases b.len(),
{
    if b.len() == 0 {
        assert(a + b =~= a);
        assert(name_path::named_pieces(a) + name_path::named_pieces(b) =~= name_path::named_pieces(
            a,
        ));
    } else {
        lemma_named_add(a, b.drop_last());
        assert((a + b).drop_last() =~= a + b.drop_last());
        assert(name_path::named_pieces(a + b) =~= name_path::named_pieces(a)
            + name_path::named_pieces(b));
    }
}

/// White space around a query is white space around its names.
proof fn lemma_segments_untrimmed(q: Seq<char>)
    ensures
        name_path::query_segments(q) == name_path::named_pieces(text::pieces(q, '/')),
{
    lemma_start_trimmed(q);
    lemma_end_trimmed(text::trimmed_start(q));
}

proof fn lemma_start_trimmed(q: Seq<char>)
    ensures
        name_path::named_pieces(text::pieces(text::trimmed_start(q), '/'))
            == name_path::named_pieces(text::pieces(q, '/')),
    decreases q.len(),
{
    if q.len() > 0 && text::is_white_space(q[0]) {
        let rest = q.drop_first();
        lemma_start_trimmed(rest);
        lemma_pieces_grow(q);
        let parts = text::pieces(rest, '/');
        let first = seq![q[0]] + parts[0];
        text::lemma_pieces_nonempty(rest, '/');
        assert(first.drop_first() =~= parts[0]);
        assert(text::trimmed(first) == text::trimmed(parts[0]));
        let tail = parts.drop_first();
        assert(parts =~= seq![parts[0]] + tail);
        assert(text::pieces(q, '/') =~= seq![first] + tail);
        lemma_named_add(seq![parts[0]], tail);
        lemma_named_add(seq![first], tail);
        assert(seq![first].drop_last() =~= seq![parts[0]].drop_last());
        assert(seq![first].last() == first);
        assert(seq![parts[0]].last() == parts[0]);
    }
}

proof fn lemma_pieces_grow(q: Seq<char>)
    requires
        q.len() > 0,
        q[0] != '/',
    ensures
        text::pieces(q, '/') == text::pieces(q.drop_first(), '/').update(
            0,
            seq![q[0]] + text::pieces(q.drop_first(), '/')[0],
        ),
    decreases q.len(),
{
    let rest = q.drop_first();
    text::lemma_pieces_nonempty(rest, '/');
    if q.len() == 1 {
        assert(rest =~= Seq::<char>::empty());
        assert(q.drop_last() =~= Seq::<char>::empty());
        assert(Seq::<char>::empty().push(q[0]) =~= seq![q[0]] + Seq::<char>::empty());
        assert(text::pieces(q, '/') =~= text::pieces(rest, '/').update(
            0,
            seq![q[0]] + text::pieces(rest, '/')[0],
        ));
    } else {
        lemma_pieces_grow(q.drop_last());
        assert(q.drop_last().drop_first() =~= rest.drop_last());
        text::lemma_pieces_nonempty(rest.drop_last(), '/');
        let before = text::pieces(rest.drop_last(), '/');
        if before.len() == 1 {
            assert((seq![q[0]] + before[0]).push(q.last()) =~= seq![q[0]] + before[0].push(
                q.last(),
            ));
        }
        assert(text::pieces(q, '/') =~= text::pieces(rest, '/').update(
            0,
            seq![q[0]] + text::pieces(rest, '/')[0],
        ));
    }
}

proof fn lemma_end_trimmed(q: Seq<char>)
    ensures
        name_path::named_pieces(text::pieces(text::trimmed_end(q), '/'))
            == name_path::named_pieces(text::pieces(q, '/')),
    decreases q.len(),
{
    if q.len() > 0 && text::is_white_space(q.last()) {
        let front = q.drop_last();
        lemma_end_trimmed(front);
        text::lemma_pieces_nonempty(front, '/');
        let parts = text::pieces(front, '/');
        let last = parts.last().push(q.last());
        lemma_trimmed_push(parts.last(), q.last());
        assert(text::pieces(q, '/') =~= parts.drop_last().push(last));
        assert(text::pieces(q, '/').drop_last() =~= parts.drop_last());
        assert(text::pieces(q, '/').last() == last);
    }
}

proof fn lemma_trimmed_push(s: Seq<char>, c: char)
    requires
        text::is_white_space(c),
    ensures
        text::trimmed(s.push(c)) == text::trimmed(s),
    decreases s.len(),
{
    let t = s.push(c);
    if s.len() == 0 {
        assert(t.drop_first() =~= s);
        assert(text::trimmed_start(t) == text::trimmed_start(t.drop_first()));
    } else if text::is_white_space(s[0]) {
        assert(t.drop_first() =~= s.drop_first().push(c));
        lemma_trimmed_push(s.drop_first(), c);
    } else {
        assert(t[0] == s[0]);
        assert(t.drop_last() =~= s);
    }
}

/// A query is absolute exactly where a slash is the first thing in it that is no
/// white space, and wants a container exactly where one is the last.
pub proof fn law_outer_slashes_count(query: Seq<char>, a: int, b: int)
    requires
        0 <= a < b <= query.len(),
        forall|k: int| 0 <= k < a ==> text::is_white_space(#[trigger] query[k]),
        forall|k: int| b <= k < query.len() ==> text::is_white_space(#[trigger] query[k]),
        !text::is_white_space(query[a]),
        !text::is_white_space(query[b - 1]),
    ensures
        name_path::query_absolute(query) == (query[a] == '/'),
        name_path::query_trailing(query) == (query[b - 1] == '/'),
{
    let (x, y) = texts::law_trimming_takes_white_space_off_the_ends(query);
    assert(x <= a) by {
        if a < x {
            assert(text::is_white_space(query[a]));
        }
    }
    assert(y >= b) by {
        if y < b {
            assert(text::is_white_space(query[b - 1]));
        }
    }
    if x < a {
        assert(text::is_white_space(query[x]));
    }
    if y > b {
        assert(text::is_white_space(query[y - 1]));
    }
}

} // verus!
