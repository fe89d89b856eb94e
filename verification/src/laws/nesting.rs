//! Names and nested symbols, one at a time.

use crate::laws;
use crate::laws::name_path::lies_around;
use crate::name_path;
use crate::name_path::{KindFilter, Query};
use crate::order;
use crate::text;
use crate::types::CodeSymbol;
use vstd::prelude::*;

verus! {

/// A filter without a kind accepts every symbol; one with a kind those of that kind
/// and no others.
pub proof fn law_filters_accept_their_kind(filter: KindFilter, sym: &CodeSymbol, r: bool)
    requires
        call_ensures(KindFilter::accepts, (filter, sym), r),
    ensures
        filter.0 is None ==> r,
        filter.0 matches Some(kind) ==> (r <==> kind == sym.kind),
{
}

/// A name matches a segment that is the same, letter case aside; where parts count,
/// one that stands in it.
pub proof fn law_names_match_without_case(
    name: &str,
    seg: &str,
    exact: bool,
    part: bool,
)
    requires
        call_ensures(name_path::name_matches, (name, seg, false), exact),
        call_ensures(name_path::name_matches, (name, seg, true), part),
    ensures
        exact <==> text::lowercase(name@) == text::lowercase(seg@),
        part <==> laws::text::runs_somewhere(text::lowercase(name@), text::lowercase(seg@)),
        exact ==> part,
{
    let a = text::lowercase(name@);
    let b = text::lowercase(seg@);
    laws::text::law_texts_hold_what_stands_in_them(a, b);
    if exact {
        assert(laws::text::runs_from(a, b, 0));
    }
}

proof fn lemma_around(outer: CodeSymbol, inner: CodeSymbol)
    ensures
        name_path::encloses(outer, inner) <==> lies_around(outer, inner),
{
}

/// A symbol contains another where its lines hold those of the other, in the same
/// file, and are not the same. Then the other does not contain it, and whatever the
/// other contains it contains too.
pub proof fn law_containment_is_strict(
    a: &CodeSymbol,
    b: &CodeSymbol,
    c: &CodeSymbol,
    ab: bool,
    ba: bool,
    bc: bool,
    ac: bool,
)
    requires
        call_ensures(name_path::strictly_contains, (a, b), ab),
        call_ensures(name_path::strictly_contains, (b, a), ba),
        call_ensures(name_path::strictly_contains, (b, c), bc),
        call_ensures(name_path::strictly_contains, (a, c), ac),
    ensures
        ab <==> lies_around(*a, *b),
        !(ab && ba),
        ab && bc ==> ac,
{
}

/// A container contains some symbol. A direct child is contained, with no symbol in
/// between.
pub proof fn law_direct_children_have_nothing_between(
    symbols: &[CodeSymbol],
    parent: &CodeSymbol,
    child: &CodeSymbol,
    r: bool,
    container: bool,
)
    requires
        call_ensures(name_path::is_direct_child, (symbols, parent, child), r),
        call_ensures(name_path::is_container, (symbols, parent), container),
    ensures
        container <==> exists|m: int|
            0 <= m < symbols@.len() && lies_around(*parent, #[trigger] symbols@[m]),
        r <==> lies_around(*parent, *child) && forall|m: int|
            0 <= m < symbols@.len() ==> !(lies_around(*parent, #[trigger] symbols@[m])
                && lies_around(symbols@[m], *child)),
{
    if container {
        let m = choose|m: int|
            0 <= m < symbols@.len() && name_path::encloses(*parent, #[trigger] symbols@[m]);
        assert(lies_around(*parent, symbols@[m]));
    }
    if exists|m: int| 0 <= m < symbols@.len() && lies_around(*parent, #[trigger] symbols@[m]) {
        let m = choose|m: int|
            0 <= m < symbols@.len() && lies_around(*parent, #[trigger] symbols@[m]);
        assert(name_path::encloses(*parent, symbols@[m]));
    }
    if name_path::stands_between(symbols@, *parent, *child) {
        let m = choose|m: int|
            0 <= m < symbols@.len() && name_path::encloses(*parent, #[trigger] symbols@[m])
                && name_path::encloses(symbols@[m], *child);
        assert(lies_around(*parent, symbols@[m]) && lies_around(symbols@[m], *child));
    } else {
        assert forall|m: int| 0 <= m < symbols@.len() implies !(lies_around(
            *parent,
            #[trigger] symbols@[m],
        ) && lies_around(symbols@[m], *child)) by {
            assert(!(name_path::encloses(*parent, symbols@[m]) && name_path::encloses(
                symbols@[m],
                *child,
            )));
        }
    }
}

/// The direct children of a symbol are listed by place, each of them and no other.
pub proof fn law_direct_children_are_listed(
    symbols: &[CodeSymbol],
    parent: &CodeSymbol,
    out: Vec<usize>,
    i: int,
    r: bool,
    a: int,
    b: int,
)
    requires
        call_ensures(name_path::direct_children, (symbols, parent), out),
        0 <= i < symbols@.len() <= usize::MAX,
        call_ensures(name_path::is_direct_child, (symbols, parent, &symbols@[i]), r),
        0 <= a < b < out@.len(),
    ensures
        out@.contains(i as usize) <==> r,
        out@[a] < out@[b],
{
    lemma_children_ascend(symbols@, *parent, symbols@.len(), a, b);
}

proof fn lemma_children_ascend(syms: Seq<CodeSymbol>, parent: CodeSymbol, n: nat, a: int, b: int)
    requires
        n <= usize::MAX,
        0 <= a < b < name_path::children_within(syms, parent, n).len(),
    ensures
        name_path::children_within(syms, parent, n)[a] < name_path::children_within(
            syms,
            parent,
            n,
        )[b] < n,
    decreases n,
{
    if n > 0 {
        let before = name_path::children_within(syms, parent, (n - 1) as nat);
        if b < before.len() {
            lemma_children_ascend(syms, parent, (n - 1) as nat, a, b);
        } else {
            lemma_children_below(syms, parent, (n - 1) as nat, a);
        }
    }
}

proof fn lemma_children_below(syms: Seq<CodeSymbol>, parent: CodeSymbol, n: nat, a: int)
    requires
        n <= usize::MAX,
        0 <= a < name_path::children_within(syms, parent, n).len(),
    ensures
        name_path::children_within(syms, parent, n)[a] < n,
    decreases n,
{
    if n > 0 {
        let before = name_path::children_within(syms, parent, (n - 1) as nat);
        if a < before.len() {
            lemma_children_below(syms, parent, (n - 1) as nat, a);
        }
    }
}

proof fn lemma_enclosing(syms: Seq<CodeSymbol>, target: CodeSymbol, n: nat, i: int)
    requires
        n <= syms.len() <= usize::MAX,
        0 <= i < syms.len(),
    ensures
        name_path::enclosing(syms, target, n).contains(i as usize) <==> i < n && lies_around(
            syms[i],
            target,
        ),
    decreases n,
{
    if n > 0 {
        let m = (n - 1) as nat;
        lemma_enclosing(syms, target, m, i);
        let before = name_path::enclosing(syms, target, m);
        let all = name_path::enclosing(syms, target, n);
        if before.contains(i as usize) {
            let k = choose|k: int| 0 <= k < before.len() && before[k] == i as usize;
            assert(all[k] == i as usize);
        }
        if all.len() > before.len() {
            assert(all[all.len() - 1] == m as usize);
            if all.contains(i as usize) && i != m {
                let k = choose|k: int| 0 <= k < all.len() && all[k] == i as usize;
                assert(before[k] == i as usize);
            }
        }
    }
}

proof fn lemma_inner_order(syms: Seq<CodeSymbol>)
    ensures
        order::total_preorder(name_path::inner_order(syms)),
{
}

/// The ancestors of a symbol are the symbols around it, each of them and no other,
/// the innermost first.
pub proof fn law_ancestors_are_what_lies_around(
    symbols: &[CodeSymbol],
    target: &CodeSymbol,
    out: Vec<usize>,
    i: int,
    a: int,
    b: int,
)
    requires
        call_ensures(name_path::ancestors_within_file, (symbols, target), out),
        0 <= i < symbols@.len() <= usize::MAX,
        0 <= a < b < out@.len(),
    ensures
        out@.contains(i as usize) <==> lies_around(symbols@[i], *target),
        symbols@[out@[a] as int].start_line >= symbols@[out@[b] as int].start_line,
        symbols@[out@[a] as int].start_line == symbols@[out@[b] as int].start_line
            ==> symbols@[out@[a] as int].end_line <= symbols@[out@[b] as int].end_line,
{
    let le = name_path::inner_order(symbols@);
    let all = name_path::enclosing(symbols@, *target, symbols@.len());
    lemma_inner_order(symbols@);
    order::lemma_arranged(all, le);
    lemma_enclosing(symbols@, *target, symbols@.len(), i);
    assert(out@[a] < symbols@.len() && out@[b] < symbols@.len());
    assert(le(out@[a], out@[b]));
}

proof fn lemma_named_join(a: Seq<Seq<char>>, b: Seq<Seq<char>>)
    ensures
        name_path::named_pieces(a + b) == name_path::named_pieces(a) + name_path::named_pieces(b),
    decreases b.len(),
{
    if b.len() == 0 {
        assert(a + b =~= a);
        assert(name_path::named_pieces(a) + name_path::named_pieces(b) =~= name_path::named_pieces(
            a,
        ));
    } else {
        lemma_named_join(a, b.drop_last());
        assert((a + b).drop_last() =~= a + b.drop_last());
        assert((a + b).last() == b.last());
        assert(name_path::named_pieces(a + b) =~= name_path::named_pieces(a)
            + name_path::named_pieces(b));
    }
}

/// A query of one name, with slashes before and behind it or not, asks for that
/// name; a slash before it for one at the top of its file, one behind it for one
/// that contains another.
pub proof fn law_slashes_around_a_name_are_read(
    query: &str,
    name: Seq<char>,
    front: bool,
    back: bool,
    r: Option<Query>,
)
    requires
        call_ensures(name_path::parse_query, (query,), r),
        laws::churn::is_bare(name),
        !name.contains('/'),
        query@ == (if front {
            seq!['/']
        } else {
            Seq::<char>::empty()
        }) + name + (if back {
            seq!['/']
        } else {
            Seq::<char>::empty()
        }),
    ensures
        r matches Some(q) && q.segments@.len() == 1 && q.segments@[0]@ == name && q.absolute
            == front && q.trailing_slash == back,
{
    let none = Seq::<char>::empty();
    let whole = query@;
    assert(name.contains(name[0]) && name.contains(name[name.len() - 1]));
    assert(!text::is_white_space('/'));
    assert(whole.len() > 0);
    assert(whole[0] == if front {
        '/'
    } else {
        name[0]
    });
    assert(whole.last() == if back {
        '/'
    } else {
        name[name.len() - 1]
    });
    laws::churn::lemma_trimmed(none, whole, none);
    assert(none + whole + none =~= whole);
    laws::churn::lemma_trimmed(none, name, none);
    assert(none + name + none =~= name);
    laws::text::law_texts_are_cut_everywhere(name, none, '/');
    laws::text::law_texts_are_cut_everywhere(none, none, '/');
    let one = seq![name];
    assert(one.drop_last() =~= Seq::<Seq<char>>::empty());
    assert(name_path::named_pieces(one.drop_last()) =~= Seq::<Seq<char>>::empty());
    assert(name_path::named_pieces(one) =~= one);
    let blank = seq![none];
    assert(blank.drop_last() =~= Seq::<Seq<char>>::empty());
    assert(text::trimmed(none) =~= none);
    assert(name_path::named_pieces(blank) =~= Seq::<Seq<char>>::empty());
    assert(text::pieces(none, '/') =~= blank);
    let inner = if front {
        whole.drop_first()
    } else {
        whole
    };
    if front {
        assert(whole =~= none.push('/') + inner);
        laws::text::law_texts_are_cut_everywhere(none, inner, '/');
        lemma_named_join(blank, text::pieces(inner, '/'));
    }
    if back {
        assert(inner =~= name.push('/') + none);
        lemma_named_join(one, blank);
    } else {
        assert(inner =~= name);
    }
    assert(name_path::query_segments(whole) =~= one);
    if let Some(q) = r {
        assert(text::texts(q.segments@) == one);
        assert(text::texts(q.segments@).len() == q.segments@.len());
        assert(text::texts(q.segments@)[0] == q.segments@[0]@);
    }
}

} // verus!
