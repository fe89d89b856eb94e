//! Stable sorting by a caller-supplied order.
//!
//! The order is a total preorder, given as the relation "may stand before".
//! [`arranged`] says what a stable sort of a sequence is: each element in turn
//! is placed behind every earlier element that may stand before it.
//! [`sort_by`] computes exactly that, by merging.

use vstd::prelude::*;

verus! {

/// Any two elements are comparable and comparisons chain.
pub open spec fn total_preorder<T>(le: spec_fn(T, T) -> bool) -> bool {
    &&& forall|a: T, b: T| #[trigger] le(a, b) || le(b, a)
    &&& forall|a: T, b: T, c: T| #[trigger] le(a, b) && #[trigger] le(b, c) ==> le(a, c)
}

/// Every element may stand before every later one.
pub open spec fn is_sorted<T>(s: Seq<T>, le: spec_fn(T, T) -> bool) -> bool {
    forall|i: int, j: int| 0 <= i < j < s.len() ==> le(#[trigger] s[i], #[trigger] s[j])
}

/// `s` with `x` behind the last element that may stand before it.
pub open spec fn placed<T>(s: Seq<T>, x: T, le: spec_fn(T, T) -> bool) -> Seq<T>
    decreases s.len(),
{
    if s.len() == 0 || le(s.last(), x) {
        s.push(x)
    } else {
        placed(s.drop_last(), x, le).push(s.last())
    }
}

/// The stable arrangement of `s` by `le`.
pub open spec fn arranged<T>(s: Seq<T>, le: spec_fn(T, T) -> bool) -> Seq<T>
    decreases s.len(),
{
    if s.len() == 0 {
        s
    } else {
        placed(arranged(s.drop_last(), le), s.last(), le)
    }
}

/// Two sorted runs zipped into one; on a tie the element of `a` comes first.
spec fn merged<T>(a: Seq<T>, b: Seq<T>, le: spec_fn(T, T) -> bool) -> Seq<T>
    decreases a.len() + b.len(),
{
    if a.len() == 0 {
        b
    } else if b.len() == 0 {
        a
    } else if le(a.last(), b.last()) {
        merged(a, b.drop_last(), le).push(b.last())
    } else {
        merged(a.drop_last(), b, le).push(a.last())
    }
}

proof fn lemma_placed<T>(s: Seq<T>, x: T, le: spec_fn(T, T) -> bool)
    requires
        total_preorder(le),
    ensures
        placed(s, x, le).len() == s.len() + 1,
        placed(s, x, le).to_multiset() == s.to_multiset().insert(x),
        is_sorted(s, le) ==> is_sorted(placed(s, x, le), le),
        forall|y: T| #[trigger] placed(s, x, le).contains(y) <==> s.contains(y) || y == x,
    decreases s.len(),
{
    broadcast use vstd::seq_lib::group_to_multiset_ensures;

    let r = placed(s, x, le);
    if s.len() == 0 || le(s.last(), x) {
        assert forall|y: T| #[trigger] r.contains(y) <==> s.contains(y) || y == x by {
            if s.contains(y) {
                let k = choose|k: int| 0 <= k < s.len() && s[k] == y;
                assert(r[k] == y);
            }
            if y == x {
                assert(r[s.len() as int] == x);
            }
        }
        if is_sorted(s, le) {
            assert forall|i: int, j: int| 0 <= i < j < r.len() implies le(
                #[trigger] r[i],
                #[trigger] r[j],
            ) by {
                if j == s.len() && i < s.len() - 1 {
                    assert(le(s[i], s.last()));
                }
            }
        }
    } else {
        let t = s.drop_last();
        lemma_placed(t, x, le);
        let p = placed(t, x, le);
        assert(s =~= t.push(s.last()));
        assert(r == p.push(s.last()));
        assert(r.to_multiset() =~= s.to_multiset().insert(x));
        assert forall|y: T| #[trigger] r.contains(y) <==> s.contains(y) || y == x by {
            if p.contains(y) {
                let k = choose|k: int| 0 <= k < p.len() && p[k] == y;
                assert(r[k] == y);
            }
            if t.contains(y) {
                let k = choose|k: int| 0 <= k < t.len() && t[k] == y;
                assert(s[k] == y);
            }
            if s.contains(y) {
                let k = choose|k: int| 0 <= k < s.len() && s[k] == y;
                if k < t.len() {
                    assert(t[k] == y);
                } else {
                    assert(r[p.len() as int] == y);
                }
            }
            if r.contains(y) {
                let k = choose|k: int| 0 <= k < r.len() && r[k] == y;
                if k < p.len() {
                    assert(p[k] == y);
                } else {
                    assert(s[s.len() - 1] == y);
                }
            }
        }
        if is_sorted(s, le) {
            assert(is_sorted(t, le));
            assert forall|i: int, j: int| 0 <= i < j < r.len() implies le(
                #[trigger] r[i],
                #[trigger] r[j],
            ) by {
                if j == p.len() {
                    assert(p.contains(p[i]));
                    if t.contains(p[i]) {
                        let k = choose|k: int| 0 <= k < t.len() && t[k] == p[i];
                        assert(s[k] == p[i]);
                    } else {
                        assert(le(x, s.last()) || le(s.last(), x));
                    }
                } else {
                    assert(p[i] == r[i] && p[j] == r[j]);
                }
            }
        }
    }
}

/// A stable arrangement is sorted and holds the same elements.
pub proof fn lemma_arranged<T>(s: Seq<T>, le: spec_fn(T, T) -> bool)
    requires
        total_preorder(le),
    ensures
        is_sorted(arranged(s, le), le),
        arranged(s, le).len() == s.len(),
        arranged(s, le).to_multiset() == s.to_multiset(),
        forall|y: T| #[trigger] arranged(s, le).contains(y) <==> s.contains(y),
    decreases s.len(),
{
    broadcast use vstd::seq_lib::group_to_multiset_ensures;

    if s.len() > 0 {
        let t = s.drop_last();
        lemma_arranged(t, le);
        lemma_placed(arranged(t, le), s.last(), le);
        assert(s =~= t.push(s.last()));
        assert forall|y: T| #[trigger] arranged(s, le).contains(y) <==> s.contains(y) by {
            if t.contains(y) {
                let k = choose|k: int| 0 <= k < t.len() && t[k] == y;
                assert(s[k] == y);
            }
            if s.contains(y) && y != s.last() {
                let k = choose|k: int| 0 <= k < s.len() && s[k] == y;
                assert(t[k] == y);
            }
            if y == s.last() {
                assert(s[s.len() - 1] == y);
            }
        }
    }
}

/// Arranging keeps elements distinct.
pub proof fn lemma_arranged_distinct<T>(s: Seq<T>, le: spec_fn(T, T) -> bool)
    requires
        total_preorder(le),
        s.no_duplicates(),
    ensures
        arranged(s, le).no_duplicates(),
{
    lemma_arranged(s, le);
    s.lemma_multiset_has_no_duplicates();
    arranged(s, le).lemma_multiset_has_no_duplicates_conv();
}

proof fn lemma_placed_filter<T>(
    s: Seq<T>,
    x: T,
    le: spec_fn(T, T) -> bool,
    p: spec_fn(T) -> bool,
)
    requires
        forall|a: T, b: T| #[trigger] p(a) && #[trigger] p(b) ==> le(a, b),
    ensures
        placed(s, x, le).filter(p) == (if p(x) {
            s.filter(p).push(x)
        } else {
            s.filter(p)
        }),
    decreases s.len(),
{
    reveal(Seq::filter);
    if s.len() == 0 || le(s.last(), x) {
        assert(s.push(x).drop_last() =~= s);
    } else {
        let t = s.drop_last();
        lemma_placed_filter(t, x, le, p);
        let q = placed(t, x, le);
        assert(q.push(s.last()).drop_last() =~= q);
        if p(x) {
            assert(!p(s.last()));
        }
    }
}

/// A stable arrangement keeps the order of elements that may stand in either
/// order.
pub proof fn lemma_arranged_filter<T>(
    s: Seq<T>,
    le: spec_fn(T, T) -> bool,
    p: spec_fn(T) -> bool,
)
    requires
        forall|a: T, b: T| #[trigger] p(a) && #[trigger] p(b) ==> le(a, b),
    ensures
        arranged(s, le).filter(p) == s.filter(p),
    decreases s.len(),
{
    reveal(Seq::filter);
    if s.len() > 0 {
        lemma_arranged_filter(s.drop_last(), le, p);
        lemma_placed_filter(arranged(s.drop_last(), le), s.last(), le, p);
    }
}

proof fn lemma_placed_in_merged<T>(a: Seq<T>, b: Seq<T>, x: T, le: spec_fn(T, T) -> bool)
    requires
        total_preorder(le),
        is_sorted(a, le),
        is_sorted(b, le),
    ensures
        placed(merged(a, b, le), x, le) == merged(a, placed(b, x, le), le),
    decreases a.len() + b.len(),
{
    lemma_placed(b, x, le);
    let m = merged(a, b, le);
    if a.len() == 0 {
    } else if b.len() == 0 {
        assert(placed(b, x, le) =~= seq![x]);
        if le(a.last(), x) {
            assert(seq![x].drop_last() =~= Seq::<T>::empty());
            assert(merged(a, seq![x], le) == merged(a, Seq::<T>::empty(), le).push(x));
        } else {
            lemma_placed_in_merged(a.drop_last(), b, x, le);
            assert(merged(a.drop_last(), b, le) =~= a.drop_last());
        }
    } else if le(a.last(), b.last()) {
        assert(m.last() == b.last());
        assert(m.drop_last() =~= merged(a, b.drop_last(), le));
        if le(b.last(), x) {
            assert(le(a.last(), x));
            assert(b.push(x).drop_last() =~= b);
        } else {
            lemma_placed_in_merged(a, b.drop_last(), x, le);
            let p = placed(b.drop_last(), x, le);
            assert(p.push(b.last()).drop_last() =~= p);
        }
    } else {
        assert(m.last() == a.last());
        assert(m.drop_last() =~= merged(a.drop_last(), b, le));
        assert(le(b.last(), a.last()) || le(a.last(), b.last()));
        if le(a.last(), x) {
            assert(le(b.last(), x));
            assert(b.push(x).drop_last() =~= b);
        } else {
            lemma_placed_in_merged(a.drop_last(), b, x, le);
            let p = placed(b, x, le);
            assert(p.last() == x || p.last() == b.last());
        }
    }
}

proof fn lemma_merged_arranged<T>(a: Seq<T>, b: Seq<T>, le: spec_fn(T, T) -> bool)
    requires
        total_preorder(le),
    ensures
        merged(arranged(a, le), arranged(b, le), le) == arranged(a + b, le),
    decreases b.len(),
{
    if b.len() == 0 {
        assert(a + b =~= a);
        assert(arranged(b, le) =~= Seq::<T>::empty());
        if a.len() == 0 {
            assert(a =~= b);
        } else {
            lemma_arranged(a, le);
        }
    } else {
        lemma_merged_arranged(a, b.drop_last(), le);
        lemma_arranged(a, le);
        lemma_arranged(b.drop_last(), le);
        lemma_placed_in_merged(arranged(a, le), arranged(b.drop_last(), le), b.last(), le);
        assert((a + b).drop_last() =~= a + b.drop_last());
        assert((a + b).last() == b.last());
    }
}

fn merge<T, F: Fn(&T, &T) -> bool>(
    left: Vec<T>,
    right: Vec<T>,
    f: &F,
    Ghost(le): Ghost<spec_fn(T, T) -> bool>,
) -> (out: Vec<T>)
    requires
        forall|a: &T, b: &T| #[trigger] f.requires((a, b)),
        forall|a: &T, b: &T, r: bool| #[trigger] f.ensures((a, b), r) ==> r == le(*a, *b),
    ensures
        out@ == merged(left@, right@, le),
{
    let mut a = left;
    let mut b = right;
    let mut tail: Vec<T> = Vec::new();
    while a.len() > 0 && b.len() > 0
        invariant
            forall|a: &T, b: &T| #[trigger] f.requires((a, b)),
            forall|a: &T, b: &T, r: bool| #[trigger] f.ensures((a, b), r) ==> r == le(*a, *b),
            merged(left@, right@, le) == merged(a@, b@, le) + tail@.reverse(),
        decreases a.len() + b.len(),
    {
        let keep = f(&a[a.len() - 1], &b[b.len() - 1]);
        let ghost was = (a@, b@, tail@);
        if keep {
            if let Some(x) = b.pop() {
                tail.push(x);
                assert(tail@.reverse() =~= seq![x] + was.2.reverse());
                assert(merged(was.0, was.1, le) + was.2.reverse() =~= merged(a@, b@, le)
                    + tail@.reverse());
            }
        } else {
            if let Some(x) = a.pop() {
                tail.push(x);
                assert(tail@.reverse() =~= seq![x] + was.2.reverse());
                assert(merged(was.0, was.1, le) + was.2.reverse() =~= merged(a@, b@, le)
                    + tail@.reverse());
            }
        }
    }
    let mut out = if a.len() > 0 {
        a
    } else {
        b
    };
    let ghost stem = out@;
    let ghost full = tail@;
    assert(merged(left@, right@, le) == stem + full.reverse());
    while tail.len() > 0
        invariant
            tail.len() <= full.len(),
            tail@ == full.take(tail@.len() as int),
            out@ == stem + full.reverse().take(full.len() - tail@.len()),
        decreases tail.len(),
    {
        if let Some(x) = tail.pop() {
            out.push(x);
            assert(tail@ =~= full.take(tail@.len() as int));
            assert(out@ =~= stem + full.reverse().take(full.len() - tail@.len()));
        }
    }
    assert(full.reverse().take(full.len() as int) =~= full.reverse());
    out
}

/// Elements that may stand in either order are the same one.
pub open spec fn no_ties<T>(s: Seq<T>, le: spec_fn(T, T) -> bool) -> bool {
    forall|x: T, y: T|
        s.contains(x) && s.contains(y) && #[trigger] le(x, y) && #[trigger] le(y, x) ==> x == y
}

/// There is one way to sort distinct elements without ties.
pub proof fn lemma_sorted_same_set<T>(a: Seq<T>, b: Seq<T>, le: spec_fn(T, T) -> bool)
    requires
        total_preorder(le),
        is_sorted(a, le),
        is_sorted(b, le),
        a.no_duplicates(),
        b.no_duplicates(),
        no_ties(a, le),
        forall|x: T| #[trigger] a.contains(x) <==> b.contains(x),
    ensures
        a == b,
    decreases a.len(),
{
    if a.len() == 0 {
        if b.len() > 0 {
            assert(b.contains(b[0]));
            assert(a.contains(b[0]));
        }
        assert(a =~= b);
    } else {
        let x = a.last();
        assert(a.contains(a[a.len() - 1]));
        assert(b.contains(x));
        let y = b.last();
        assert(b.contains(b[b.len() - 1]));
        assert(a.contains(y));
        let i = choose|i: int| 0 <= i < b.len() && b[i] == x;
        let j = choose|j: int| 0 <= j < a.len() && a[j] == y;
        assert(le(x, x) || le(x, x));
        assert(le(x, y)) by {
            if i < b.len() - 1 {
                assert(le(b[i], b[b.len() - 1]));
            }
        }
        assert(le(y, x)) by {
            if j < a.len() - 1 {
                assert(le(a[j], a[a.len() - 1]));
            }
        }
        assert(x == y);
        let c = a.drop_last();
        let d = b.drop_last();
        lemma_front(a);
        lemma_front(b);
        assert forall|z: T| #[trigger] c.contains(z) <==> d.contains(z) by {
            assert(c.contains(z) <==> a.contains(z) && z != x);
            assert(d.contains(z) <==> b.contains(z) && z != y);
        }
        assert(no_ties(c, le)) by {
            assert forall|u: T, v: T|
                c.contains(u) && c.contains(v) && #[trigger] le(u, v) && #[trigger] le(
                    v,
                    u,
                ) implies u == v by {
                assert(a.contains(u) && a.contains(v));
            }
        }
        lemma_sorted_same_set(c, d, le);
        assert(a =~= c.push(x));
        assert(b =~= d.push(y));
    }
}

proof fn lemma_front<T>(s: Seq<T>)
    requires
        s.len() > 0,
        s.no_duplicates(),
    ensures
        s.drop_last().no_duplicates(),
        forall|z: T| #[trigger] s.drop_last().contains(z) <==> s.contains(z) && z != s.last(),
{
    let front = s.drop_last();
    assert forall|z: T| #[trigger] front.contains(z) <==> s.contains(z) && z != s.last() by {
        if front.contains(z) {
            let k = choose|k: int| 0 <= k < front.len() && front[k] == z;
            assert(s[k] == z);
            assert(s[k] != s[s.len() - 1]);
        }
        if s.contains(z) && z != s.last() {
            let k = choose|k: int| 0 <= k < s.len() && s[k] == z;
            assert(front[k] == z);
        }
    }
}

/// Distinct elements without ties are arranged in the same way, in whatever order
/// they come.
pub proof fn lemma_arranged_any_order<T>(s: Seq<T>, t: Seq<T>, le: spec_fn(T, T) -> bool)
    requires
        total_preorder(le),
        s.no_duplicates(),
        t.no_duplicates(),
        no_ties(s, le),
        forall|x: T| #[trigger] s.contains(x) <==> t.contains(x),
    ensures
        arranged(s, le) == arranged(t, le),
{
    lemma_arranged(s, le);
    lemma_arranged(t, le);
    lemma_arranged_distinct(s, le);
    lemma_arranged_distinct(t, le);
    let a = arranged(s, le);
    let b = arranged(t, le);
    assert forall|x: T| #[trigger] a.contains(x) <==> b.contains(x) by {
        assert(a.contains(x) <==> s.contains(x));
        assert(b.contains(x) <==> t.contains(x));
    }
    assert(no_ties(a, le)) by {
        assert forall|u: T, v: T|
            a.contains(u) && a.contains(v) && #[trigger] le(u, v) && #[trigger] le(
                v,
                u,
            ) implies u == v by {
            assert(s.contains(u) && s.contains(v));
        }
    }
    lemma_sorted_same_set(a, b, le);
}

/// Two orders agree on two sequences, position by position.
pub open spec fn same_order<A, B>(
    s: Seq<A>,
    t: Seq<B>,
    le: spec_fn(A, A) -> bool,
    me: spec_fn(B, B) -> bool,
    f: spec_fn(A) -> B,
) -> bool {
    &&& t.len() == s.len()
    &&& forall|i: int| 0 <= i < s.len() ==> #[trigger] t[i] == f(s[i])
    &&& forall|i: int, j: int|
        0 <= i < s.len() && 0 <= j < s.len() ==> le(#[trigger] s[i], #[trigger] s[j]) == me(
            f(s[i]),
            f(s[j]),
        )
}

proof fn lemma_placed_map<A, B>(
    s: Seq<A>,
    x: A,
    le: spec_fn(A, A) -> bool,
    me: spec_fn(B, B) -> bool,
    f: spec_fn(A) -> B,
)
    requires
        forall|i: int| 0 <= i < s.len() ==> le(#[trigger] s[i], x) == me(f(s[i]), f(x)),
    ensures
        placed(s.map_values(f), f(x), me) == placed(s, x, le).map_values(f),
    decreases s.len(),
{
    let m = s.map_values(f);
    if s.len() == 0 || le(s.last(), x) {
        if s.len() > 0 {
            assert(m.last() == f(s[s.len() - 1]));
        }
        assert(m.push(f(x)) =~= s.push(x).map_values(f));
    } else {
        let t = s.drop_last();
        assert(m.last() == f(s[s.len() - 1]));
        assert(m.drop_last() =~= t.map_values(f));
        assert forall|i: int| 0 <= i < t.len() implies le(#[trigger] t[i], x) == me(
            f(t[i]),
            f(x),
        ) by {
            assert(t[i] == s[i]);
        }
        lemma_placed_map(t, x, le, me, f);
        assert(placed(t, x, le).map_values(f).push(f(s.last())) =~= placed(t, x, le).push(
            s.last(),
        ).map_values(f));
    }
}

/// Arranging commutes with replacing every element by what it stands for, where
/// the order of the elements is that of what they stand for.
pub proof fn lemma_arranged_map<A, B>(
    s: Seq<A>,
    t: Seq<B>,
    le: spec_fn(A, A) -> bool,
    me: spec_fn(B, B) -> bool,
    f: spec_fn(A) -> B,
)
    requires
        total_preorder(le),
        same_order(s, t, le, me, f),
    ensures
        arranged(t, me) == arranged(s, le).map_values(f),
    decreases s.len(),
{
    if s.len() == 0 {
        assert(t =~= Seq::<B>::empty());
        assert(arranged(s, le).map_values(f) =~= Seq::<B>::empty());
    } else {
        let a = s.drop_last();
        let b = t.drop_last();
        assert(same_order(a, b, le, me, f)) by {
            assert forall|i: int, j: int| 0 <= i < a.len() && 0 <= j < a.len() implies le(
                #[trigger] a[i],
                #[trigger] a[j],
            ) == me(f(a[i]), f(a[j])) by {
                assert(a[i] == s[i] && a[j] == s[j]);
            }
        }
        lemma_arranged_map(a, b, le, me, f);
        let front = arranged(a, le);
        lemma_arranged(a, le);
        assert forall|i: int| 0 <= i < front.len() implies le(#[trigger] front[i], s.last()) == me(
            f(front[i]),
            f(s.last()),
        ) by {
            assert(front.contains(front[i]));
            assert(a.contains(front[i]));
            let k = choose|k: int| 0 <= k < a.len() && a[k] == front[i];
            assert(s[k] == front[i] && s[s.len() - 1] == s.last());
        }
        lemma_placed_map(front, s.last(), le, me, f);
        assert(t.last() == f(s.last())) by {
            assert(t[t.len() - 1] == f(s[s.len() - 1]));
        }
    }
}

/// Sorts `v` stably: `f(a, b)` says whether `a` may stand before `b`.
pub fn sort_by<T, F: Fn(&T, &T) -> bool>(
    v: Vec<T>,
    f: &F,
    Ghost(le): Ghost<spec_fn(T, T) -> bool>,
) -> (out: Vec<T>)
    requires
        total_preorder(le),
        forall|a: &T, b: &T| #[trigger] f.requires((a, b)),
        forall|a: &T, b: &T, r: bool| #[trigger] f.ensures((a, b), r) ==> r == le(*a, *b),
    ensures
        out@ == arranged(v@, le),
    decreases v@.len(),
{
    if v.len() <= 1 {
        proof {
            if v@.len() == 1 {
                assert(v@.drop_last() =~= Seq::<T>::empty());
                assert(arranged(v@.drop_last(), le) =~= Seq::<T>::empty());
                assert(arranged(v@, le) =~= v@);
            }
        }
        return v;
    }
    let ghost whole = v@;
    let mid: usize = v.len() / 2;
    let mut left = v;
    let right = left.split_off(mid);
    assert(left@ + right@ =~= whole);
    let a = sort_by(left, f, Ghost(le));
    let b = sort_by(right, f, Ghost(le));
    proof {
        lemma_merged_arranged(left@, right@, le);
    }
    merge(a, b, f, Ghost(le))
}

} // verus!
