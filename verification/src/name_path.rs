//! Hierarchical symbol paths.
//!
//! Symbols are flat: none names its parent. Their line ranges nest, though,
//! and within one file a range that strictly encloses another stands for a
//! parent. That is what a query such as `Class/method` is matched against.
//!
//! Intermediate layers may be skipped, equal ranges are siblings, crossing
//! ranges do not enclose each other, and no hierarchy crosses a file.

use crate::order;
use crate::text;
use crate::types::{CodeSymbol, SymbolId, SymbolKind};
use vstd::prelude::*;

verus! {

/// A kind that every reported symbol must have; `None` accepts all.
#[derive(Clone, Copy, Debug, PartialEq, Eq)]
pub struct KindFilter(pub Option<SymbolKind>);

impl KindFilter {
    /// Whether symbols of `kind` pass.
    pub open spec fn allows(self, kind: SymbolKind) -> bool {
        match self.0 {
            None => true,
            Some(wanted) => kind == wanted,
        }
    }

    /// Whether `sym` passes.
    pub fn accepts(self, sym: &CodeSymbol) -> (r: bool)
        ensures
            r == self.allows(sym.kind),
    {
        match self.0 {
            None => true,
            Some(wanted) => sym.kind == wanted,
        }
    }
}

/// A reported symbol and how many layers it lies below what matched.
#[derive(Clone, Copy, Debug, PartialEq, Eq, Structural)]
pub struct NamePathMatch {
    pub symbol: SymbolId,
    /// 0 for a match itself, 1 for its direct children, and so on.
    pub depth: u8,
}

/// A parsed query.
#[derive(Debug)]
pub struct Query {
    /// The names between the slashes, outermost first. Never empty.
    pub segments: Vec<String>,
    /// A leading `/`: the outermost name must be at the top of its file.
    pub absolute: bool,
    /// A trailing `/`: what matches must enclose another symbol.
    pub trailing_slash: bool,
}

// --------------------------------------------------------------- queries

/// The names that a query holds: its pieces between slashes, without white
/// space around them, empty ones left out.
pub open spec fn query_segments(query: Seq<char>) -> Seq<Seq<char>> {
    named_pieces(text::pieces(text::trimmed(query), '/'))
}

/// The trimmed pieces that are not empty.
pub open spec fn named_pieces(parts: Seq<Seq<char>>) -> Seq<Seq<char>>
    decreases parts.len(),
{
    if parts.len() == 0 {
        Seq::empty()
    } else {
        let before = named_pieces(parts.drop_last());
        let name = text::trimmed(parts.last());
        if name.len() == 0 {
            before
        } else {
            before.push(name)
        }
    }
}

/// Whether a query starts with a slash.
pub open spec fn query_absolute(query: Seq<char>) -> bool {
    let t = text::trimmed(query);
    t.len() > 0 && t[0] == '/'
}

/// Whether a query ends with a slash.
pub open spec fn query_trailing(query: Seq<char>) -> bool {
    let t = text::trimmed(query);
    t.len() > 0 && t.last() == '/'
}

/// Splits a query into names; a query without any name is none.
pub fn parse_query(query: &str) -> (r: Option<Query>)
    ensures
        match r {
            None => query_segments(query@).len() == 0,
            Some(q) => {
                &&& query_segments(query@).len() > 0
                &&& text::texts(q.segments@) == query_segments(query@)
                &&& q.absolute == query_absolute(query@)
                &&& q.trailing_slash == query_trailing(query@)
            },
        },
{
    let trimmed = text::trim(&text::chars_of(query));
    let absolute = trimmed.len() > 0 && trimmed[0] == '/';
    let trailing_slash = trimmed.len() > 0 && trimmed[trimmed.len() - 1] == '/';
    let parts = text::split_on(&trimmed, '/');
    let mut segments: Vec<String> = Vec::new();
    let mut i: usize = 0;
    assert(text::texts(segments@) =~= named_pieces(text::rows(parts@).take(0)));
    while i < parts.len()
        invariant
            i <= parts.len(),
            text::texts(segments@) == named_pieces(text::rows(parts@).take(i as int)),
        decreases parts.len() - i,
    {
        let ghost all = text::rows(parts@);
        let ghost was = text::texts(segments@);
        assert(all.take(i as int + 1).drop_last() =~= all.take(i as int));
        assert(all[i as int] == parts@[i as int]@);
        let name = text::trim(&parts[i]);
        if name.len() > 0 {
            segments.push(text::string_of(&name));
            assert(text::texts(segments@) =~= was.push(name@));
        }
        i = i + 1;
    }
    assert(text::rows(parts@).take(parts@.len() as int) =~= text::rows(parts@));
    assert(text::texts(segments@).len() == segments@.len());
    if segments.len() == 0 {
        None
    } else {
        Some(Query { segments, absolute, trailing_slash })
    }
}

/// Case-folded name against case-folded segment.
pub open spec fn names_agree(name: Seq<char>, seg: Seq<char>, substring: bool) -> bool {
    if substring {
        text::contains_text(name, seg)
    } else {
        name == seg
    }
}

/// Whether a folded name is, or with `substring` holds, a folded segment.
pub fn folded_name_matches(name: &[char], seg: &[char], substring: bool) -> (r: bool)
    ensures
        r == names_agree(name@, seg@, substring),
{
    if substring {
        text::has_text(name, seg)
    } else {
        text::same_chars(name, seg)
    }
}

/// Whether a name matches a segment in any case.
pub fn name_matches(sym_name: &str, seg: &str, substring: bool) -> (r: bool)
    ensures
        r == names_agree(text::lowercase(sym_name@), text::lowercase(seg@), substring),
{
    let name = text::chars_of(text::fold(sym_name).as_str());
    let wanted = text::chars_of(text::fold(seg).as_str());
    folded_name_matches(&name, &wanted, substring)
}

// ------------------------------------------------------------- hierarchy

/// `outer` lies in the file of `inner` and its range strictly encloses it.
pub open spec fn encloses(outer: CodeSymbol, inner: CodeSymbol) -> bool {
    &&& outer.file == inner.file
    &&& outer.start_line <= inner.start_line
    &&& outer.end_line >= inner.end_line
    &&& (outer.start_line != inner.start_line || outer.end_line != inner.end_line)
}

/// Whether the range of `outer` strictly encloses that of `inner`.
pub fn strictly_contains(outer: &CodeSymbol, inner: &CodeSymbol) -> (r: bool)
    ensures
        r == encloses(*outer, *inner),
{
    outer.file == inner.file && outer.start_line <= inner.start_line && outer.end_line
        >= inner.end_line && (outer.start_line != inner.start_line || outer.end_line
        != inner.end_line)
}

/// No symbol encloses `target`.
pub open spec fn is_top_level(syms: Seq<CodeSymbol>, target: CodeSymbol) -> bool {
    forall|m: int| 0 <= m < syms.len() ==> !encloses(#[trigger] syms[m], target)
}

/// Some symbol is enclosed by `target`.
pub open spec fn has_inside(syms: Seq<CodeSymbol>, target: CodeSymbol) -> bool {
    exists|m: int| 0 <= m < syms.len() && encloses(target, #[trigger] syms[m])
}

/// A symbol lies strictly between the symbols at `p` and `i`.
pub open spec fn stands_between(syms: Seq<CodeSymbol>, p: CodeSymbol, i: CodeSymbol) -> bool {
    exists|m: int|
        0 <= m < syms.len() && encloses(p, #[trigger] syms[m]) && encloses(syms[m], i)
}

/// `child` is enclosed by `parent` with no symbol between them.
pub open spec fn is_child(syms: Seq<CodeSymbol>, parent: CodeSymbol, child: CodeSymbol) -> bool {
    encloses(parent, child) && !stands_between(syms, parent, child)
}

/// Whether `target` encloses another symbol.
pub fn is_container(symbols: &[CodeSymbol], target: &CodeSymbol) -> (r: bool)
    ensures
        r == has_inside(symbols@, *target),
{
    let mut m: usize = 0;
    while m < symbols.len()
        invariant
            m <= symbols.len(),
            forall|k: int| 0 <= k < m ==> !encloses(*target, #[trigger] symbols@[k]),
        decreases symbols.len() - m,
    {
        if strictly_contains(target, &symbols[m]) {
            return true;
        }
        m = m + 1;
    }
    false
}

/// Whether `child` is a direct child of `parent`.
pub fn is_direct_child(symbols: &[CodeSymbol], parent: &CodeSymbol, child: &CodeSymbol) -> (r: bool)
    ensures
        r == is_child(symbols@, *parent, *child),
{
    if !strictly_contains(parent, child) {
        return false;
    }
    let mut m: usize = 0;
    while m < symbols.len()
        invariant
            m <= symbols.len(),
            forall|k: int|
                0 <= k < m ==> !(encloses(*parent, #[trigger] symbols@[k]) && encloses(
                    symbols@[k],
                    *child,
                )),
        decreases symbols.len() - m,
    {
        if strictly_contains(parent, &symbols[m]) && strictly_contains(&symbols[m], child) {
            return false;
        }
        m = m + 1;
    }
    true
}

/// The positions of the direct children of `parent`, in symbol order.
pub open spec fn children_within(syms: Seq<CodeSymbol>, parent: CodeSymbol, n: nat) -> Seq<usize>
    decreases n,
{
    if n == 0 {
        Seq::empty()
    } else {
        let before = children_within(syms, parent, (n - 1) as nat);
        if is_child(syms, parent, syms[n - 1]) {
            before.push((n - 1) as usize)
        } else {
            before
        }
    }
}

/// The positions of the direct children of `parent`, in symbol order.
pub fn direct_children(symbols: &[CodeSymbol], parent: &CodeSymbol) -> (out: Vec<usize>)
    ensures
        out@ == children_within(symbols@, *parent, symbols@.len()),
        forall|k: int| 0 <= k < out@.len() ==> #[trigger] out@[k] < symbols@.len(),
        forall|i: int|
            0 <= i < symbols@.len() ==> (out@.contains(i as usize) <==> is_child(
                symbols@,
                *parent,
                #[trigger] symbols@[i],
            )),
{
    let mut out: Vec<usize> = Vec::new();
    let mut i: usize = 0;
    while i < symbols.len()
        invariant
            i <= symbols.len(),
            out@ == children_within(symbols@, *parent, i as nat),
            forall|k: int| 0 <= k < out@.len() ==> #[trigger] out@[k] < i,
            forall|j: int|
                0 <= j < i ==> (out@.contains(j as usize) <==> is_child(
                    symbols@,
                    *parent,
                    #[trigger] symbols@[j],
                )),
        decreases symbols.len() - i,
    {
        let ghost was = out@;
        let child = is_direct_child(symbols, parent, &symbols[i]);
        if child {
            out.push(i);
        }
        assert forall|j: int| 0 <= j < i + 1 implies (out@.contains(j as usize) <==> is_child(
            symbols@,
            *parent,
            #[trigger] symbols@[j],
        )) by {
            if j < i {
                if was.contains(j as usize) {
                    let k = choose|k: int| 0 <= k < was.len() && was[k] == j as usize;
                    assert(out@[k] == j as usize);
                }
                if out@.contains(j as usize) {
                    let k = choose|k: int| 0 <= k < out@.len() && out@[k] == j as usize;
                    assert(was[k] == j as usize);
                }
            } else if child {
                assert(out@[was.len() as int] == i);
            }
        }
        i = i + 1;
    }
    out
}

/// The positions of the symbols among the first `n` that enclose `target`.
pub open spec fn enclosing(syms: Seq<CodeSymbol>, target: CodeSymbol, n: nat) -> Seq<usize>
    decreases n,
{
    if n == 0 {
        Seq::empty()
    } else {
        let before = enclosing(syms, target, (n - 1) as nat);
        if encloses(syms[n - 1], target) {
            before.push((n - 1) as usize)
        } else {
            before
        }
    }
}

/// Ranges from the inside out: a later start first, then an earlier end.
pub open spec fn inner_first(a: CodeSymbol, b: CodeSymbol) -> bool {
    a.start_line > b.start_line || (a.start_line == b.start_line && a.end_line <= b.end_line)
}

/// [`inner_first`] on positions.
pub open spec fn inner_order(syms: Seq<CodeSymbol>) -> spec_fn(usize, usize) -> bool {
    |a: usize, b: usize|
        b >= syms.len() || (a < syms.len() && inner_first(syms[a as int], syms[b as int]))
}

/// The positions of what encloses `target`, from the inside out.
pub open spec fn ancestors(syms: Seq<CodeSymbol>, target: CodeSymbol) -> Seq<usize> {
    order::arranged(enclosing(syms, target, syms.len()), inner_order(syms))
}

/// The positions of what encloses `target`, from the inside out.
pub fn ancestors_within_file(symbols: &[CodeSymbol], target: &CodeSymbol) -> (out: Vec<usize>)
    ensures
        out@ == ancestors(symbols@, *target),
        forall|k: int| 0 <= k < out@.len() ==> #[trigger] out@[k] < symbols@.len(),
        out@.len() == 0 <==> is_top_level(symbols@, *target),
{
    let mut found: Vec<usize> = Vec::new();
    let mut i: usize = 0;
    while i < symbols.len()
        invariant
            i <= symbols.len(),
            found@ == enclosing(symbols@, *target, i as nat),
            forall|k: int| 0 <= k < found@.len() ==> #[trigger] found@[k] < i,
            found@.len() == 0 <==> forall|m: int|
                0 <= m < i ==> !encloses(#[trigger] symbols@[m], *target),
        decreases symbols.len() - i,
    {
        if strictly_contains(&symbols[i], target) {
            found.push(i);
        }
        i = i + 1;
    }
    let ghost le = inner_order(symbols@);
    let ghost all = found@;
    let f = |a: &usize, b: &usize| -> (r: bool)
        ensures
            r == inner_order(symbols@)(*a, *b),
        {
            if *b >= symbols.len() {
                true
            } else if *a >= symbols.len() {
                false
            } else {
                symbols[*a].start_line > symbols[*b].start_line || (symbols[*a].start_line
                    == symbols[*b].start_line && symbols[*a].end_line <= symbols[*b].end_line)
            }
        };
    let out = order::sort_by(found, &f, Ghost(le));
    proof {
        order::lemma_arranged(all, le);
        assert forall|k: int| 0 <= k < out@.len() implies #[trigger] out@[k] < symbols@.len() by {
            assert(out@.contains(out@[k]));
            assert(all.contains(out@[k]));
        }
    }
    out
}

// ---------------------------------------------------------------- chains

proof fn lemma_enclosing_holds(syms: Seq<CodeSymbol>, target: CodeSymbol, n: nat)
    requires
        n <= syms.len() <= usize::MAX,
    ensures
        forall|i: usize| #[trigger]
            enclosing(syms, target, n).contains(i) <==> i < n && encloses(syms[i as int], target),
    decreases n,
{
    if n > 0 {
        let before = enclosing(syms, target, (n - 1) as nat);
        let whole = enclosing(syms, target, n);
        lemma_enclosing_holds(syms, target, (n - 1) as nat);
        assert forall|i: usize| #[trigger] whole.contains(i) <==> i < n && encloses(
            syms[i as int],
            target,
        ) by {
            if before.contains(i) {
                let k = choose|k: int| 0 <= k < before.len() && before[k] == i;
                assert(whole[k] == i);
            }
            if whole.contains(i) && !before.contains(i) {
                let k = choose|k: int| 0 <= k < whole.len() && whole[k] == i;
                assert(k == before.len());
            }
            if i == n - 1 && encloses(syms[i as int], target) {
                assert(whole[before.len() as int] == i);
            }
        }
    }
}

proof fn lemma_chain_holds(syms: Seq<CodeSymbol>, target: CodeSymbol)
    requires
        syms.len() <= usize::MAX,
    ensures
        forall|i: usize| #[trigger]
            ancestors(syms, target).contains(i) <==> i < syms.len() && encloses(
                syms[i as int],
                target,
            ),
{
    lemma_enclosing_holds(syms, target, syms.len());
    order::lemma_arranged(enclosing(syms, target, syms.len()), inner_order(syms));
}

/// The symbol at `i` can stand for the first of the segments, which run from the
/// outside in: it has that name, and it encloses what stands for the next one,
/// other layers between them or not. The last of them encloses `target`.
pub open spec fn stands_for(
    syms: Seq<CodeSymbol>,
    names: Seq<Seq<char>>,
    target: CodeSymbol,
    segs: Seq<Seq<char>>,
    i: int,
) -> bool
    decreases segs.len(),
{
    &&& segs.len() > 0
    &&& names[i] == segs[0]
    &&& if segs.len() == 1 {
        encloses(syms[i], target)
    } else {
        exists|j: int|
            0 <= j < syms.len() && encloses(syms[i], #[trigger] syms[j]) && stands_for(
                syms,
                names,
                target,
                segs.drop_first(),
                j,
            )
    }
}

/// Symbols that enclose each other and `target` have the names of the segments;
/// `absolute` wants the outermost of them at the top of its file.
pub open spec fn path_fits(
    syms: Seq<CodeSymbol>,
    names: Seq<Seq<char>>,
    target: CodeSymbol,
    segs: Seq<Seq<char>>,
    absolute: bool,
) -> bool {
    exists|i: int|
        0 <= i < syms.len() && #[trigger] stands_for(syms, names, target, segs, i) && (absolute
            ==> is_top_level(syms, syms[i]))
}

proof fn lemma_stands_above(
    syms: Seq<CodeSymbol>,
    names: Seq<Seq<char>>,
    target: CodeSymbol,
    segs: Seq<Seq<char>>,
    i: int,
)
    requires
        stands_for(syms, names, target, segs, i),
    ensures
        encloses(syms[i], target),
    decreases segs.len(),
{
    if segs.len() > 1 {
        let j = choose|j: int|
            0 <= j < syms.len() && encloses(syms[i], #[trigger] syms[j]) && stands_for(
                syms,
                names,
                target,
                segs.drop_first(),
                j,
            );
        lemma_stands_above(syms, names, target, segs.drop_first(), j);
    }
}

/// Which links of a chain, given by their positions, can stand for the first of
/// the segments, where `inner` says which can stand for the next one.
fn outer_links(
    symbols: &[CodeSymbol],
    names: &[Vec<char>],
    target: &CodeSymbol,
    chain: &Vec<usize>,
    segs: &[Vec<char>],
    at: usize,
    inner: &Vec<bool>,
) -> (out: Vec<bool>)
    requires
        names.len() == symbols.len(),
        at < segs.len(),
        chain@ == ancestors(symbols@, *target),
        forall|k: int| 0 <= k < chain@.len() ==> #[trigger] chain@[k] < symbols@.len(),
        at + 1 < segs.len() ==> inner.len() == chain.len() && forall|c: int|
            0 <= c < inner@.len() ==> #[trigger] inner@[c] == stands_for(
                symbols@,
                text::rows(names@),
                *target,
                text::rows(segs@).skip(at + 1),
                chain@[c] as int,
            ),
    ensures
        out.len() == chain.len(),
        forall|c: int|
            0 <= c < out@.len() ==> #[trigger] out@[c] == stands_for(
                symbols@,
                text::rows(names@),
                *target,
                text::rows(segs@).skip(at as int),
                chain@[c] as int,
            ),
{
    let ghost folded = text::rows(names@);
    let ghost wanted = text::rows(segs@);
    let ghost own = wanted.skip(at as int);
    let ghost next = wanted.skip(at + 1);
    assert(own.drop_first() =~= next);
    assert(own[0] == segs@[at as int]@);
    let mut out: Vec<bool> = Vec::new();
    let mut c: usize = 0;
    while c < chain.len()
        invariant
            c <= chain.len(),
            out.len() == c,
            names.len() == symbols.len(),
            at < segs.len(),
            folded == text::rows(names@),
            wanted == text::rows(segs@),
            own == wanted.skip(at as int),
            next == wanted.skip(at + 1),
            own.drop_first() == next,
            own[0] == segs@[at as int]@,
            own.len() == segs.len() - at,
            chain@ == ancestors(symbols@, *target),
            forall|k: int| 0 <= k < chain@.len() ==> #[trigger] chain@[k] < symbols@.len(),
            at + 1 < segs.len() ==> inner.len() == chain.len() && forall|c: int|
                0 <= c < inner@.len() ==> #[trigger] inner@[c] == stands_for(
                    symbols@,
                    folded,
                    *target,
                    next,
                    chain@[c] as int,
                ),
            forall|k: int|
                0 <= k < c ==> #[trigger] out@[k] == stands_for(
                    symbols@,
                    folded,
                    *target,
                    own,
                    chain@[k] as int,
                ),
        decreases chain.len() - c,
    {
        let i: usize = chain[c];
        let mut ok = false;
        assert(names@[i as int]@ == folded[i as int]);
        proof {
            lemma_chain_holds(symbols@, *target);
            assert(chain@.contains(i));
        }
        if text::same_chars(&names[i], &segs[at]) {
            if at + 1 == segs.len() {
                ok = true;
            } else {
                let mut d: usize = 0;
                while d < chain.len() && !ok
                    invariant
                        d <= chain.len(),
                        i < symbols.len(),
                        inner.len() == chain.len(),
                        folded == text::rows(names@),
                        forall|k: int|
                            0 <= k < chain@.len() ==> #[trigger] chain@[k] < symbols@.len(),
                        forall|c: int|
                            0 <= c < inner@.len() ==> #[trigger] inner@[c] == stands_for(
                                symbols@,
                                folded,
                                *target,
                                next,
                                chain@[c] as int,
                            ),
                        ok ==> exists|j: int|
                            0 <= j < symbols@.len() && encloses(
                                symbols@[i as int],
                                #[trigger] symbols@[j],
                            ) && stands_for(symbols@, folded, *target, next, j),
                        !ok ==> forall|k: int|
                            0 <= k < d ==> !(inner@[k] && encloses(
                                symbols@[i as int],
                                symbols@[#[trigger] chain@[k] as int],
                            )),
                    decreases chain.len() - d,
                {
                    if inner[d] && strictly_contains(&symbols[i], &symbols[chain[d]]) {
                        assert(encloses(symbols@[i as int], symbols@[chain@[d as int] as int]));
                        ok = true;
                    }
                    d = d + 1;
                }
                proof {
                    if !ok && stands_for(symbols@, folded, *target, own, i as int) {
                        let j = choose|j: int|
                            0 <= j < symbols@.len() && encloses(
                                symbols@[i as int],
                                #[trigger] symbols@[j],
                            ) && stands_for(symbols@, folded, *target, next, j);
                        lemma_stands_above(symbols@, folded, *target, next, j);
                        assert(chain@.contains(j as usize));
                        let k = choose|k: int| 0 <= k < chain@.len() && chain@[k] == j as usize;
                        assert(inner@[k]);
                        assert(false);
                    }
                }
            }
        }
        out.push(ok);
        c = c + 1;
    }
    out
}

/// Whether symbols that enclose each other and `target` have the names of the
/// segments. Layers may be left out, and an absolute outermost segment takes a
/// symbol at the top of its file.
pub fn chain_matches(
    symbols: &[CodeSymbol],
    names: &[Vec<char>],
    target: &CodeSymbol,
    segs: &[Vec<char>],
    absolute: bool,
) -> (r: bool)
    requires
        names.len() == symbols.len(),
        segs.len() > 0,
    ensures
        r == path_fits(symbols@, text::rows(names@), *target, text::rows(segs@), absolute),
{
    let ghost folded = text::rows(names@);
    let ghost wanted = text::rows(segs@);
    let chain = ancestors_within_file(symbols, target);
    let mut links: Vec<bool> = Vec::new();
    let mut k: usize = segs.len();
    while k > 0
        invariant
            k <= segs.len(),
            names.len() == symbols.len(),
            folded == text::rows(names@),
            wanted == text::rows(segs@),
            chain@ == ancestors(symbols@, *target),
            forall|k: int| 0 <= k < chain@.len() ==> #[trigger] chain@[k] < symbols@.len(),
            k < segs.len() ==> links.len() == chain.len() && forall|c: int|
                0 <= c < links@.len() ==> #[trigger] links@[c] == stands_for(
                    symbols@,
                    folded,
                    *target,
                    wanted.skip(k as int),
                    chain@[c] as int,
                ),
        decreases k,
    {
        links = outer_links(symbols, names, target, &chain, segs, k - 1, &links);
        k = k - 1;
    }
    assert(wanted.skip(0) =~= wanted);
    let mut c: usize = 0;
    while c < chain.len()
        invariant
            c <= chain.len(),
            links.len() == chain.len(),
            forall|k: int| 0 <= k < chain@.len() ==> #[trigger] chain@[k] < symbols@.len(),
            forall|c: int|
                0 <= c < links@.len() ==> #[trigger] links@[c] == stands_for(
                    symbols@,
                    folded,
                    *target,
                    wanted,
                    chain@[c] as int,
                ),
            forall|k: int|
                0 <= k < c ==> !(stands_for(
                    symbols@,
                    folded,
                    *target,
                    wanted,
                    #[trigger] chain@[k] as int,
                ) && (absolute ==> is_top_level(symbols@, symbols@[chain@[k] as int]))),
            folded == text::rows(names@),
            wanted == text::rows(segs@),
        decreases chain.len() - c,
    {
        if links[c] {
            let i: usize = chain[c];
            if !absolute || ancestors_within_file(symbols, &symbols[i]).len() == 0 {
                assert(stands_for(symbols@, folded, *target, wanted, i as int));
                return true;
            }
        }
        c = c + 1;
    }
    proof {
        if path_fits(symbols@, folded, *target, wanted, absolute) {
            let i = choose|i: int|
                0 <= i < symbols@.len() && #[trigger] stands_for(
                    symbols@,
                    folded,
                    *target,
                    wanted,
                    i,
                ) && (absolute ==> is_top_level(symbols@, symbols@[i]));
            lemma_stands_above(symbols@, folded, *target, wanted, i);
            lemma_chain_holds(symbols@, *target);
            assert(chain@.contains(i as usize));
            let k = choose|k: int| 0 <= k < chain@.len() && chain@[k] == i as usize;
            assert(false);
        }
    }
    false
}

// ------------------------------------------------------------- expansion

/// `i` lies exactly `d` steps from parent to direct child below a hit.
pub open spec fn in_layer(syms: Seq<CodeSymbol>, hit: Seq<bool>, d: nat, i: int) -> bool
    decreases d,
{
    if d == 0 {
        hit[i]
    } else {
        exists|p: int|
            0 <= p < syms.len() && is_child(syms, #[trigger] syms[p], syms[i]) && in_layer(
                syms,
                hit,
                (d - 1) as nat,
                p,
            )
    }
}

/// The first of the layers `from ..= to` that holds `i`.
pub open spec fn first_layer(
    syms: Seq<CodeSymbol>,
    hit: Seq<bool>,
    i: int,
    from: nat,
    to: nat,
) -> Option<nat>
    decreases to + 1 - from,
{
    if from > to {
        None
    } else if in_layer(syms, hit, from, i) {
        Some(from)
    } else {
        first_layer(syms, hit, i, from + 1, to)
    }
}

/// The depth at which `i` is reported: depth 0 reports the hits, any other
/// depth the nearest layer below them down to that depth.
pub open spec fn depth_of(syms: Seq<CodeSymbol>, hit: Seq<bool>, i: int, depth: nat) -> Option<nat> {
    if depth == 0 {
        if hit[i] {
            Some(0)
        } else {
            None
        }
    } else {
        first_layer(syms, hit, i, 1, depth)
    }
}

proof fn lemma_layer_step(syms: Seq<CodeSymbol>, hit: Seq<bool>, d: nat, i: int)
    ensures
        in_layer(syms, hit, d + 1, i) == exists|p: int|
            0 <= p < syms.len() && #[trigger] in_layer(syms, hit, d, p) && is_child(
                syms,
                syms[p],
                syms[i],
            ),
{
    assert(((d + 1) - 1) as nat == d);
    if in_layer(syms, hit, d + 1, i) {
        let p = choose|p: int|
            0 <= p < syms.len() && is_child(syms, #[trigger] syms[p], syms[i]) && in_layer(
                syms,
                hit,
                d,
                p,
            );
        assert(in_layer(syms, hit, d, p));
    }
}

proof fn lemma_first_layer_extends(
    syms: Seq<CodeSymbol>,
    hit: Seq<bool>,
    i: int,
    from: nat,
    to: nat,
)
    requires
        from <= to + 1,
    ensures
        first_layer(syms, hit, i, from, to + 1) == (match first_layer(syms, hit, i, from, to) {
            Some(d) => Some(d),
            None => if in_layer(syms, hit, to + 1, i) {
                Some(to + 1)
            } else {
                None
            },
        }),
    decreases to + 1 - from,
{
    if from == to + 1 {
        assert(first_layer(syms, hit, i, from + 1, to + 1) is None);
    } else if !in_layer(syms, hit, from, i) {
        lemma_first_layer_extends(syms, hit, i, from + 1, to);
    }
}

proof fn lemma_layers_below_empty(
    syms: Seq<CodeSymbol>,
    hit: Seq<bool>,
    i: int,
    empty: nat,
    to: nat,
)
    requires
        1 <= empty <= to,
        0 <= i < syms.len(),
        forall|j: int| 0 <= j < syms.len() ==> !in_layer(syms, hit, empty, j),
    ensures
        !in_layer(syms, hit, to, i),
        first_layer(syms, hit, i, 1, to) == first_layer(syms, hit, i, 1, empty),
    decreases to - empty,
{
    if to > empty {
        let above = (to - 1) as nat;
        assert forall|j: int| 0 <= j < syms.len() implies !#[trigger] in_layer(
            syms,
            hit,
            above,
            j,
        ) by {
            lemma_layers_below_empty(syms, hit, j, empty, above);
        }
        lemma_layers_below_empty(syms, hit, i, empty, above);
        lemma_layer_step(syms, hit, above, i);
        lemma_first_layer_extends(syms, hit, i, 1, (to - 1) as nat);
    }
}

/// The symbols one layer below `layer`.
fn next_layer(
    symbols: &[CodeSymbol],
    layer: &Vec<bool>,
    Ghost(hit): Ghost<Seq<bool>>,
    Ghost(d): Ghost<nat>,
) -> (next: Vec<bool>)
    requires
        layer.len() == symbols.len(),
        forall|i: int|
            0 <= i < layer@.len() ==> #[trigger] layer@[i] == in_layer(symbols@, hit, d, i),
    ensures
        next.len() == symbols.len(),
        forall|i: int|
            0 <= i < next@.len() ==> #[trigger] next@[i] == in_layer(symbols@, hit, d + 1, i),
{
    let n: usize = symbols.len();
    let mut next: Vec<bool> = Vec::new();
    let mut i: usize = 0;
    while i < n
        invariant
            i <= n,
            next.len() == i,
            forall|j: int| 0 <= j < i ==> !#[trigger] next@[j],
        decreases n - i,
    {
        next.push(false);
        i = i + 1;
    }
    let mut p: usize = 0;
    while p < n
        invariant
            p <= n,
            n == symbols.len(),
            next.len() == n,
            layer.len() == n,
            forall|i: int|
                0 <= i < n ==> #[trigger] layer@[i] == in_layer(symbols@, hit, d, i),
            forall|j: int|
                0 <= j < n ==> (#[trigger] next@[j] <==> exists|q: int|
                    0 <= q < p && #[trigger] in_layer(symbols@, hit, d, q) && is_child(
                        symbols@,
                        symbols@[q],
                        symbols@[j],
                    )),
        decreases n - p,
    {
        let ghost was = next@;
        if layer[p] {
            let below = direct_children(symbols, &symbols[p]);
            let mut k: usize = 0;
            while k < below.len()
                invariant
                    k <= below.len(),
                    n == symbols.len(),
                    next.len() == n,
                    was.len() == n,
                    forall|k: int| 0 <= k < below@.len() ==> #[trigger] below@[k] < n,
                    forall|j: int|
                        0 <= j < n ==> (#[trigger] next@[j] <==> was[j] || below@.take(
                            k as int,
                        ).contains(j as usize)),
                decreases below.len() - k,
            {
                let ghost mid = next@;
                let c: usize = below[k];
                next.set(c, true);
                assert(below@.take(k as int + 1) =~= below@.take(k as int).push(c));
                assert forall|j: int| 0 <= j < n implies (#[trigger] next@[j] <==> was[j]
                    || below@.take(k as int + 1).contains(j as usize)) by {
                    let head = below@.take(k as int);
                    let more = below@.take(k as int + 1);
                    assert(mid[j] <==> was[j] || head.contains(j as usize));
                    if head.contains(j as usize) {
                        let m = choose|m: int| 0 <= m < head.len() && head[m] == j as usize;
                        assert(more[m] == j as usize);
                    }
                    if more.contains(j as usize) && j != c {
                        let m = choose|m: int| 0 <= m < more.len() && more[m] == j as usize;
                        assert(head[m] == j as usize);
                    }
                    if j == c {
                        assert(more[k as int] == j as usize);
                    }
                }
                k = k + 1;
            }
            assert(below@.take(below@.len() as int) =~= below@);
            assert forall|j: int| 0 <= j < n implies (#[trigger] next@[j] <==> exists|q: int|
                0 <= q < p + 1 && #[trigger] in_layer(symbols@, hit, d, q) && is_child(
                    symbols@,
                    symbols@[q],
                    symbols@[j],
                )) by {
                assert(layer@[p as int]);
                assert(below@.contains(j as usize) <==> is_child(
                    symbols@,
                    symbols@[p as int],
                    symbols@[j],
                ));
                if was[j] {
                    let q = choose|q: int|
                        0 <= q < p && #[trigger] in_layer(symbols@, hit, d, q) && is_child(
                            symbols@,
                            symbols@[q],
                            symbols@[j],
                        );
                    assert(in_layer(symbols@, hit, d, q));
                }
                if below@.contains(j as usize) {
                    assert(in_layer(symbols@, hit, d, p as int));
                }
            }
        } else {
            assert(!in_layer(symbols@, hit, d, p as int)) by {
                assert(!layer@[p as int]);
            }
            assert forall|j: int| 0 <= j < n implies (#[trigger] next@[j] <==> exists|q: int|
                0 <= q < p + 1 && #[trigger] in_layer(symbols@, hit, d, q) && is_child(
                    symbols@,
                    symbols@[q],
                    symbols@[j],
                )) by {
                if next@[j] {
                    let q = choose|q: int|
                        0 <= q < p && #[trigger] in_layer(symbols@, hit, d, q) && is_child(
                            symbols@,
                            symbols@[q],
                            symbols@[j],
                        );
                    assert(in_layer(symbols@, hit, d, q));
                }
            }
        }
        p = p + 1;
    }
    assert forall|j: int| 0 <= j < n implies #[trigger] next@[j] == in_layer(
        symbols@,
        hit,
        d + 1,
        j,
    ) by {
        lemma_layer_step(symbols@, hit, d, j);
    }
    next
}

/// The depth of every symbol below the hits.
pub fn expand(symbols: &[CodeSymbol], hit: &Vec<bool>, depth: u8) -> (out: Vec<Option<u8>>)
    requires
        hit.len() == symbols.len(),
    ensures
        out.len() == symbols.len(),
        forall|i: int|
            0 <= i < out@.len() ==> (match #[trigger] out@[i] {
                Some(d) => depth_of(symbols@, hit@, i, depth as nat) == Some(d as nat),
                None => depth_of(symbols@, hit@, i, depth as nat) is None,
            }),
{
    let n: usize = symbols.len();
    let mut out: Vec<Option<u8>> = Vec::new();
    let mut layer: Vec<bool> = Vec::new();
    let mut i: usize = 0;
    while i < n
        invariant
            i <= n,
            n == hit.len(),
            out.len() == i,
            layer@ == hit@.take(i as int),
            forall|j: int| 0 <= j < i ==> #[trigger] out@[j] == (if depth == 0 && hit@[j] {
                Some(0u8)
            } else {
                None::<u8>
            }),
        decreases n - i,
    {
        let h = hit[i];
        layer.push(h);
        assert(layer@ =~= hit@.take(i as int + 1));
        if depth == 0 && h {
            out.push(Some(0));
        } else {
            out.push(None);
        }
        i = i + 1;
    }
    assert(layer@ =~= hit@);
    if depth == 0 {
        return out;
    }
    let mut d: u8 = 0;
    while d < depth
        invariant
            d <= depth,
            n == symbols.len(),
            layer.len() == n,
            out.len() == n,
            hit.len() == n,
            depth > 0,
            forall|i: int|
                0 <= i < n ==> #[trigger] layer@[i] == in_layer(symbols@, hit@, d as nat, i),
            forall|i: int|
                0 <= i < n ==> (match #[trigger] out@[i] {
                    Some(e) => first_layer(symbols@, hit@, i, 1, d as nat) == Some(e as nat),
                    None => first_layer(symbols@, hit@, i, 1, d as nat) is None,
                }),
        decreases depth - d,
    {
        let next = next_layer(symbols, &layer, Ghost(hit@), Ghost(d as nat));
        d = d + 1;
        let ghost was = out@;
        let mut any = false;
        let mut j: usize = 0;
        while j < n
            invariant
                j <= n,
                next.len() == n,
                out.len() == n,
                was.len() == n,
                d > 0,
                any == (exists|k: int| 0 <= k < j && #[trigger] next@[k]),
                forall|k: int|
                    0 <= k < n ==> #[trigger] out@[k] == (if k < j && next@[k] && was[k] is None {
                        Some(d)
                    } else {
                        was[k]
                    }),
            decreases n - j,
        {
            if next[j] {
                any = true;
                if out[j].is_none() {
                    out.set(j, Some(d));
                }
            }
            j = j + 1;
        }
        assert forall|i: int| 0 <= i < n implies (match #[trigger] out@[i] {
            Some(e) => first_layer(symbols@, hit@, i, 1, d as nat) == Some(e as nat),
            None => first_layer(symbols@, hit@, i, 1, d as nat) is None,
        }) by {
            lemma_first_layer_extends(symbols@, hit@, i, 1, (d - 1) as nat);
            assert(was[i] is Some || was[i] is None);
            assert(next@[i] == in_layer(symbols@, hit@, d as nat, i));
        }
        if !any {
            assert forall|i: int| 0 <= i < n implies (match #[trigger] out@[i] {
                Some(e) => depth_of(symbols@, hit@, i, depth as nat) == Some(e as nat),
                None => depth_of(symbols@, hit@, i, depth as nat) is None,
            }) by {
                assert forall|j: int| 0 <= j < symbols@.len() implies !in_layer(
                    symbols@,
                    hit@,
                    d as nat,
                    j,
                ) by {
                    assert(!next@[j]);
                }
                lemma_layers_below_empty(symbols@, hit@, i, d as nat, depth as nat);
            }
            return out;
        }
        layer = next;
    }
    out
}

// -------------------------------------------------------------- matching

/// File, then first line, then name, then last line, then number.
pub open spec fn place_le(a: CodeSymbol, b: CodeSymbol) -> bool {
    if a.file != b.file {
        a.file.0 < b.file.0
    } else if a.start_line != b.start_line {
        a.start_line < b.start_line
    } else if a.name@ != b.name@ {
        text::text_le(a.name@, b.name@)
    } else if a.end_line != b.end_line {
        a.end_line < b.end_line
    } else {
        a.id.0 <= b.id.0
    }
}

/// [`place_le`] on positions.
pub open spec fn place_order(syms: Seq<CodeSymbol>) -> spec_fn(usize, usize) -> bool {
    |a: usize, b: usize|
        b >= syms.len() || (a < syms.len() && place_le(syms[a as int], syms[b as int]))
}

/// The order of results is a total preorder.
pub proof fn lemma_place_order(syms: Seq<CodeSymbol>)
    ensures
        order::total_preorder(place_order(syms)),
{
    let le = place_order(syms);
    assert forall|a: usize, b: usize| #[trigger] le(a, b) || le(b, a) by {
        if a < syms.len() && b < syms.len() {
            text::lemma_text_le_total(syms[a as int].name@, syms[b as int].name@);
        }
    }
    assert forall|a: usize, b: usize, c: usize| #[trigger] le(a, b) && #[trigger] le(b, c) implies le(
        a,
        c,
    ) by {
        if c < syms.len() {
            let x = syms[a as int];
            let y = syms[b as int];
            let z = syms[c as int];
            if text::text_le(x.name@, y.name@) && text::text_le(y.name@, z.name@) {
                text::lemma_text_le_transitive(x.name@, y.name@, z.name@);
                if x.name@ == z.name@ {
                    text::lemma_text_le_antisymmetric(x.name@, y.name@);
                }
            }
        }
    }
}

/// Whether `a` may be reported before `b`.
pub fn placed_before(a: &CodeSymbol, b: &CodeSymbol) -> (r: bool)
    ensures
        r == place_le(*a, *b),
{
    if a.file.0 != b.file.0 {
        return a.file.0 < b.file.0;
    }
    if a.start_line != b.start_line {
        return a.start_line < b.start_line;
    }
    match text::rank(a.name.as_str(), b.name.as_str()) {
        text::Rank::Before => true,
        text::Rank::After => false,
        text::Rank::Same => {
            if a.end_line != b.end_line {
                a.end_line < b.end_line
            } else {
                a.id.0 <= b.id.0
            }
        },
    }
}

/// No two symbols share a number.
pub open spec fn unique_ids(syms: Seq<CodeSymbol>) -> bool {
    forall|i: int, j: int|
        0 <= i < j < syms.len() ==> (#[trigger] syms[i]).id != (#[trigger] syms[j]).id
}

/// The symbol at `i` matches a query whose names, like `names`, are folded.
pub open spec fn is_hit(
    syms: Seq<CodeSymbol>,
    names: Seq<Seq<char>>,
    segs: Seq<Seq<char>>,
    absolute: bool,
    trailing: bool,
    substring: bool,
    i: int,
) -> bool {
    &&& names_agree(names[i], segs.last(), substring)
    &&& if segs.len() == 1 {
        absolute ==> is_top_level(syms, syms[i])
    } else {
        path_fits(syms, names, syms[i], segs.drop_last(), absolute)
    }
    &&& trailing ==> has_inside(syms, syms[i])
}

/// [`is_hit`] of every symbol.
pub open spec fn hits(
    syms: Seq<CodeSymbol>,
    names: Seq<Seq<char>>,
    segs: Seq<Seq<char>>,
    absolute: bool,
    trailing: bool,
    substring: bool,
) -> Seq<bool> {
    Seq::new(syms.len(), |i: int| is_hit(syms, names, segs, absolute, trailing, substring, i))
}

/// The positions among the first `n` that have a depth and an accepted kind.
pub open spec fn reported(
    syms: Seq<CodeSymbol>,
    hit: Seq<bool>,
    kind: KindFilter,
    depth: nat,
    n: nat,
) -> Seq<usize>
    decreases n,
{
    if n == 0 {
        Seq::empty()
    } else {
        let before = reported(syms, hit, kind, depth, (n - 1) as nat);
        if depth_of(syms, hit, n - 1, depth) is Some && kind.allows(syms[n - 1].kind) {
            before.push((n - 1) as usize)
        } else {
            before
        }
    }
}

/// The answer that a set of hits gives: what is reported, with its depth, in
/// the order of places.
pub open spec fn answer(
    syms: Seq<CodeSymbol>,
    hit: Seq<bool>,
    kind: KindFilter,
    depth: nat,
) -> Seq<NamePathMatch> {
    order::arranged(reported(syms, hit, kind, depth, syms.len()), place_order(syms)).map_values(
        |i: usize|
            NamePathMatch {
                symbol: syms[i as int].id,
                depth: depth_of(syms, hit, i as int, depth).unwrap() as u8,
            },
    )
}

/// Matches folded names against folded segments.
pub fn match_folded(
    symbols: &[CodeSymbol],
    names: &[Vec<char>],
    segs: &[Vec<char>],
    absolute: bool,
    trailing: bool,
    substring: bool,
    kind: KindFilter,
    depth: u8,
) -> (out: Vec<NamePathMatch>)
    requires
        names.len() == symbols.len(),
        segs.len() > 0,
    ensures
        out@ == answer(
            symbols@,
            hits(
                symbols@,
                text::rows(names@),
                text::rows(segs@),
                absolute,
                trailing,
                substring,
            ),
            kind,
            depth as nat,
        ),
{
    let n: usize = symbols.len();
    let ghost folded = text::rows(names@);
    let ghost wanted = text::rows(segs@);
    let ghost all = hits(symbols@, folded, wanted, absolute, trailing, substring);
    let last = &segs[segs.len() - 1];
    assert(last@ == wanted.last());
    let mut outer: Vec<Vec<char>> = Vec::new();
    let mut k: usize = 0;
    while k + 1 < segs.len()
        invariant
            k < segs.len(),
            wanted == text::rows(segs@),
            text::rows(outer@) == wanted.take(k as int),
        decreases segs.len() - k,
    {
        let ghost was = text::rows(outer@);
        outer.push(text::slice_of(&segs[k], 0, segs[k].len()));
        assert(segs@[k as int]@.subrange(0, segs@[k as int]@.len() as int) =~= wanted[k as int]);
        assert(text::rows(outer@) =~= was.push(wanted[k as int]));
        assert(wanted.take(k as int + 1) =~= wanted.take(k as int).push(wanted[k as int]));
        k = k + 1;
    }
    assert(text::rows(outer@) =~= wanted.drop_last());
    assert(text::rows(outer@).len() == outer@.len());

    let mut hit: Vec<bool> = Vec::new();
    let mut i: usize = 0;
    while i < n
        invariant
            i <= n,
            n == symbols.len(),
            n == names.len(),
            segs.len() > 0,
            segs.len() == wanted.len(),
            outer.len() + 1 == segs.len(),
            folded == text::rows(names@),
            last@ == wanted.last(),
            text::rows(outer@) == wanted.drop_last(),
            all == hits(symbols@, folded, wanted, absolute, trailing, substring),
            hit@ == all.take(i as int),
        decreases n - i,
    {
        let sym = &symbols[i];
        assert(names@[i as int]@ == folded[i as int]);
        let mut ok = folded_name_matches(&names[i], last, substring);
        if ok {
            if segs.len() == 1 {
                if absolute && ancestors_within_file(symbols, sym).len() > 0 {
                    ok = false;
                }
            } else if !chain_matches(symbols, names, sym, &outer, absolute) {
                ok = false;
            }
        }
        if ok && trailing && !is_container(symbols, sym) {
            ok = false;
        }
        hit.push(ok);
        assert(all[i as int] == ok);
        assert(hit@ =~= all.take(i as int + 1));
        i = i + 1;
    }
    assert(hit@ =~= all);
    let depths = expand(symbols, &hit, depth);
    let mut found: Vec<usize> = Vec::new();
    let mut j: usize = 0;
    while j < n
        invariant
            j <= n,
            n == symbols.len(),
            depths.len() == n,
            forall|i: int|
                0 <= i < n ==> (match #[trigger] depths@[i] {
                    Some(d) => depth_of(symbols@, all, i, depth as nat) == Some(d as nat),
                    None => depth_of(symbols@, all, i, depth as nat) is None,
                }),
            found@ == reported(symbols@, all, kind, depth as nat, j as nat),
            forall|k: int|
                0 <= k < found@.len() ==> #[trigger] found@[k] < j && depths@[found@[k] as int] is Some,
        decreases n - j,
    {
        if depths[j].is_some() && kind.accepts(&symbols[j]) {
            found.push(j);
        }
        j = j + 1;
    }
    let ghost le = place_order(symbols@);
    let ghost chosen = found@;
    let f = |a: &usize, b: &usize| -> (r: bool)
        ensures
            r == place_order(symbols@)(*a, *b),
        {
            if *b >= symbols.len() {
                true
            } else if *a >= symbols.len() {
                false
            } else {
                placed_before(&symbols[*a], &symbols[*b])
            }
        };
    proof {
        lemma_place_order(symbols@);
    }
    let places = order::sort_by(found, &f, Ghost(le));
    proof {
        order::lemma_arranged(chosen, le);
        assert forall|k: int| 0 <= k < places@.len() implies #[trigger] places@[k] < n
            && depths@[places@[k] as int] is Some by {
            assert(places@.contains(places@[k]));
            assert(chosen.contains(places@[k]));
        }
    }
    let ghost want = answer(symbols@, all, kind, depth as nat);
    let mut out: Vec<NamePathMatch> = Vec::new();
    let mut m: usize = 0;
    while m < places.len()
        invariant
            m <= places.len(),
            n == symbols.len(),
            depths.len() == n,
            want.len() == places@.len(),
            forall|k: int|
                0 <= k < places@.len() ==> #[trigger] places@[k] < n
                    && depths@[places@[k] as int] is Some,
            forall|i: int|
                0 <= i < n ==> (match #[trigger] depths@[i] {
                    Some(d) => depth_of(symbols@, all, i, depth as nat) == Some(d as nat),
                    None => depth_of(symbols@, all, i, depth as nat) is None,
                }),
            forall|k: int|
                0 <= k < places@.len() ==> #[trigger] want[k] == (NamePathMatch {
                    symbol: symbols@[places@[k] as int].id,
                    depth: depth_of(symbols@, all, places@[k] as int, depth as nat).unwrap() as u8,
                }),
            out@ == want.take(m as int),
        decreases places.len() - m,
    {
        let at: usize = places[m];
        if let Some(d) = depths[at] {
            out.push(NamePathMatch { symbol: symbols[at].id, depth: d });
            assert(want[m as int] == out@[m as int]);
            assert(out@ =~= want.take(m as int + 1));
        }
        m = m + 1;
    }
    assert(out@ =~= want);
    out
}

/// The lower-case forms of the names of `syms`.
pub open spec fn folded_names(syms: Seq<CodeSymbol>) -> Seq<Seq<char>> {
    syms.map_values(|s: CodeSymbol| text::lowercase(s.name@))
}

/// The lower-case forms of the names in `query`.
pub open spec fn folded_segments(query: Seq<char>) -> Seq<Seq<char>> {
    query_segments(query).map_values(|s: Seq<char>| text::lowercase(s))
}

/// What is found for a query: nothing for one without any name.
pub open spec fn found(
    syms: Seq<CodeSymbol>,
    query: Seq<char>,
    substring: bool,
    kind: KindFilter,
    depth: nat,
) -> Seq<NamePathMatch> {
    if query_segments(query).len() == 0 {
        Seq::empty()
    } else {
        answer(syms, query_hits(syms, query, substring), kind, depth)
    }
}

/// Which symbols match a query.
pub open spec fn query_hits(syms: Seq<CodeSymbol>, query: Seq<char>, substring: bool) -> Seq<
    bool,
> {
    hits(
        syms,
        folded_names(syms),
        folded_segments(query),
        query_absolute(query),
        query_trailing(query),
        substring,
    )
}

/// Matches symbols against a path of names.
///
/// - `name` matches any symbol of that name;
/// - `Foo/method` matches a `method` that a `Foo` of its file encloses;
/// - `/Foo/method` also wants `Foo` at the top of its file;
/// - `Foo/` matches `Foo` only where it encloses another symbol.
///
/// Case never counts. With `substring` the last name may be part of the
/// symbol's name. With a depth above 0 the descendants of the matches down to
/// that depth are reported in their place, each at its least depth. The kind
/// filter applies to everything reported. A query without any name matches
/// nothing.
pub fn match_name_path(
    symbols: &[CodeSymbol],
    query: &str,
    substring: bool,
    kind: KindFilter,
    depth: u8,
) -> (out: Vec<NamePathMatch>)
    requires
        unique_ids(symbols@),
    ensures
        out@ == found(symbols@, query@, substring, kind, depth as nat),
        query_segments(query@).len() == 0 ==> out@.len() == 0,
        query_segments(query@).len() > 0 ==> out@ == answer(
            symbols@,
            hits(
                symbols@,
                folded_names(symbols@),
                folded_segments(query@),
                query_absolute(query@),
                query_trailing(query@),
                substring,
            ),
            kind,
            depth as nat,
        ),
{
    let parsed = parse_query(query);
    let q = match parsed {
        None => {
            return Vec::new();
        },
        Some(q) => q,
    };
    let mut names: Vec<Vec<char>> = Vec::new();
    let mut i: usize = 0;
    while i < symbols.len()
        invariant
            i <= symbols.len(),
            text::rows(names@) == folded_names(symbols@).take(i as int),
        decreases symbols.len() - i,
    {
        let ghost was = text::rows(names@);
        let name = text::chars_of(text::fold(symbols[i].name.as_str()).as_str());
        names.push(name);
        assert(text::rows(names@) =~= was.push(name@));
        assert(text::rows(names@) =~= folded_names(symbols@).take(i as int + 1));
        i = i + 1;
    }
    assert(text::rows(names@) =~= folded_names(symbols@));
    assert(text::rows(names@).len() == names@.len());
    let mut segs: Vec<Vec<char>> = Vec::new();
    let mut k: usize = 0;
    while k < q.segments.len()
        invariant
            k <= q.segments.len(),
            text::texts(q.segments@) == query_segments(query@),
            text::rows(segs@) == folded_segments(query@).take(k as int),
        decreases q.segments.len() - k,
    {
        let ghost was = text::rows(segs@);
        assert(text::texts(q.segments@)[k as int] == q.segments@[k as int]@);
        let seg = text::chars_of(text::fold(q.segments[k].as_str()).as_str());
        segs.push(seg);
        assert(text::rows(segs@) =~= was.push(seg@));
        assert(text::rows(segs@) =~= folded_segments(query@).take(k as int + 1));
        k = k + 1;
    }
    assert(text::rows(segs@) =~= folded_segments(query@));
    assert(text::rows(segs@).len() == segs@.len());
    match_folded(symbols, &names, &segs, q.absolute, q.trailing_slash, substring, kind, depth)
}

// ------------------------------------------------------------------ laws

pub(crate) proof fn lemma_reported(
    syms: Seq<CodeSymbol>,
    hit: Seq<bool>,
    kind: KindFilter,
    depth: nat,
    n: nat,
)
    requires
        n <= syms.len() <= usize::MAX,
    ensures
        reported(syms, hit, kind, depth, n).no_duplicates(),
        forall|i: usize| #[trigger]
            reported(syms, hit, kind, depth, n).contains(i) <==> i < n && is_reported(
                syms,
                hit,
                kind,
                depth,
                i as int,
            ),
    decreases n,
{
    let whole = reported(syms, hit, kind, depth, n);
    if n > 0 {
        let m = (n - 1) as nat;
        let before = reported(syms, hit, kind, depth, m);
        lemma_reported(syms, hit, kind, depth, m);
        assert forall|i: usize| #[trigger] whole.contains(i) <==> i < n && is_reported(
            syms,
            hit,
            kind,
            depth,
            i as int,
        ) by {
            if before.contains(i) {
                let k = choose|k: int| 0 <= k < before.len() && before[k] == i;
                assert(whole[k] == i);
            }
            if whole.contains(i) {
                let k = choose|k: int| 0 <= k < whole.len() && whole[k] == i;
                if k < before.len() {
                    assert(before[k] == i);
                    assert(before.contains(i));
                }
            }
            if i == n - 1 && is_reported(syms, hit, kind, depth, i as int) {
                assert(whole[before.len() as int] == i);
            }
        }
        assert forall|j: int, k: int|
            0 <= j < whole.len() && 0 <= k < whole.len() && j != k implies whole[j]
            != whole[k] by {
            if j < before.len() {
                assert(before.contains(before[j]));
            }
            if k < before.len() {
                assert(before.contains(before[k]));
            }
        }
    }
}

/// The symbol at a place belongs to an answer: it has a depth and an accepted kind.
pub open spec fn is_reported(
    syms: Seq<CodeSymbol>,
    hit: Seq<bool>,
    kind: KindFilter,
    depth: nat,
    i: int,
) -> bool {
    depth_of(syms, hit, i, depth) is Some && kind.allows(syms[i].kind)
}

/// The places of the symbols of an answer, in their order.
pub open spec fn answer_places(
    syms: Seq<CodeSymbol>,
    hit: Seq<bool>,
    kind: KindFilter,
    depth: nat,
) -> Seq<usize> {
    order::arranged(reported(syms, hit, kind, depth, syms.len()), place_order(syms))
}

/// An answer holds every symbol that belongs to it, each of them once, in the
/// order of places.
pub proof fn law_answers_are_complete(
    syms: Seq<CodeSymbol>,
    hit: Seq<bool>,
    kind: KindFilter,
    depth: nat,
)
    requires
        syms.len() <= usize::MAX,
        unique_ids(syms),
    ensures
        ({
            let out = answer(syms, hit, kind, depth);
            let at = answer_places(syms, hit, kind, depth);
            &&& out.len() == at.len()
            &&& forall|k: int|
                0 <= k < out.len() ==> (#[trigger] out[k]).symbol == syms[at[k] as int].id
            &&& forall|i: usize| #[trigger]
                at.contains(i) <==> i < syms.len() && is_reported(syms, hit, kind, depth, i as int)
            &&& order::is_sorted(at, place_order(syms))
            &&& forall|j: int, k: int|
                0 <= j < k < out.len() ==> (#[trigger] out[j]).symbol != (#[trigger] out[k]).symbol
        }),
{
    let given = reported(syms, hit, kind, depth, syms.len());
    let out = answer(syms, hit, kind, depth);
    let at = answer_places(syms, hit, kind, depth);
    lemma_place_order(syms);
    lemma_reported(syms, hit, kind, depth, syms.len());
    order::lemma_arranged(given, place_order(syms));
    order::lemma_arranged_distinct(given, place_order(syms));
    assert forall|i: usize| #[trigger] at.contains(i) <==> i < syms.len() && is_reported(
        syms,
        hit,
        kind,
        depth,
        i as int,
    ) by {
        assert(at.contains(i) <==> given.contains(i));
    }
    assert forall|j: int, k: int| 0 <= j < k < out.len() implies (#[trigger] out[j]).symbol != (
    #[trigger] out[k]).symbol by {
        assert(at.contains(at[j]) && at.contains(at[k]));
        assert(at[j] != at[k]);
        assert(out[j].symbol == syms[at[j] as int].id);
        assert(out[k].symbol == syms[at[k] as int].id);
    }
}

} // verus!
