//! How strongly a task speaks for files.

use crate::graph;
use crate::graph::CodeGraph;
use crate::laws::text as texts;
use crate::order;
use crate::ranking;
use crate::ranking::Emphasis;
use crate::text;
use crate::types;
use crate::types::{CodeEdge, CodeFile, CodeSymbol, EdgeKind};
use std::collections::{HashMap, HashSet};
use vstd::prelude::*;

verus! {

/// What stands behind the last slash of a path.
pub open spec fn is_file_name(name: Seq<char>, path: Seq<char>) -> bool {
    &&& !name.contains('/')
    &&& name.len() <= path.len()
    &&& path.skip(path.len() - name.len()) == name
    &&& name.len() < path.len() ==> path[path.len() - name.len() - 1] == '/'
}

proof fn lemma_file_name(name: Seq<char>, path: Seq<char>)
    requires
        is_file_name(name, path),
    ensures
        name == types::last_component(path),
{
    let own = types::last_component(path);
    texts::law_last_components_follow_the_last_slash(path);
    if name.len() < own.len() {
        let k = own.len() - name.len() - 1;
        assert(own[k] == path[path.len() - name.len() - 1]);
        assert(own.contains(own[k]));
    } else if own.len() < name.len() {
        let k = name.len() - own.len() - 1;
        assert(name[k] == path.skip(path.len() - name.len())[k]);
        assert(name[k] == path[path.len() - own.len() - 1]);
        assert(name.contains(name[k]));
    }
}

/// A task brings a file into context where it holds the path of the file or what
/// stands behind the last slash of it, in whatever case, and nowhere else.
pub proof fn law_mentioned_files_are_in_context(
    g: &CodeGraph,
    task: &str,
    out: HashSet<u32>,
    k: int,
    name: Seq<char>,
)
    requires
        call_ensures(ranking::context_files, (g, task), out),
        graph::unique_files(g.files@),
        0 <= k < g.files@.len(),
        is_file_name(name, g.files@[k].path@),
    ensures
        out@.contains(g.files@[k].id.0) <==> text::contains_text(
            text::lowercase(task@),
            text::lowercase(name),
        ) || text::contains_text(text::lowercase(task@), text::lowercase(g.files@[k].path@)),
{
    let id = g.files@[k].id.0;
    lemma_file_name(name, g.files@[k].path@);
    if out@.contains(id) {
        let j = choose|j: int|
            0 <= j < g.files@.len() && (#[trigger] g.files@[j]).id.0 == id && ranking::mentions(
                task@,
                g.files@[j].path@,
            );
        if j < k {
            assert(g.files@[j].id != g.files@[k].id);
        } else if k < j {
            assert(g.files@[k].id != g.files@[j].id);
        }
    }
}

// ----------------------------------------------------------------- words

/// A word ends before `i` and another one may start there: something other than
/// a letter or digit stands on one side, or a capital starts a new hump.
pub open spec fn parts_words(s: Seq<char>, i: int) -> bool {
    ||| i == 0
    ||| i == s.len()
    ||| !text::char_alphanumeric(s[i - 1])
    ||| !text::char_alphanumeric(s[i])
    ||| text::char_uppercase(s[i]) && (text::char_in_lowercase(s[i - 1]) || text::char_numeric(
        s[i - 1],
    ))
    ||| text::char_uppercase(s[i]) && text::char_uppercase(s[i - 1]) && i + 1 < s.len()
        && text::char_in_lowercase(s[i + 1])
}

/// From `a` to `b` stands one word.
pub open spec fn word_stands(s: Seq<char>, a: int, b: int) -> bool {
    &&& 0 <= a < b <= s.len()
    &&& parts_words(s, a)
    &&& parts_words(s, b)
    &&& forall|i: int| a <= i < b ==> text::char_alphanumeric(#[trigger] s[i])
    &&& forall|i: int| a < i < b ==> !#[trigger] parts_words(s, i)
}

proof fn lemma_word(s: Seq<char>, a: int, b: int)
    ensures
        ranking::is_word(ranking::classes_of(s), a, b) == word_stands(s, a, b),
{
    let cl = ranking::classes_of(s);
    assert forall|i: int| 0 <= i <= s.len() implies #[trigger] ranking::cuts_at(cl, i)
        == parts_words(s, i) by {}
    if ranking::is_word(cl, a, b) {
        assert forall|i: int| a <= i < b implies text::char_alphanumeric(#[trigger] s[i]) by {
            assert(cl[i].alphanumeric);
        }
        assert forall|i: int| a < i < b implies !#[trigger] parts_words(s, i) by {
            assert(!ranking::cuts_at(cl, i));
        }
    }
    if word_stands(s, a, b) {
        assert forall|i: int| a <= i < b implies (#[trigger] cl[i]).alphanumeric by {
            assert(text::char_alphanumeric(s[i]));
        }
        assert forall|i: int| a < i < b implies !#[trigger] ranking::cuts_at(cl, i) by {
            assert(!parts_words(s, i));
        }
    }
}

/// The words of a text are its longest runs of letters and digits between the
/// places that part words, in small letters; each is listed once, in order.
pub proof fn law_words_are_what_stands_between_partings(s: &str, out: Vec<String>, w: Seq<char>)
    requires
        call_ensures(ranking::split_words, (s,), out),
    ensures
        text::texts(out@).contains(w) <==> exists|a: int, b: int| #[trigger]
            word_stands(s@, a, b) && w == text::lowercase(s@.subrange(a, b)),
        text::ascending(text::texts(out@)),
{
    lemma_words(s@, w);
}

proof fn lemma_words(s: Seq<char>, w: Seq<char>)
    ensures
        ranking::words_of(s).contains(w) <==> exists|a: int, b: int| #[trigger]
            word_stands(s, a, b) && w == text::lowercase(s.subrange(a, b)),
{
    let cl = ranking::classes_of(s);
    if ranking::words_of(s).contains(w) {
        let (a, b) = choose|a: int, b: int| #[trigger]
            ranking::is_word(cl, a, b) && w == text::lowercase(s.subrange(a, b));
        lemma_word(s, a, b);
        assert(word_stands(s, a, b));
    }
    if exists|a: int, b: int| #[trigger]
        word_stands(s, a, b) && w == text::lowercase(s.subrange(a, b)) {
        let (a, b) = choose|a: int, b: int| #[trigger]
            word_stands(s, a, b) && w == text::lowercase(s.subrange(a, b));
        lemma_word(s, a, b);
        assert(ranking::is_word(cl, a, b));
    }
}

/// Running letters and digits together goes character by character: letters and
/// digits stay, in small letters, and nothing else does.
pub proof fn law_compact_texts_keep_letters_and_digits(a: Seq<char>, b: Seq<char>, c: char)
    ensures
        ranking::compacted(a + b) == ranking::compacted(a) + ranking::compacted(b),
        ranking::compacted(seq![c]) == (if text::char_alphanumeric(c) {
            text::char_lowercase(c)
        } else {
            Seq::<char>::empty()
        }),
    decreases b.len(),
{
    let one = seq![c];
    assert(one.drop_last() =~= Seq::<char>::empty());
    assert(ranking::compacted(one.drop_last()) =~= Seq::<char>::empty());
    assert(ranking::compacted(one) =~= if text::char_alphanumeric(c) {
        text::char_lowercase(c)
    } else {
        Seq::<char>::empty()
    });
    if b.len() == 0 {
        assert(a + b =~= a);
        assert(ranking::compacted(a) + ranking::compacted(b) =~= ranking::compacted(a));
    } else {
        law_compact_texts_keep_letters_and_digits(a, b.drop_last(), c);
        assert((a + b).drop_last() =~= a + b.drop_last());
        assert(ranking::compacted(a + b) =~= ranking::compacted(a) + ranking::compacted(b));
    }
}

/// A word of a name that counts: it takes three bytes or more.
pub open spec fn counts_in(name: Seq<char>, w: Seq<char>) -> bool {
    ranking::words_of(name).contains(w) && vstd::utf8::encode_utf8(w).len() >= 3
}

/// A task names a symbol whose name it holds run together, if that takes three
/// bytes or more.
pub proof fn law_tasks_name_what_they_hold(task: Seq<char>, name: Seq<char>)
    requires
        vstd::utf8::encode_utf8(ranking::compacted(name)).len() >= 3,
        text::contains_text(ranking::compacted(task), ranking::compacted(name)),
    ensures
        ranking::task_names(task, name),
{
}

/// A task names a symbol two of whose words that count are among its own words.
pub proof fn law_two_shared_words_name_a_symbol(
    task: Seq<char>,
    name: Seq<char>,
    v: Seq<char>,
    w: Seq<char>,
)
    requires
        v != w,
        counts_in(name, v),
        counts_in(name, w),
        ranking::words_of(task).contains(v),
        ranking::words_of(task).contains(w),
        ranking::words_of(name).finite(),
    ensures
        ranking::task_names(task, name),
{
    let long = ranking::long_words(ranking::words_of(name));
    let shared = long.intersect(ranking::words_of(task));
    assert(long.contains(v) && long.contains(w));
    assert(shared.contains(v) && shared.contains(w));
    assert(long.finite()) by {
        assert(long.subset_of(ranking::words_of(name)));
        vstd::set_lib::lemma_set_subset_finite(ranking::words_of(name), long);
    }
    vstd::set_lib::lemma_set_subset_finite(long, shared);
    lemma_two(shared, v, w);
    lemma_two(long, v, w);
}

proof fn lemma_two(s: Set<Seq<char>>, v: Seq<char>, w: Seq<char>)
    requires
        s.finite(),
        s.contains(v),
        s.contains(w),
        v != w,
    ensures
        s.len() >= 2,
{
    let t = s.remove(v);
    assert(t.contains(w));
    assert(t.len() > 0) by {
        if t.len() == 0 {
            assert(t =~= Set::empty());
        }
    }
}

/// A task names a symbol whose only word that counts is among its own.
pub proof fn law_the_only_word_names_a_symbol(task: Seq<char>, name: Seq<char>, w: Seq<char>)
    requires
        counts_in(name, w),
        forall|v: Seq<char>| counts_in(name, v) ==> v == w,
        ranking::words_of(task).contains(w),
    ensures
        ranking::task_names(task, name),
{
    let long = ranking::long_words(ranking::words_of(name));
    let shared = long.intersect(ranking::words_of(task));
    assert(long =~= set![w]) by {
        assert forall|v: Seq<char>| #[trigger] long.contains(v) <==> v == w by {
            if long.contains(v) {
                assert(counts_in(name, v));
            }
        }
    }
    assert(shared =~= set![w]);
}

/// A task names no other symbols: it holds the name run together, or it has two of
/// the words that count, or the only one.
pub proof fn law_no_other_symbols_are_named(task: Seq<char>, name: Seq<char>)
    requires
        ranking::task_names(task, name),
        ranking::words_of(name).finite(),
    ensures
        ({
            ||| vstd::utf8::encode_utf8(ranking::compacted(name)).len() >= 3 && text::contains_text(
                ranking::compacted(task),
                ranking::compacted(name),
            )
            ||| exists|v: Seq<char>, w: Seq<char>|
                v != w && #[trigger] shares(task, name, v) && #[trigger] shares(task, name, w)
            ||| exists|w: Seq<char>| #[trigger]
                shares(task, name, w) && forall|v: Seq<char>| #[trigger]
                    counts_in(name, v) ==> v == w
        }),
{
    let long = ranking::long_words(ranking::words_of(name));
    let shared = long.intersect(ranking::words_of(task));
    assert(long.subset_of(ranking::words_of(name)));
    vstd::set_lib::lemma_set_subset_finite(ranking::words_of(name), long);
    vstd::set_lib::lemma_set_subset_finite(long, shared);
    if long.len() > 0 && shared.len() > 0 {
        let w = lemma_some(shared);
        assert(long.contains(w));
        assert(shares(task, name, w));
        if shared.len() >= 2 {
            let rest = shared.remove(w);
            let v = lemma_some(rest);
            assert(long.contains(v));
            assert(shares(task, name, v));
        } else if long.len() == 1 {
            assert forall|v: Seq<char>| #[trigger] counts_in(name, v) implies v == w by {
                assert(long.contains(v) && long.contains(w));
                if v != w {
                    lemma_two(long, v, w);
                }
            }
        }
    }
}

proof fn lemma_some(s: Set<Seq<char>>) -> (w: Seq<char>)
    requires
        s.finite(),
        s.len() > 0,
    ensures
        s.contains(w),
{
    assert(exists|w: Seq<char>| s.contains(w)) by {
        if forall|w: Seq<char>| !s.contains(w) {
            assert(s =~= Set::empty());
        }
    }
    choose|w: Seq<char>| s.contains(w)
}

/// A word of a name that counts is among the words of a task.
pub open spec fn shares(task: Seq<char>, name: Seq<char>, w: Seq<char>) -> bool {
    counts_in(name, w) && ranking::words_of(task).contains(w)
}

/// How many of the first `n` symbols are of this file and named by the task; with
/// `specific` only those with specific names.
pub open spec fn named_in(
    symbols: Seq<CodeSymbol>,
    file: u32,
    task: Seq<char>,
    specific: bool,
    n: nat,
) -> nat
    decreases n,
{
    if n == 0 {
        0
    } else {
        let s = symbols[n - 1];
        named_in(symbols, file, task, specific, (n - 1) as nat) + (if s.file.0 == file
            && ranking::task_names(task, s.name@) && (!specific || ranking::name_is_specific(
            s.name@,
        )) {
            1nat
        } else {
            0nat
        })
    }
}

proof fn lemma_named(
    symbols: Seq<CodeSymbol>,
    files: Seq<CodeFile>,
    places: Map<u32, usize>,
    task: Seq<char>,
    i: int,
    specific: bool,
    n: nat,
)
    requires
        graph::unique_files(files),
        files.len() <= usize::MAX,
        ranking::is_placing(places, ranking::sorted_ids(files)),
        0 <= i < files.len(),
        n <= symbols.len(),
    ensures
        ranking::named_symbols(symbols, places, task, i, specific, n) == named_in(
            symbols,
            ranking::sorted_ids(files)[i],
            task,
            specific,
            n,
        ),
    decreases n,
{
    if n > 0 {
        lemma_named(symbols, files, places, task, i, specific, (n - 1) as nat);
        let ids = ranking::sorted_ids(files);
        let id = symbols[n - 1].file.0;
        ranking::lemma_sorted_ids_distinct(files);
        ranking::lemma_file_order(files);
        order::lemma_arranged(
            Seq::new(files.len(), |k: int| k as usize),
            ranking::file_order(files),
        );
        assert(ids.len() == files.len());
        if id == ids[i] {
            ranking::lemma_place_of_distinct(ids, i);
            assert(places.contains_key(id));
        }
        if places.contains_key(id) {
            assert(ids[places[id] as int] == id);
        }
    }
}

/// A file is emphasised for each of its symbols that the task names, once more
/// for each of those with a specific name, and for being in context. A name is
/// specific that takes twelve bytes run together, or has three words that count.
pub proof fn law_files_are_emphasised_for_their_symbols(
    g: &CodeGraph,
    task: &str,
    sorted: &Vec<usize>,
    places: &HashMap<u32, usize>,
    context: &HashSet<u32>,
    out: Vec<Emphasis>,
    i: int,
)
    requires
        graph::unique_files(g.files@),
        g.files@.len() <= usize::MAX,
        call_ensures(ranking::sorted_files, (g,), *sorted),
        ranking::is_placing(places@, ranking::sorted_ids(g.files@)),
        call_ensures(ranking::task_emphasis, (g, task, sorted, places, context), out),
        0 <= i < g.files@.len(),
    ensures
        out@.len() == g.files@.len(),
        ({
            let file = g.files@[sorted@[i] as int].id.0;
            &&& out@[i].named == named_in(g.symbols@, file, task@, false, g.symbols@.len())
            &&& out@[i].specific == named_in(g.symbols@, file, task@, true, g.symbols@.len())
            &&& out@[i].in_context == context@.contains(file)
        }),
{
    lemma_named(g.symbols@, g.files@, places@, task@, i, false, g.symbols@.len());
    lemma_named(g.symbols@, g.files@, places@, task@, i, true, g.symbols@.len());
    assert(ranking::sorted_ids(g.files@)[i] == g.files@[sorted@[i] as int].id.0);
}

/// Names are specific by their length, or by the number of their words that
/// count.
pub proof fn law_long_names_are_specific(name: Seq<char>, words: Set<Seq<char>>)
    requires
        words.finite(),
        forall|w: Seq<char>| #[trigger] words.contains(w) <==> counts_in(name, w),
    ensures
        ranking::name_is_specific(name) <==> vstd::utf8::encode_utf8(
            ranking::compacted(name),
        ).len() >= 12 || words.len() >= 3,
{
    assert(ranking::long_words(ranking::words_of(name)) =~= words) by {
        assert forall|w: Seq<char>| #[trigger]
            ranking::long_words(ranking::words_of(name)).contains(w) <==> words.contains(w) by {
            assert(words.contains(w) <==> counts_in(name, w));
        }
    }
}

// --------------------------------------------------------------- weights

/// What the imports of one file by another among the first `n` edges weigh
/// together; one without a weight weighs 1.
pub open spec fn import_weight(edges: Seq<CodeEdge>, a: u32, b: u32, n: nat) -> int
    decreases n,
{
    if n == 0 {
        0
    } else {
        let e = edges[n - 1];
        import_weight(edges, a, b, (n - 1) as nat) + (if e.kind == EdgeKind::Import && e.from == a
            && e.to == b {
            if e.weight > 1 {
                e.weight as int
            } else {
                1
            }
        } else {
            0
        })
    }
}

proof fn lemma_weight(edges: Seq<CodeEdge>, context: Set<u32>, a: u32, b: u32, n: nat)
    requires
        n <= edges.len(),
    ensures
        ranking::weight_within(edges, context, a, b, n) == (if context.contains(a) {
            50 * import_weight(edges, a, b, n)
        } else {
            import_weight(edges, a, b, n)
        }),
        import_weight(edges, a, b, n) >= 0,
        import_weight(edges, a, b, n) > 0 <==> exists|e: int|
            0 <= e < n && (#[trigger] edges[e]).kind == EdgeKind::Import && edges[e].from == a
                && edges[e].to == b,
    decreases n,
{
    if n > 0 {
        lemma_weight(edges, context, a, b, (n - 1) as nat);
        let e = edges[n - 1];
        if e.kind == EdgeKind::Import && e.from == a && e.to == b {
            assert(edges[n - 1].kind == EdgeKind::Import);
        }
    }
}

/// A file leads to another in the import rows exactly where it imports it, with
/// the weight of those imports, fifty times that where it is in context.
pub proof fn law_import_rows_weigh_imports(
    g: &CodeGraph,
    places: &HashMap<u32, usize>,
    context: &HashSet<u32>,
    out: Vec<Vec<(usize, u64)>>,
    a: u32,
    b: u32,
)
    requires
        graph::unique_files(g.files@),
        g.files@.len() <= usize::MAX,
        ranking::is_placing(places@, ranking::sorted_ids(g.files@)),
        call_ensures(ranking::import_adjacency, (g, places, context), out),
        graph::known(g.files@, a),
        graph::known(g.files@, b),
    ensures
        ({
            let weight = import_weight(g.edges@, a, b, g.edges@.len());
            let factor: int = if context@.contains(a) {
                50
            } else {
                1
            };
            &&& places@.contains_key(a) && places@.contains_key(b)
            &&& places@[a] < out@.len()
            &&& (exists|k: int|
                0 <= k < out@[places@[a] as int]@.len() && (
                #[trigger] out@[places@[a] as int]@[k]).0 == places@[b]) <==> weight > 0
            &&& forall|k: int|
                0 <= k < out@[places@[a] as int]@.len() && (
                #[trigger] out@[places@[a] as int]@[k]).0 == places@[b]
                    ==> out@[places@[a] as int]@[k].1 == (if weight * factor > u64::MAX {
                    u64::MAX as int
                } else {
                    weight * factor
                })
        }),
{
    let ids = ranking::sorted_ids(g.files@);
    ranking::lemma_sorted_ids_hold(g.files@, a);
    ranking::lemma_sorted_ids_hold(g.files@, b);
    lemma_has_place(ids, a);
    lemma_has_place(ids, b);
    lemma_weight(g.edges@, context@, a, b, g.edges@.len());
    assert(places@.contains_key(a));
    assert(places@.contains_key(b));
    ranking::lemma_file_order(g.files@);
    order::lemma_arranged(
        Seq::new(g.files@.len(), |k: int| k as usize),
        ranking::file_order(g.files@),
    );
    let i = places@[a] as int;
    assert(ids.len() == g.files@.len());
    let row = out@[i]@;
    assert(ranking::is_import_row(row, g.edges@, ids, places@, context@, i));
    assert(ids[i] == a);
    assert(ids[places@[b] as int] == b);
    assert(ranking::imported_within(g.edges@, a, b, g.edges@.len() as int) <==> import_weight(
        g.edges@,
        a,
        b,
        g.edges@.len(),
    ) > 0);
    assert forall|k: int| 0 <= k < row.len() && (#[trigger] row[k]).0 == places@[b] implies {
        &&& import_weight(g.edges@, a, b, g.edges@.len()) > 0
        &&& row[k].1 == ranking::capped(
            ranking::weight_within(g.edges@, context@, a, b, g.edges@.len()),
        )
    } by {
        assert(ids[row[k].0 as int] == b);
    }
}

proof fn lemma_has_place(ids: Seq<u32>, id: u32)
    requires
        ids.contains(id),
    ensures
        ranking::place_of(ids, id, ids.len()) is Some,
{
    let k = choose|k: int| 0 <= k < ids.len() && ids[k] == id;
    lemma_has_place_within(ids, id, k, ids.len());
}

proof fn lemma_has_place_within(ids: Seq<u32>, id: u32, k: int, n: nat)
    requires
        0 <= k < n <= ids.len(),
        ids[k] == id,
    ensures
        ranking::place_of(ids, id, n) is Some,
    decreases n,
{
    if ids[n - 1] != id {
        lemma_has_place_within(ids, id, k, (n - 1) as nat);
    }
}

} // verus!
