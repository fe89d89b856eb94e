//! References, definitions and hover texts.

use crate::laws::text as texts;
use crate::lsp::queries;
use crate::lsp::queries::Ask;
use crate::lsp::uri;
use crate::lsp::uri::RepoRoot;
use crate::lsp::{Location, LspError, Position, Precise, Range};
use crate::text;
use crate::types::{Confidence, RelPath};
use vstd::prelude::*;

verus! {

/// A letter, a digit or an underscore.
pub open spec fn joins_words(c: char) -> bool {
    text::char_alphanumeric(c) || c == '_'
}

/// `name` stands in `line` at `i`, and neither what stands directly before it nor
/// what stands directly behind it joins it to a longer word.
pub open spec fn stands_as_word(line: Seq<char>, name: Seq<char>, i: int) -> bool {
    &&& texts::runs_from(line, name, i)
    &&& i > 0 ==> !joins_words(line[i - 1])
    &&& i + name.len() < line.len() ==> !joins_words(line[i + name.len() as int])
}

/// Every character of a name could be part of a word.
pub open spec fn is_wordy(name: Seq<char>) -> bool {
    forall|k: int| 0 <= k < name.len() ==> joins_words(#[trigger] name[k])
}

proof fn lemma_runs(hay: Seq<char>, needle: Seq<char>, at: int)
    ensures
        text::stands_at(hay, needle, at) == texts::runs_from(hay, needle, at),
{
    if text::stands_at(hay, needle, at) {
        assert forall|k: int| 0 <= k < needle.len() implies hay[at + k] == #[trigger] needle[k] by {
            assert(hay.subrange(at, at + needle.len())[k] == needle[k]);
        }
    }
    if texts::runs_from(hay, needle, at) {
        assert(hay.subrange(at, at + needle.len()) =~= needle);
    }
}

proof fn lemma_whole_word(line: Seq<char>, name: Seq<char>, from: nat)
    requires
        name.len() > 0,
    ensures
        match queries::whole_word(line, queries::word_flags(line), name, from) {
            Some(i) => from <= i && stands_as_word(line, name, i as int) && (is_wordy(name)
                ==> forall|k: int| from <= k < i ==> !stands_as_word(line, name, k)),
            None => is_wordy(name) ==> forall|k: int| from <= k ==> !stands_as_word(line, name, k),
        },
    decreases line.len() - from,
{
    let word = queries::word_flags(line);
    queries::lemma_first_text(line, name, from);
    match queries::first_text(line, name, from) {
        None => {
            assert forall|k: int| from <= k implies !stands_as_word(line, name, k) by {
                lemma_runs(line, name, k);
            }
        },
        Some(f) => {
            let i = f as int;
            let end = i + name.len();
            lemma_runs(line, name, i);
            assert(queries::stands_alone(word, i, end) == stands_as_word(line, name, i));
            assert forall|k: int| from <= k < i implies !stands_as_word(line, name, k) by {
                lemma_runs(line, name, k);
            }
            if !queries::stands_alone(word, i, end) {
                lemma_whole_word(line, name, f + name.len());
                if is_wordy(name) {
                    assert forall|k: int| i < k < end implies !stands_as_word(line, name, k) by {
                        let at = k - 1 - i;
                        assert(line[i + at] == name[at]);
                        assert(joins_words(name[at]));
                    }
                }
            }
        },
    }
}

/// A word stands in a line at a place, which the position gives in UTF-16 units.
pub open spec fn is_place_of(
    lines: Seq<Seq<char>>,
    name: Seq<char>,
    p: Position,
    l: int,
    i: int,
) -> bool {
    &&& 0 <= l < lines.len()
    &&& stands_as_word(lines[l], name, i)
    &&& p.line == l as u32
    &&& p.character == queries::utf16_len(lines[l].take(i)) as u32
}

/// A name is looked for as a whole word: where a place is found, the name stands
/// there and nothing joins it to a longer word; and of a name that could be a word
/// it is the first such place, and none is found only where there is none.
pub proof fn law_names_are_found_as_whole_words(source: &str, name: &str, r: Option<Position>)
    requires
        call_ensures(queries::first_identifier_position, (source, name), r),
    ensures
        ({
            let lines = queries::source_lines(source@);
            match r {
                Some(p) => name@.len() > 0 && exists|l: int, i: int| #[trigger]
                    is_place_of(lines, name@, p, l, i) && (is_wordy(name@) ==> forall|
                        m: int,
                        k: int,
                    |
                        0 <= m < lines.len() && #[trigger] stands_as_word(lines[m], name@, k) ==> l
                            < m || (l == m && i <= k)),
                None => name@.len() > 0 && is_wordy(name@) ==> forall|m: int, k: int|
                    0 <= m < lines.len() ==> !#[trigger] stands_as_word(lines[m], name@, k),
            }
        }),
{
    if name@.len() > 0 {
        lemma_place(queries::source_lines(source@), name@, 0);
    }
}

proof fn lemma_place(lines: Seq<Seq<char>>, name: Seq<char>, from: nat)
    requires
        name.len() > 0,
    ensures
        match queries::place_from(lines, name, from) {
            Some(p) => exists|l: int, i: int| #[trigger]
                is_place_of(lines, name, p, l, i) && from <= l && (is_wordy(name) ==> forall|
                    m: int,
                    k: int,
                |
                    from <= m < lines.len() && #[trigger] stands_as_word(lines[m], name, k) ==> l
                        < m || (l == m && i <= k)),
            None => is_wordy(name) ==> forall|m: int, k: int|
                from <= m < lines.len() ==> !#[trigger] stands_as_word(lines[m], name, k),
        },
    decreases lines.len() - from,
{
    if from < lines.len() {
        let line = lines[from as int];
        lemma_whole_word(line, name, 0);
        match queries::whole_word(line, queries::word_flags(line), name, 0) {
            Some(i) => {
                let p = queries::place_from(lines, name, from).unwrap();
                assert(is_place_of(lines, name, p, from as int, i as int));
                if is_wordy(name) {
                    assert forall|m: int, k: int|
                        from <= m < lines.len() && #[trigger] stands_as_word(
                            lines[m],
                            name,
                            k,
                        ) implies (from as int) < m || (from == m && i <= k) by {}
                }
            },
            None => {
                lemma_place(lines, name, from + 1);
                if let Some(p) = queries::place_from(lines, name, from + 1) {
                    let (l, i) = choose|l: int, i: int| #[trigger]
                        is_place_of(lines, name, p, l, i) && from + 1 <= l && (is_wordy(name)
                            ==> forall|m: int, k: int|
                            from + 1 <= m < lines.len() && #[trigger] stands_as_word(
                                lines[m],
                                name,
                                k,
                            ) ==> l < m || (l == m && i <= k));
                    assert(is_place_of(lines, name, p, l, i));
                    assert(is_wordy(name) ==> forall|m: int, k: int|
                        from <= m < lines.len() && #[trigger] stands_as_word(lines[m], name, k)
                            ==> l < m || (l == m && i <= k));
                }
            },
        }
    }
}

/// The lines that a name is looked for in are what line feeds part, each without
/// a carriage return at its end.
pub proof fn law_source_lines_are_parted_by_line_feeds(a: Seq<char>, b: Seq<char>)
    requires
        !a.contains('\n'),
    ensures
        queries::source_lines(a.push('\n') + b) == queries::source_lines(a)
            + queries::source_lines(b),
        queries::source_lines(a) == seq![
            if a.len() > 0 && a.last() == '\r' {
                a.drop_last()
            } else {
                a
            },
        ],
{
    texts::law_texts_are_cut_everywhere(a, b, '\n');
    assert(queries::source_lines(a) =~= seq![text::without_return(a)]);
    assert(queries::source_lines(a.push('\n') + b) =~= queries::source_lines(a)
        + queries::source_lines(b));
}

/// Positions count UTF-16 units: two for a character beyond the first plane, one
/// for any other.
pub proof fn law_positions_count_utf16_units(a: Seq<char>, b: Seq<char>, c: char)
    ensures
        queries::utf16_len(a + b) == queries::utf16_len(a) + queries::utf16_len(b),
        queries::utf16_len(seq![c]) == (if c as u32 > 0xffff {
            2nat
        } else {
            1nat
        }),
    decreases b.len(),
{
    assert(seq![c].drop_last() =~= Seq::<char>::empty());
    assert(queries::utf16_len(seq![c].drop_last()) == 0);
    if b.len() == 0 {
        assert(a + b =~= a);
    } else {
        law_positions_count_utf16_units(a, b.drop_last(), c);
        assert((a + b).drop_last() =~= a + b.drop_last());
    }
}

/// A query by name asks the server at the first place of the name: for
/// references, for definitions and for hover texts alike.
pub proof fn law_queries_by_name_ask_at_the_first_place(
    path: &RelPath,
    name: &str,
    source: &str,
    place: Option<Position>,
    references: Ask,
    definition: Ask,
    hover: queries::AskHover,
)
    requires
        call_ensures(queries::first_identifier_position, (source, name), place),
        call_ensures(queries::resolve_named_site, (path, name, Ok(source)), references),
        call_ensures(queries::resolve_definition_position, (path, name, Ok(source)), definition),
        call_ensures(queries::resolve_named_hover_site, (path, name, Ok(source)), hover),
    ensures
        match place {
            Some(p) => references == Ask::Definition(p) && definition == Ask::Definition(p)
                && hover == queries::AskHover::Definition(p),
            None => references is Answer && definition is Answer && hover is Answer,
        },
{
}

// ------------------------------------------------------------------ hits

proof fn lemma_inside(hits: Seq<Location>, root: RepoRoot, x: (Seq<char>, Range))
    ensures
        queries::inside(hits, root).contains(x) <==> exists|k: int|
            0 <= k < hits.len() && uri::rel_from_server((#[trigger] hits[k]).path@, root) == Some(
                x.0,
            ) && hits[k].range == x.1,
        queries::inside(hits, root).len() + queries::outside(hits, root).len() == hits.len(),
    decreases hits.len(),
{
    if hits.len() > 0 {
        let front = hits.drop_last();
        let before = queries::inside(front, root);
        let now = queries::inside(hits, root);
        lemma_inside(front, root, x);
        assert(before.contains(x) ==> now.contains(x)) by {
            if before.contains(x) {
                let k = choose|k: int| 0 <= k < before.len() && before[k] == x;
                assert(now[k] == x);
            }
        }
        if exists|k: int|
            0 <= k < hits.len() && uri::rel_from_server((#[trigger] hits[k]).path@, root) == Some(
                x.0,
            ) && hits[k].range == x.1 {
            let k = choose|k: int|
                0 <= k < hits.len() && uri::rel_from_server((#[trigger] hits[k]).path@, root)
                    == Some(x.0) && hits[k].range == x.1;
            if k < front.len() {
                assert(front[k] == hits[k]);
            } else {
                assert(now[before.len() as int] == x);
            }
        }
        if now.contains(x) {
            let k = choose|k: int| 0 <= k < now.len() && now[k] == x;
            if k < before.len() {
                assert(before[k] == x);
                assert(before.contains(x));
                let j = choose|j: int|
                    0 <= j < front.len() && uri::rel_from_server(
                        (#[trigger] front[j]).path@,
                        root,
                    ) == Some(x.0) && front[j].range == x.1;
                assert(front[j] == hits[j]);
            } else {
                let l = hits.len() - 1;
                assert(uri::rel_from_server(hits[l].path@, root) == Some(x.0));
            }
        }
    }
}

/// The answer of a server that is not busy holds the place of every hit inside
/// the repository, under its path there, and no other, each once; those of the
/// queried file come first. Where hits lie outside a note says so, and none is
/// made otherwise.
pub proof fn law_hits_inside_the_repository_are_given(
    hits: &Vec<Location>,
    root: &RepoRoot,
    origin: &RelPath,
    r: Precise<Vec<Location>>,
    path: Seq<char>,
    range: Range,
)
    requires
        call_ensures(queries::finalize_hits, (hits, root, origin), r),
    ensures
        (exists|i: int|
            0 <= i < r.value@.len() && (#[trigger] r.value@[i]).path@ == path && r.value@[i].range
                == range) <==> exists|k: int|
            0 <= k < hits@.len() && uri::rel_from_server((#[trigger] hits@[k]).path@, *root)
                == Some(path) && hits@[k].range == range,
        forall|i: int, j: int|
            0 <= i < j < r.value@.len() ==> {
                &&& !((#[trigger] r.value@[i]).path@ == (#[trigger] r.value@[j]).path@
                    && r.value@[i].range == r.value@[j].range)
                &&& r.value@[j].path@ == origin@ ==> r.value@[i].path@ == origin@
            },
        r.confidence == Confidence::Exact,
        r.note is Some <==> exists|k: int|
            0 <= k < hits@.len() && uri::rel_from_server((#[trigger] hits@[k]).path@, *root)
                is None,
{
    let keys = queries::keys_of(r.value@);
    lemma_inside(hits@, *root, (path, range));
    lemma_outside(hits@, *root);
    if exists|i: int|
        0 <= i < r.value@.len() && (#[trigger] r.value@[i]).path@ == path && r.value@[i].range
            == range {
        let i = choose|i: int|
            0 <= i < r.value@.len() && (#[trigger] r.value@[i]).path@ == path && r.value@[i].range
                == range;
        assert(keys[i] == (path, range));
        assert(keys.contains((path, range)));
    }
    if keys.contains((path, range)) {
        let i = choose|i: int| 0 <= i < keys.len() && keys[i] == (path, range);
        assert(r.value@[i].path@ == path && r.value@[i].range == range);
    }
    assert forall|i: int, j: int| 0 <= i < j < r.value@.len() implies {
        &&& !((#[trigger] r.value@[i]).path@ == (#[trigger] r.value@[j]).path@
            && r.value@[i].range == r.value@[j].range)
        &&& r.value@[j].path@ == origin@ ==> r.value@[i].path@ == origin@
    } by {
        assert(keys[i] == (r.value@[i].path@, r.value@[i].range));
        assert(keys[j] == (r.value@[j].path@, r.value@[j].range));
        assert(queries::location_le(Some(origin@), keys[i], keys[j]));
    }
}

proof fn lemma_outside(hits: Seq<Location>, root: RepoRoot)
    ensures
        queries::outside(hits, root).len() > 0 <==> exists|k: int|
            0 <= k < hits.len() && uri::rel_from_server((#[trigger] hits[k]).path@, root) is None,
    decreases hits.len(),
{
    if hits.len() > 0 {
        let front = hits.drop_last();
        lemma_outside(front, root);
        if exists|k: int|
            0 <= k < front.len() && uri::rel_from_server((#[trigger] front[k]).path@, root)
                is None {
            let k = choose|k: int|
                0 <= k < front.len() && uri::rel_from_server((#[trigger] front[k]).path@, root)
                    is None;
            assert(hits[k] == front[k]);
        }
        if exists|k: int|
            0 <= k < hits.len() && uri::rel_from_server((#[trigger] hits[k]).path@, root) is None {
            let k = choose|k: int|
                0 <= k < hits.len() && uri::rel_from_server((#[trigger] hits[k]).path@, root)
                    is None;
            if k < front.len() {
                assert(front[k] == hits[k]);
            }
        }
    }
}

/// A query for references by name is about the one definition inside the
/// repository, where there is one and no other, and about the place that was found
/// otherwise.
pub proof fn law_one_definition_is_what_a_name_means(
    path: &RelPath,
    position: Position,
    defs: Vec<Location>,
    root: &RepoRoot,
    r: Ask,
    k: int,
)
    requires
        call_ensures(
            queries::site_from_definition,
            (path, position, &Ok::<Vec<Location>, LspError>(defs), root),
            r,
        ),
        0 <= k < defs@.len(),
        uri::rel_from_server(defs@[k].path@, *root) is Some,
    ensures
        (forall|j: int|
            0 <= j < defs@.len() && j != k ==> uri::rel_from_server(
                (#[trigger] defs@[j]).path@,
                *root,
            ) is None) ==> (r matches Ask::References(p, at) && Some(p@) == uri::rel_from_server(
            defs@[k].path@,
            *root,
        ) && at == defs@[k].range.start),
        (exists|j: int|
            0 <= j < defs@.len() && j != k && uri::rel_from_server(
                (#[trigger] defs@[j]).path@,
                *root,
            ) is Some) ==> (r matches Ask::References(p, at) && p@ == path@ && at == position),
{
    let hits = defs@;
    if forall|j: int|
        0 <= j < hits.len() && j != k ==> uri::rel_from_server((#[trigger] hits[j]).path@, *root)
            is None {
        lemma_one_inside(hits, *root, k);
    } else {
        let j = choose|j: int|
            0 <= j < hits.len() && j != k && uri::rel_from_server(
                (#[trigger] hits[j]).path@,
                *root,
            ) is Some;
        if j < k {
            lemma_two_inside(hits, *root, j, k);
        } else {
            lemma_two_inside(hits, *root, k, j);
        }
    }
    let x = (uri::rel_from_server(hits[k].path@, *root).unwrap(), hits[k].range);
    lemma_inside(hits, *root, x);
    assert(queries::inside(hits, *root).contains(x));
}

proof fn lemma_two_inside(hits: Seq<Location>, root: RepoRoot, j: int, k: int)
    requires
        0 <= j < k < hits.len(),
        uri::rel_from_server(hits[j].path@, root) is Some,
        uri::rel_from_server(hits[k].path@, root) is Some,
    ensures
        queries::inside(hits, root).len() >= 2,
    decreases hits.len(),
{
    let front = hits.drop_last();
    assert(front[j] == hits[j]);
    if k < hits.len() - 1 {
        assert(front[k] == hits[k]);
        lemma_two_inside(front, root, j, k);
    } else {
        lemma_inside_none(front, root);
    }
}

proof fn lemma_one_inside(hits: Seq<Location>, root: RepoRoot, k: int)
    requires
        0 <= k < hits.len(),
        uri::rel_from_server(hits[k].path@, root) is Some,
        forall|j: int|
            0 <= j < hits.len() && j != k ==> uri::rel_from_server(
                (#[trigger] hits[j]).path@,
                root,
            ) is None,
    ensures
        queries::inside(hits, root).len() == 1,
    decreases hits.len(),
{
    let front = hits.drop_last();
    let l = hits.len() - 1;
    assert forall|j: int| 0 <= j < front.len() && j != k implies uri::rel_from_server(
        (#[trigger] front[j]).path@,
        root,
    ) is None by {
        assert(front[j] == hits[j]);
    }
    if k < l {
        assert(front[k] == hits[k]);
        assert(uri::rel_from_server(hits[l].path@, root) is None);
        lemma_one_inside(front, root, k);
    } else {
        lemma_inside_none(front, root);
    }
}

proof fn lemma_inside_none(hits: Seq<Location>, root: RepoRoot)
    ensures
        queries::inside(hits, root).len() == 0 <==> forall|j: int|
            0 <= j < hits.len() ==> uri::rel_from_server((#[trigger] hits[j]).path@, root) is None,
    decreases hits.len(),
{
    if hits.len() > 0 {
        let front = hits.drop_last();
        let l = hits.len() - 1;
        lemma_inside_none(front, root);
        if queries::inside(hits, root).len() == 0 {
            assert forall|j: int| 0 <= j < hits.len() implies uri::rel_from_server(
                (#[trigger] hits[j]).path@,
                root,
            ) is None by {
                if j < l {
                    assert(front[j] == hits[j]);
                }
            }
        }
        if forall|j: int|
            0 <= j < hits.len() ==> uri::rel_from_server((#[trigger] hits[j]).path@, root)
                is None {
            assert(uri::rel_from_server(hits[l].path@, root) is None);
            assert forall|j: int| 0 <= j < front.len() implies uri::rel_from_server(
                (#[trigger] front[j]).path@,
                root,
            ) is None by {
                assert(front[j] == hits[j]);
            }
        }
    }
}

} // verus!
