//! Text as sequences of characters.
//!
//! Every contract of the crate speaks of a string through its view, a
//! `Seq<char>`. This module moves between strings and vectors of characters
//! and holds the text operations that the other modules share.

use vstd::prelude::*;
use vstd::std_specs::iter::IteratorSpec;
use vstd::string::*;

verus! {

/// `String::push`: appends one character to the end of the string.
pub assume_specification[ String::push ](s: &mut String, c: char)
    ensures
        final(s)@ == old(s)@.push(c),
;

// ---------------------------------------------------------------- views

/// The texts that a sequence of character vectors stands for.
pub open spec fn rows(v: Seq<Vec<char>>) -> Seq<Seq<char>> {
    v.map_values(|r: Vec<char>| r@)
}

/// The texts that a sequence of strings stands for.
pub open spec fn texts(v: Seq<String>) -> Seq<Seq<char>> {
    v.map_values(|r: String| r@)
}

/// The characters of `s`, in order.
pub fn chars_of(s: &str) -> (out: Vec<char>)
    ensures
        out@ == s@,
{
    broadcast use vstd::string::axiom_spec_iter;

    let mut out: Vec<char> = Vec::new();
    for c in it: s.chars()
        invariant
            it.seq() == s@,
            out@ == s@.take(it.index() as int),
    {
        out.push(c);
        assert(out@ =~= s@.take(it.index() as int + 1));
    }
    assert(s@.take(s@.len() as int) =~= s@);
    out
}

/// The string that holds exactly the characters of `cs`.
pub fn string_of(cs: &[char]) -> (out: String)
    ensures
        out@ == cs@,
{
    let mut out = String::new();
    let mut i: usize = 0;
    while i < cs.len()
        invariant
            i <= cs.len(),
            out@ == cs@.take(i as int),
        decreases cs.len() - i,
    {
        out.push(cs[i]);
        assert(out@ =~= cs@.take(i as int + 1));
        i = i + 1;
    }
    assert(cs@.take(cs@.len() as int) =~= cs@);
    out
}

/// The characters `from .. to` of `cs`.
pub fn slice_of(cs: &[char], from: usize, to: usize) -> (out: Vec<char>)
    requires
        from <= to <= cs.len(),
    ensures
        out@ == cs@.subrange(from as int, to as int),
{
    let mut out: Vec<char> = Vec::new();
    let mut i: usize = from;
    while i < to
        invariant
            from <= i <= to <= cs.len(),
            out@ == cs@.subrange(from as int, i as int),
        decreases to - i,
    {
        out.push(cs[i]);
        assert(out@ =~= cs@.subrange(from as int, i as int + 1));
        i = i + 1;
    }
    out
}

// ------------------------------------------------------------ comparison

/// Lexicographic order by code point.
pub open spec fn text_le(a: Seq<char>, b: Seq<char>) -> bool
    decreases a.len(),
{
    if a.len() == 0 {
        true
    } else if b.len() == 0 {
        false
    } else if a[0] == b[0] {
        text_le(a.drop_first(), b.drop_first())
    } else {
        a[0] < b[0]
    }
}

/// Text order is total.
pub proof fn lemma_text_le_total(a: Seq<char>, b: Seq<char>)
    ensures
        text_le(a, b) || text_le(b, a),
    decreases a.len(),
{
    if a.len() > 0 && b.len() > 0 && a[0] == b[0] {
        lemma_text_le_total(a.drop_first(), b.drop_first());
    }
}

/// Text order is transitive.
pub proof fn lemma_text_le_transitive(a: Seq<char>, b: Seq<char>, c: Seq<char>)
    requires
        text_le(a, b),
        text_le(b, c),
    ensures
        text_le(a, c),
    decreases a.len(),
{
    if a.len() > 0 && a[0] == b[0] && b[0] == c[0] {
        lemma_text_le_transitive(a.drop_first(), b.drop_first(), c.drop_first());
    }
}

/// Only equal texts stand before each other.
pub proof fn lemma_text_le_antisymmetric(a: Seq<char>, b: Seq<char>)
    requires
        text_le(a, b),
        text_le(b, a),
    ensures
        a == b,
    decreases a.len(),
{
    if a.len() > 0 {
        lemma_text_le_antisymmetric(a.drop_first(), b.drop_first());
        assert(a =~= seq![a[0]] + a.drop_first());
        assert(b =~= seq![b[0]] + b.drop_first());
    } else {
        assert(a =~= b);
    }
}

/// How two texts compare.
#[derive(Clone, Copy, Debug, PartialEq, Eq, Structural)]
pub enum Rank {
    Before,
    Same,
    After,
}

/// The place of `a` against `b` in text order.
pub open spec fn rank_of(a: Seq<char>, b: Seq<char>) -> Rank {
    if a == b {
        Rank::Same
    } else if text_le(a, b) {
        Rank::Before
    } else {
        Rank::After
    }
}

/// Compares two texts by code point.
pub fn rank(a: &str, b: &str) -> (r: Rank)
    ensures
        r == rank_of(a@, b@),
{
    broadcast use {vstd::string::axiom_spec_iter, vstd::string::next_postcondition};

    let mut x = a.chars();
    let mut y = b.chars();
    let ghost mut done: int = 0;
    assert(a@.skip(0) =~= a@);
    assert(b@.skip(0) =~= b@);
    loop
        invariant
            0 <= done <= a@.len(),
            done <= b@.len(),
            x.remaining() == a@.skip(done),
            y.remaining() == b@.skip(done),
            x.obeys_prophetic_iter_laws(),
            y.obeys_prophetic_iter_laws(),
            a@.take(done) == b@.take(done),
            text_le(a@, b@) == text_le(a@.skip(done), b@.skip(done)),
        decreases a@.len() - done,
    {
        let p = x.next();
        let q = y.next();
        assert(a@ =~= a@.take(done) + a@.skip(done));
        assert(b@ =~= b@.take(done) + b@.skip(done));
        match p {
            None => {
                match q {
                    None => {
                        assert(a@ =~= b@);
                        return Rank::Same;
                    },
                    Some(_) => {
                        assert(a@.len() != b@.len());
                        return Rank::Before;
                    },
                }
            },
            Some(c) => match q {
                None => {
                    assert(a@.len() != b@.len());
                    return Rank::After;
                },
                Some(d) => {
                    if c != d {
                        assert(a@[done] == c && b@[done] == d);
                        if c < d {
                            return Rank::Before;
                        }
                        return Rank::After;
                    }
                    proof {
                        assert(a@.skip(done).drop_first() =~= a@.skip(done + 1));
                        assert(b@.skip(done).drop_first() =~= b@.skip(done + 1));
                        assert(a@.take(done + 1) =~= a@.take(done).push(c));
                        assert(b@.take(done + 1) =~= b@.take(done).push(d));
                        done = done + 1;
                    }
                },
            },
        }
    }
}

/// Whether two texts are the same.
pub fn same(a: &str, b: &str) -> (r: bool)
    ensures
        r == (a@ == b@),
{
    match rank(a, b) {
        Rank::Same => true,
        _ => false,
    }
}

/// Whether `a` may stand before `b`.
pub fn at_most(a: &str, b: &str) -> (r: bool)
    ensures
        r == text_le(a@, b@),
{
    proof {
        if a@ == b@ {
            lemma_text_le_total(a@, b@);
        }
    }
    match rank(a, b) {
        Rank::After => false,
        _ => true,
    }
}

/// Whether two character runs are the same.
pub fn same_chars(a: &[char], b: &[char]) -> (r: bool)
    ensures
        r == (a@ == b@),
{
    if a.len() != b.len() {
        return false;
    }
    let mut i: usize = 0;
    while i < a.len()
        invariant
            a.len() == b.len(),
            i <= a.len(),
            forall|k: int| 0 <= k < i ==> a@[k] == b@[k],
        decreases a.len() - i,
    {
        if a[i] != b[i] {
            assert(a@[i as int] != b@[i as int]);
            return false;
        }
        i = i + 1;
    }
    assert(a@ =~= b@);
    true
}

// ------------------------------------------------------------- searching

/// `needle` stands in `hay` at `at`.
pub open spec fn stands_at(hay: Seq<char>, needle: Seq<char>, at: int) -> bool {
    0 <= at && at + needle.len() <= hay.len() && hay.subrange(at, at + needle.len()) == needle
}

/// `needle` stands somewhere in `hay`.
pub open spec fn contains_text(hay: Seq<char>, needle: Seq<char>) -> bool {
    exists|at: int| stands_at(hay, needle, at)
}

/// Whether `needle` stands in `hay` at `at`.
pub fn stands_here(hay: &[char], needle: &[char], at: usize) -> (r: bool)
    ensures
        r == stands_at(hay@, needle@, at as int),
{
    if hay.len() < needle.len() || at > hay.len() - needle.len() {
        return false;
    }
    let mut i: usize = 0;
    while i < needle.len()
        invariant
            at + needle.len() <= hay.len(),
            i <= needle.len(),
            forall|k: int| 0 <= k < i ==> hay@[at + k] == needle@[k],
        decreases needle.len() - i,
    {
        if hay[at + i] != needle[i] {
            assert(hay@.subrange(at as int, at + needle@.len())[i as int] != needle@[i as int]);
            return false;
        }
        i = i + 1;
    }
    assert(hay@.subrange(at as int, at + needle@.len()) =~= needle@);
    true
}

/// The first place at or after `from` where `needle` stands in `hay`.
pub fn find_from(hay: &[char], needle: &[char], from: usize) -> (r: Option<usize>)
    ensures
        match r {
            Some(at) => from <= at && stands_at(hay@, needle@, at as int) && forall|k: int|
                from <= k < at ==> !stands_at(hay@, needle@, k),
            None => forall|k: int| from <= k ==> !stands_at(hay@, needle@, k),
        },
{
    let mut at: usize = from;
    while at <= hay.len()
        invariant
            from <= at,
            hay.len() < usize::MAX || at <= hay.len(),
            forall|k: int| from <= k < at ==> !stands_at(hay@, needle@, k),
        decreases hay.len() + 1 - at,
    {
        if stands_here(hay, needle, at) {
            return Some(at);
        }
        if at == hay.len() {
            return None;
        }
        at = at + 1;
    }
    None
}

/// Whether `needle` stands somewhere in `hay`.
pub fn has_text(hay: &[char], needle: &[char]) -> (r: bool)
    ensures
        r == contains_text(hay@, needle@),
{
    match find_from(hay, needle, 0) {
        Some(at) => {
            assert(stands_at(hay@, needle@, at as int));
            true
        },
        None => false,
    }
}

/// Whether `cs` begins with `prefix`.
pub fn starts_with(cs: &[char], prefix: &[char]) -> (r: bool)
    ensures
        r == prefix@.is_prefix_of(cs@),
{
    let r = stands_here(cs, prefix, 0);
    assert(stands_at(cs@, prefix@, 0) ==> prefix@ == cs@.subrange(0, prefix@.len() as int));
    r
}

/// Whether `cs` ends with `suffix`.
pub fn ends_with(cs: &[char], suffix: &[char]) -> (r: bool)
    ensures
        r == suffix@.is_suffix_of(cs@),
{
    if suffix.len() > cs.len() {
        return false;
    }
    let at: usize = cs.len() - suffix.len();
    let r = stands_here(cs, suffix, at);
    assert(at + suffix@.len() == cs@.len());
    r
}

// ------------------------------------------------------------ splitting

/// `s` cut at every `c`; a text without `c` is one piece.
pub open spec fn pieces(s: Seq<char>, c: char) -> Seq<Seq<char>>
    decreases s.len(),
{
    if s.len() == 0 {
        seq![Seq::<char>::empty()]
    } else {
        let before = pieces(s.drop_last(), c);
        if s.last() == c {
            before.push(Seq::<char>::empty())
        } else {
            before.update(before.len() - 1, before.last().push(s.last()))
        }
    }
}

pub proof fn lemma_pieces_nonempty(s: Seq<char>, c: char)
    ensures
        pieces(s, c).len() > 0,
    decreases s.len(),
{
    if s.len() > 0 {
        lemma_pieces_nonempty(s.drop_last(), c);
    }
}

/// Cuts `s` at every `c`.
pub fn split_on(s: &[char], c: char) -> (out: Vec<Vec<char>>)
    ensures
        rows(out@) == pieces(s@, c),
{
    let mut out: Vec<Vec<char>> = Vec::new();
    let mut piece: Vec<char> = Vec::new();
    let mut i: usize = 0;
    assert(s@.take(0) =~= Seq::<char>::empty());
    assert(rows(out@).push(piece@) =~= seq![Seq::<char>::empty()]);
    while i < s.len()
        invariant
            i <= s.len(),
            rows(out@).push(piece@) == pieces(s@.take(i as int), c),
        decreases s.len() - i,
    {
        let ghost before = pieces(s@.take(i as int), c);
        let ghost was = (rows(out@), piece@);
        let x = s[i];
        assert(s@.take(i as int + 1).drop_last() =~= s@.take(i as int));
        if x == c {
            out.push(piece);
            piece = Vec::new();
            assert(rows(out@) =~= was.0.push(was.1));
            assert(rows(out@).push(piece@) =~= before.push(Seq::<char>::empty()));
        } else {
            piece.push(x);
            assert(rows(out@).push(piece@) =~= before.update(
                before.len() - 1,
                before.last().push(x),
            ));
        }
        i = i + 1;
    }
    assert(s@.take(s@.len() as int) =~= s@);
    let ghost was = (rows(out@), piece@);
    out.push(piece);
    assert(rows(out@) =~= was.0.push(was.1));
    out
}

// ------------------------------------------------------------ ASCII case

/// `c` with an ASCII capital turned into its small letter.
pub open spec fn ascii_lower_char(c: char) -> char {
    if 'A' <= c <= 'Z' {
        (c as u32 + 32) as char
    } else {
        c
    }
}

/// `s` with every ASCII capital turned into its small letter.
pub open spec fn ascii_lower(s: Seq<char>) -> Seq<char> {
    s.map_values(|c: char| ascii_lower_char(c))
}

/// Turns an ASCII capital into its small letter.
pub fn lower_char(c: char) -> (r: char)
    ensures
        r == ascii_lower_char(c),
{
    if 'A' <= c && c <= 'Z' {
        let small: u8 = (c as u8) + 32;
        small as char
    } else {
        c
    }
}

/// Turns every ASCII capital into its small letter.
pub fn lower_chars(s: &[char]) -> (out: Vec<char>)
    ensures
        out@ == ascii_lower(s@),
{
    let mut out: Vec<char> = Vec::new();
    let mut i: usize = 0;
    while i < s.len()
        invariant
            i <= s.len(),
            out@ == ascii_lower(s@.take(i as int)),
        decreases s.len() - i,
    {
        out.push(lower_char(s[i]));
        assert(out@ =~= ascii_lower(s@.take(i as int + 1)));
        i = i + 1;
    }
    assert(s@.take(s@.len() as int) =~= s@);
    out
}

/// Turns every ASCII capital into its small letter.
pub fn to_ascii_lower(s: &str) -> (out: String)
    ensures
        out@ == ascii_lower(s@),
{
    string_of(&lower_chars(&chars_of(s)))
}

// -------------------------------------------------------------- folding

/// What [`str::to_lowercase`] makes of a text.
pub uninterp spec fn lowercase(s: Seq<char>) -> Seq<char>;

/// `str::to_lowercase`: the Unicode lower-case form of a text, named
/// [`lowercase`].
#[verifier::external_body]
pub(crate) fn fold(s: &str) -> (out: String)
    ensures
        out@ == lowercase(s@),
{
    s.to_lowercase()
}

/// What [`char::to_lowercase`] makes of a character.
pub uninterp spec fn char_lowercase(c: char) -> Seq<char>;

/// `char::to_lowercase`: the lower-case characters of one character, named
/// [`char_lowercase`].
#[verifier::external_body]
pub(crate) fn fold_char(c: char) -> (out: Vec<char>)
    ensures
        out@ == char_lowercase(c),
{
    c.to_lowercase().collect()
}

/// What [`char::is_alphanumeric`] says of a character.
pub uninterp spec fn char_alphanumeric(c: char) -> bool;

/// `char::is_alphanumeric`, named [`char_alphanumeric`].
pub assume_specification[ char::is_alphanumeric ](c: char) -> (r: bool)
    ensures
        r == char_alphanumeric(c),
;

/// What [`char::is_uppercase`] says of a character.
pub uninterp spec fn char_uppercase(c: char) -> bool;

/// `char::is_uppercase`, named [`char_uppercase`].
pub assume_specification[ char::is_uppercase ](c: char) -> (r: bool)
    ensures
        r == char_uppercase(c),
;

/// What [`char::is_lowercase`] says of a character.
pub uninterp spec fn char_in_lowercase(c: char) -> bool;

/// `char::is_lowercase`, named [`char_in_lowercase`].
pub assume_specification[ char::is_lowercase ](c: char) -> (r: bool)
    ensures
        r == char_in_lowercase(c),
;

/// What [`char::is_numeric`] says of a character.
pub uninterp spec fn char_numeric(c: char) -> bool;

/// `char::is_numeric`, named [`char_numeric`].
pub assume_specification[ char::is_numeric ](c: char) -> (r: bool)
    ensures
        r == char_numeric(c),
;

/// The number of bytes of a text in UTF-8.
pub open spec fn utf8_len(s: Seq<char>) -> nat {
    vstd::utf8::encode_utf8(s).len()
}

/// The number of bytes of a text in UTF-8.
pub fn byte_len(s: &str) -> (r: usize)
    ensures
        r == utf8_len(s@),
{
    s.as_bytes().len()
}

// ------------------------------------------------------------------ sets

/// Texts in strictly ascending order.
pub open spec fn ascending(v: Seq<Seq<char>>) -> bool {
    forall|i: int, j: int|
        0 <= i < j < v.len() ==> text_le(#[trigger] v[i], #[trigger] v[j]) && v[i] != v[j]
}

spec fn string_order() -> spec_fn(String, String) -> bool {
    |a: String, b: String| text_le(a@, b@)
}

fn string_before(a: &String, b: &String) -> (r: bool)
    ensures
        r == string_order()(*a, *b),
{
    at_most(a.as_str(), b.as_str())
}

/// The texts of `v`, each once, in ascending order.
pub fn sort_unique(v: Vec<String>) -> (out: Vec<String>)
    ensures
        ascending(texts(out@)),
        forall|t: Seq<char>| #[trigger] texts(out@).contains(t) <==> texts(v@).contains(t),
{
    let ghost given = v@;
    let ghost le = string_order();
    proof {
        assert forall|a: String, b: String| #[trigger] le(a, b) || le(b, a) by {
            lemma_text_le_total(a@, b@);
        }
        assert forall|a: String, b: String, c: String| #[trigger]
            le(a, b) && #[trigger] le(b, c) implies le(a, c) by {
            lemma_text_le_transitive(a@, b@, c@);
        }
    }
    let sorted = crate::order::sort_by(v, &string_before, Ghost(le));
    proof {
        crate::order::lemma_arranged(given, le);
    }
    let mut out: Vec<String> = Vec::new();
    let mut i: usize = 0;
    while i < sorted.len()
        invariant
            i <= sorted.len(),
            le == string_order(),
            crate::order::is_sorted(sorted@, le),
            ascending(texts(out@)),
            out@.len() > 0 <==> i > 0,
            out@.len() > 0 ==> out@.last()@ == sorted@[i - 1]@,
            forall|t: Seq<char>| #[trigger]
                texts(out@).contains(t) <==> texts(sorted@.take(i as int)).contains(t),
        decreases sorted.len() - i,
    {
        let ghost was = out@;
        let ghost head = sorted@.take(i as int);
        let ghost more = sorted@.take(i as int + 1);
        let repeated = out.len() > 0 && same(out[out.len() - 1].as_str(), sorted[i].as_str());
        if !repeated {
            out.push(sorted[i].clone());
        }
        proof {
            assert(more =~= head.push(sorted@[i as int]));
            assert(texts(more) =~= texts(head).push(sorted@[i as int]@));
            assert forall|t: Seq<char>| #[trigger] texts(more).contains(t) <==> texts(head).contains(t)
                || t == sorted@[i as int]@ by {
                let x = texts(head);
                let y = texts(more);
                if x.contains(t) {
                    let k = choose|k: int| 0 <= k < x.len() && x[k] == t;
                    assert(y[k] == t);
                }
                if t == sorted@[i as int]@ {
                    assert(y[i as int] == t);
                }
                if y.contains(t) {
                    let k = choose|k: int| 0 <= k < y.len() && y[k] == t;
                    if k < i {
                        assert(x[k] == t);
                    }
                }
            }
            if repeated {
                assert(texts(was)[was.len() - 1] == sorted@[i as int]@);
            } else {
                assert(texts(out@) =~= texts(was).push(sorted@[i as int]@));
                assert forall|t: Seq<char>| #[trigger] texts(out@).contains(t) <==> texts(was).contains(t)
                    || t == sorted@[i as int]@ by {
                    let x = texts(was);
                    let y = texts(out@);
                    if x.contains(t) {
                        let k = choose|k: int| 0 <= k < x.len() && x[k] == t;
                        assert(y[k] == t);
                    }
                    if t == sorted@[i as int]@ {
                        assert(y[was.len() as int] == t);
                    }
                    if y.contains(t) {
                        let k = choose|k: int| 0 <= k < y.len() && y[k] == t;
                        if k < was.len() {
                            assert(x[k] == t);
                        }
                    }
                }
                let y = texts(out@);
                assert forall|a: int, b: int| 0 <= a < b < y.len() implies text_le(
                    #[trigger] y[a],
                    #[trigger] y[b],
                ) && y[a] != y[b] by {
                    let x = texts(was);
                    if b < was.len() {
                        assert(x[a] == y[a] && x[b] == y[b]);
                    } else {
                        let last = sorted@[i as int]@;
                        let prev = was.last()@;
                        assert(y[b] == last);
                        assert(x[was.len() - 1] == prev);
                        assert(prev == sorted@[i - 1]@);
                        assert(le(sorted@[i - 1], sorted@[i as int]));
                        assert(text_le(prev, last));
                        assert(prev != last);
                        if a < was.len() - 1 {
                            assert(x[a] == y[a]);
                            assert(text_le(x[a], x[was.len() - 1]));
                            lemma_text_le_transitive(y[a], prev, last);
                            if y[a] == last {
                                lemma_text_le_antisymmetric(prev, last);
                            }
                        }
                    }
                }
            }
        }
        i = i + 1;
    }
    proof {
        assert(sorted@.take(sorted@.len() as int) =~= sorted@);
        assert forall|t: Seq<char>| #[trigger] texts(out@).contains(t) <==> texts(given).contains(t) by {
            assert(texts(out@).contains(t) <==> texts(sorted@).contains(t));
            let x = texts(sorted@);
            let y = texts(given);
            if x.contains(t) {
                let k = choose|k: int| 0 <= k < x.len() && x[k] == t;
                assert(sorted@.contains(sorted@[k]));
                let m = choose|m: int| 0 <= m < given.len() && given[m] == sorted@[k];
                assert(y[m] == t);
            }
            if y.contains(t) {
                let k = choose|k: int| 0 <= k < y.len() && y[k] == t;
                assert(given.contains(given[k]));
                assert(sorted@.contains(given[k]));
                let m = choose|m: int| 0 <= m < sorted@.len() && sorted@[m] == given[k];
                assert(x[m] == t);
            }
        }
    }
    out
}

/// Whether `t` is among `v`.
pub fn has_string(v: &Vec<String>, t: &str) -> (r: bool)
    ensures
        r == texts(v@).contains(t@),
{
    let mut i: usize = 0;
    while i < v.len()
        invariant
            i <= v.len(),
            forall|k: int| 0 <= k < i ==> (#[trigger] v@[k])@ != t@,
        decreases v.len() - i,
    {
        if same(v[i].as_str(), t) {
            assert(texts(v@)[i as int] == t@);
            return true;
        }
        i = i + 1;
    }
    assert forall|k: int| 0 <= k < texts(v@).len() implies texts(v@)[k] != t@ by {
        assert(v@[k]@ != t@);
    }
    false
}

// ------------------------------------------------------------ whitespace

/// The characters of Unicode's `White_Space` property.
pub open spec fn is_white_space(c: char) -> bool {
    ||| '\u{9}' <= c <= '\u{D}'
    ||| c == '\u{20}'
    ||| c == '\u{85}'
    ||| c == '\u{A0}'
    ||| c == '\u{1680}'
    ||| '\u{2000}' <= c <= '\u{200A}'
    ||| c == '\u{2028}'
    ||| c == '\u{2029}'
    ||| c == '\u{202F}'
    ||| c == '\u{205F}'
    ||| c == '\u{3000}'
}

/// Whether `c` is white space.
pub fn white_space(c: char) -> (r: bool)
    ensures
        r == is_white_space(c),
{
    ('\u{9}' <= c && c <= '\u{D}') || c == '\u{20}' || c == '\u{85}' || c == '\u{A0}' || c
        == '\u{1680}' || ('\u{2000}' <= c && c <= '\u{200A}') || c == '\u{2028}' || c == '\u{2029}'
        || c == '\u{202F}' || c == '\u{205F}' || c == '\u{3000}'
}

/// `s` without white space at its start.
pub open spec fn trimmed_start(s: Seq<char>) -> Seq<char>
    decreases s.len(),
{
    if s.len() > 0 && is_white_space(s[0]) {
        trimmed_start(s.drop_first())
    } else {
        s
    }
}

/// `s` without white space at its end.
pub open spec fn trimmed_end(s: Seq<char>) -> Seq<char>
    decreases s.len(),
{
    if s.len() > 0 && is_white_space(s.last()) {
        trimmed_end(s.drop_last())
    } else {
        s
    }
}

/// `s` without white space at either end.
pub open spec fn trimmed(s: Seq<char>) -> Seq<char> {
    trimmed_end(trimmed_start(s))
}

/// Takes white space off both ends.
pub fn trim(s: &[char]) -> (out: Vec<char>)
    ensures
        out@ == trimmed(s@),
{
    let mut from: usize = 0;
    assert(s@.skip(0) =~= s@);
    while from < s.len() && white_space(s[from])
        invariant
            from <= s.len(),
            trimmed_start(s@) == trimmed_start(s@.skip(from as int)),
        decreases s.len() - from,
    {
        assert(s@.skip(from as int).drop_first() =~= s@.skip(from as int + 1));
        from = from + 1;
    }
    let mut to: usize = s.len();
    assert(s@.skip(from as int) =~= s@.subrange(from as int, to as int));
    while from < to && white_space(s[to - 1])
        invariant
            from <= to <= s.len(),
            trimmed(s@) == trimmed_end(s@.subrange(from as int, to as int)),
        decreases to,
    {
        assert(s@.subrange(from as int, to as int).drop_last() =~= s@.subrange(
            from as int,
            to as int - 1,
        ));
        to = to - 1;
    }
    slice_of(s, from, to)
}

// ----------------------------------------------------------------- lines

/// `s` without one carriage return at its end.
pub open spec fn without_return(s: Seq<char>) -> Seq<char> {
    if s.len() > 0 && s.last() == '\r' {
        s.drop_last()
    } else {
        s
    }
}

/// The lines of a text: what stands before each line feed, without a carriage
/// return at its end, and what stands behind the last line feed unless that is
/// nothing.
pub open spec fn lines_of(s: Seq<char>) -> Seq<Seq<char>> {
    let parts = pieces(s, '\n');
    let ended = parts.drop_last().map_values(|l: Seq<char>| without_return(l));
    if parts.last().len() == 0 {
        ended
    } else {
        ended.push(parts.last())
    }
}

/// The lines of a text.
pub fn split_lines(s: &[char]) -> (out: Vec<Vec<char>>)
    ensures
        rows(out@) == lines_of(s@),
{
    let parts = split_on(s, '\n');
    let ghost all = rows(parts@);
    proof {
        lemma_pieces_nonempty(s@, '\n');
    }
    let n: usize = parts.len() - 1;
    let mut out: Vec<Vec<char>> = Vec::new();
    let mut i: usize = 0;
    while i < n
        invariant
            i <= n,
            n + 1 == parts.len(),
            all == rows(parts@),
            rows(out@) == all.take(i as int).map_values(|l: Seq<char>| without_return(l)),
        decreases n - i,
    {
        let ghost was = rows(out@);
        let line = &parts[i];
        assert(line@ == all[i as int]);
        let len: usize = line.len();
        let cut = if len > 0 && line[len - 1] == '\r' {
            slice_of(line, 0, len - 1)
        } else {
            slice_of(line, 0, len)
        };
        assert(cut@ =~= without_return(all[i as int]));
        out.push(cut);
        assert(rows(out@) =~= was.push(cut@));
        assert(rows(out@) =~= all.take(i as int + 1).map_values(
            |l: Seq<char>| without_return(l),
        ));
        i = i + 1;
    }
    assert(all.take(n as int) =~= all.drop_last());
    let last = &parts[n];
    assert(last@ == all.last());
    if last.len() > 0 {
        let ghost was = rows(out@);
        let rest = slice_of(last, 0, last.len());
        assert(rest@ =~= all.last());
        out.push(rest);
        assert(rows(out@) =~= was.push(rest@));
    }
    out
}

// --------------------------------------------------------------- numbers

/// `c` is a decimal digit.
pub open spec fn is_digit(c: char) -> bool {
    '0' <= c <= '9'
}

/// Every character is a decimal digit.
pub open spec fn all_digits(s: Seq<char>) -> bool {
    forall|i: int| 0 <= i < s.len() ==> is_digit(#[trigger] s[i])
}

/// The number that decimal digits write.
pub open spec fn digits_value(s: Seq<char>) -> int
    decreases s.len(),
{
    if s.len() == 0 {
        0
    } else {
        digits_value(s.drop_last()) * 10 + (s.last() as int - '0' as int)
    }
}

proof fn lemma_digits_value_grows(s: Seq<char>, k: int)
    requires
        all_digits(s),
        0 <= k <= s.len(),
    ensures
        0 <= digits_value(s.take(k)) <= digits_value(s),
    decreases s.len(),
{
    if k == s.len() {
        assert(s.take(k) =~= s);
        if k > 0 {
            lemma_digits_value_grows(s.drop_last(), k - 1);
            assert(s.drop_last().take(k - 1) =~= s.drop_last());
            assert(is_digit(s.last()));
        }
    } else {
        lemma_digits_value_grows(s.drop_last(), k);
        assert(s.drop_last().take(k) =~= s.take(k));
        assert(is_digit(s.last()));
    }
}

/// The number that a run of one decimal digit or more writes, if it fits.
pub fn parse_digits(cs: &[char]) -> (r: Option<u64>)
    ensures
        match r {
            Some(v) => cs@.len() > 0 && all_digits(cs@) && digits_value(cs@) == v,
            None => cs@.len() == 0 || !all_digits(cs@) || digits_value(cs@) > u64::MAX,
        },
{
    let mut i: usize = 0;
    while i < cs.len()
        invariant
            i <= cs.len(),
            forall|k: int| 0 <= k < i ==> is_digit(#[trigger] cs@[k]),
        decreases cs.len() - i,
    {
        let c = cs[i];
        if !('0' <= c && c <= '9') {
            assert(!is_digit(cs@[i as int]));
            return None;
        }
        i = i + 1;
    }
    if cs.len() == 0 {
        return None;
    }
    let mut value: u64 = 0;
    let mut k: usize = 0;
    while k < cs.len()
        invariant
            k <= cs.len(),
            all_digits(cs@),
            value == digits_value(cs@.take(k as int)),
        decreases cs.len() - k,
    {
        assert(is_digit(cs@[k as int]));
        let digit: u64 = (cs[k] as u64) - 48;
        assert(cs@.take(k as int + 1).drop_last() =~= cs@.take(k as int));
        assert(digits_value(cs@.take(k as int + 1)) == value * 10 + digit);
        if value > (u64::MAX - digit) / 10 {
            proof {
                lemma_digits_value_grows(cs@, k as int + 1);
            }
            return None;
        }
        value = value * 10 + digit;
        k = k + 1;
    }
    assert(cs@.take(cs@.len() as int) =~= cs@);
    Some(value)
}

/// The number that an optional sign and decimal digits write.
pub open spec fn signed_value(s: Seq<char>) -> Option<int> {
    let signed = s.len() > 0 && (s[0] == '-' || s[0] == '+');
    let digits = if signed {
        s.drop_first()
    } else {
        s
    };
    if digits.len() == 0 || !all_digits(digits) {
        None
    } else if signed && s[0] == '-' {
        Some(-digits_value(digits))
    } else {
        Some(digits_value(digits))
    }
}

/// Reads a signed number that fits into 64 bits.
pub fn parse_i64(cs: &[char]) -> (r: Option<i64>)
    ensures
        match r {
            Some(v) => signed_value(cs@) == Some(v as int),
            None => signed_value(cs@) matches Some(v) ==> v < i64::MIN || v > i64::MAX,
        },
{
    if cs.len() == 0 {
        return None;
    }
    let signed = cs[0] == '-' || cs[0] == '+';
    let digits = if signed {
        slice_of(cs, 1, cs.len())
    } else {
        slice_of(cs, 0, cs.len())
    };
    proof {
        if signed {
            assert(digits@ =~= cs@.drop_first());
        } else {
            assert(digits@ =~= cs@);
        }
    }
    match parse_digits(&digits) {
        None => None,
        Some(v) => {
            if signed && cs[0] == '-' {
                if v > 0x8000_0000_0000_0000 {
                    None
                } else if v == 0x8000_0000_0000_0000 {
                    Some(i64::MIN)
                } else {
                    Some(-(v as i64))
                }
            } else if v > 0x7fff_ffff_ffff_ffff {
                None
            } else {
                Some(v as i64)
            }
        },
    }
}

/// The decimal digits of a number.
pub open spec fn decimal(n: nat) -> Seq<char>
    decreases n,
{
    let last = ('0' as u32 + (n % 10) as u32) as char;
    if n < 10 {
        seq![last]
    } else {
        decimal(n / 10).push(last)
    }
}

/// The decimal digits of a number.
pub fn to_decimal(n: u64) -> (out: Vec<char>)
    ensures
        out@ == decimal(n as nat),
    decreases n,
{
    let digit: u8 = 48 + (n % 10) as u8;
    let mut out = if n < 10 {
        Vec::new()
    } else {
        to_decimal(n / 10)
    };
    out.push(digit as char);
    assert(out@ =~= decimal(n as nat));
    out
}

/// Reading the digits of a number gives the number back.
pub proof fn lemma_decimal_value(n: nat)
    ensures
        all_digits(decimal(n)),
        decimal(n).len() > 0,
        digits_value(decimal(n)) == n,
    decreases n,
{
    let s = decimal(n);
    let last = ('0' as u32 + (n % 10) as u32) as char;
    if n < 10 {
        assert(s.drop_last() =~= Seq::<char>::empty());
        assert(digits_value(s.drop_last()) == 0);
    } else {
        lemma_decimal_value(n / 10);
        assert(s.drop_last() =~= decimal(n / 10));
        assert forall|i: int| 0 <= i < s.len() implies is_digit(#[trigger] s[i]) by {
            if i < s.len() - 1 {
                assert(s[i] == decimal(n / 10)[i]);
            }
        }
    }
}

/// Whether `c` is among `cs`.
pub fn has_char(cs: &[char], c: char) -> (r: bool)
    ensures
        r == cs@.contains(c),
{
    let mut i: usize = 0;
    while i < cs.len()
        invariant
            i <= cs.len(),
            forall|k: int| 0 <= k < i ==> #[trigger] cs@[k] != c,
        decreases cs.len() - i,
    {
        if cs[i] == c {
            assert(cs@[i as int] == c);
            return true;
        }
        i = i + 1;
    }
    false
}

// ---------------------------------------------------------------- tables

/// What stands beside the first `key` in a table.
pub open spec fn entry(table: Seq<(String, String)>, key: Seq<char>) -> Option<Seq<char>>
    decreases table.len(),
{
    if table.len() == 0 {
        None
    } else if table[0].0@ == key {
        Some(table[0].1@)
    } else {
        entry(table.drop_first(), key)
    }
}

/// What stands beside the first `key` in a table.
pub fn find_entry(table: &Vec<(String, String)>, key: &str) -> (r: Option<String>)
    ensures
        match r {
            Some(t) => entry(table@, key@) == Some(t@),
            None => entry(table@, key@) is None,
        },
{
    let mut i: usize = 0;
    assert(table@.skip(0) =~= table@);
    while i < table.len()
        invariant
            i <= table@.len(),
            entry(table@, key@) == entry(table@.skip(i as int), key@),
        decreases table.len() - i,
    {
        assert(table@.skip(i as int)[0] == table@[i as int]);
        assert(table@.skip(i as int).drop_first() =~= table@.skip(i as int + 1));
        if same(table[i].0.as_str(), key) {
            return Some(table[i].1.clone());
        }
        i = i + 1;
    }
    None
}

} // verus!
