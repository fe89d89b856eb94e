//! Texts: their pieces, their lines, their ends and their order.

use crate::text;
use crate::types;
use crate::types::Language;
use vstd::prelude::*;

verus! {

/// A text is cut at every `c` and nowhere else: what stands before one and what
/// stands behind it are cut on their own, and a text without any is one piece.
pub proof fn law_texts_are_cut_everywhere(a: Seq<char>, b: Seq<char>, c: char)
    ensures
        text::pieces(a.push(c) + b, c) == text::pieces(a, c) + text::pieces(b, c),
        !a.contains(c) ==> text::pieces(a, c) == seq![a],
    decreases b.len(),
{
    let whole = a.push(c) + b;
    text::lemma_pieces_nonempty(a, c);
    if !a.contains(c) {
        lemma_one_piece(a, c);
    }
    if b.len() == 0 {
        assert(whole =~= a.push(c));
        assert(whole.drop_last() =~= a);
        assert(text::pieces(whole, c) =~= text::pieces(a, c) + text::pieces(b, c));
    } else {
        law_texts_are_cut_everywhere(a, b.drop_last(), c);
        assert(whole.drop_last() =~= a.push(c) + b.drop_last());
        text::lemma_pieces_nonempty(b.drop_last(), c);
        assert(text::pieces(whole, c) =~= text::pieces(a, c) + text::pieces(b, c));
    }
}

proof fn lemma_one_piece(s: Seq<char>, c: char)
    requires
        !s.contains(c),
    ensures
        text::pieces(s, c) == seq![s],
    decreases s.len(),
{
    if s.len() > 0 {
        let t = s.drop_last();
        assert(!t.contains(c)) by {
            if t.contains(c) {
                let i = choose|i: int| 0 <= i < t.len() && t[i] == c;
                assert(s[i] == c);
            }
        }
        lemma_one_piece(t, c);
        assert(s.contains(s[s.len() - 1]));
        assert(t.push(s.last()) =~= s);
        assert(text::pieces(s, c) =~= seq![s]);
    } else {
        assert(s =~= Seq::<char>::empty());
        assert(text::pieces(s, c) =~= seq![s]);
    }
}

/// What follows the last slash of a path is its last component, all of it.
pub proof fn law_last_components_follow_the_last_slash(path: Seq<char>)
    ensures
        !types::last_component(path).contains('/'),
        types::last_component(path).len() <= path.len(),
        types::last_component(path) == path.skip(
            path.len() - types::last_component(path).len(),
        ),
        types::last_component(path).len() < path.len() ==> path[path.len()
            - types::last_component(path).len() - 1] == '/',
    decreases path.len(),
{
    if path.len() > 0 {
        let front = path.drop_last();
        law_last_components_follow_the_last_slash(front);
        text::lemma_pieces_nonempty(front, '/');
        let own = types::last_component(path);
        let was = types::last_component(front);
        if path.last() == '/' {
            assert(own =~= path.skip(path.len() as int));
        } else {
            assert(own == was.push(path.last()));
            assert(own =~= path.skip(path.len() - own.len()));
            assert forall|k: int| 0 <= k < own.len() implies own[k] != '/' by {
                if k < was.len() {
                    assert(was.contains(was[k]));
                }
            }
        }
    }
}

/// White space is what Unicode calls so.
pub proof fn law_white_space_is_unicodes(c: char)
    ensures
        text::is_white_space(c) <==> {
            let n = c as u32;
            (9 <= n && n <= 13) || n == 32 || n == 133 || n == 160 || n == 5760 || (8192 <= n && n
                <= 8202) || n == 8232 || n == 8233 || n == 8239 || n == 8287 || n == 12288
        },
{
}

/// Trimming takes white space off both ends, all of it, and nothing else.
pub proof fn law_trimming_takes_white_space_off_the_ends(s: Seq<char>) -> (r: (int, int))
    ensures
        0 <= r.0 <= r.1 <= s.len(),
        text::trimmed(s) == s.subrange(r.0, r.1),
        forall|k: int| 0 <= k < r.0 ==> text::is_white_space(#[trigger] s[k]),
        forall|k: int| r.1 <= k < s.len() ==> text::is_white_space(#[trigger] s[k]),
        r.0 < r.1 ==> !text::is_white_space(s[r.0]) && !text::is_white_space(s[r.1 - 1]),
{
    let a = lemma_trimmed_start(s);
    let t = s.skip(a);
    let n = lemma_trimmed_end(t);
    assert(text::trimmed(s) =~= s.subrange(a, a + n));
    assert forall|k: int| a + n <= k < s.len() implies text::is_white_space(#[trigger] s[k]) by {
        assert(t[k - a] == s[k]);
    }
    (a, a + n)
}

proof fn lemma_trimmed_start(s: Seq<char>) -> (a: int)
    ensures
        0 <= a <= s.len(),
        text::trimmed_start(s) == s.skip(a),
        forall|k: int| 0 <= k < a ==> text::is_white_space(#[trigger] s[k]),
        a < s.len() ==> !text::is_white_space(s[a]),
    decreases s.len(),
{
    if s.len() > 0 && text::is_white_space(s[0]) {
        let t = s.drop_first();
        let b = lemma_trimmed_start(t);
        assert(t.skip(b) =~= s.skip(b + 1));
        assert forall|k: int| 0 <= k < b + 1 implies text::is_white_space(#[trigger] s[k]) by {
            if k > 0 {
                assert(t[k - 1] == s[k]);
            }
        }
        b + 1
    } else {
        assert(s.skip(0) =~= s);
        0
    }
}

proof fn lemma_trimmed_end(s: Seq<char>) -> (n: int)
    ensures
        0 <= n <= s.len(),
        text::trimmed_end(s) == s.take(n),
        forall|k: int| n <= k < s.len() ==> text::is_white_space(#[trigger] s[k]),
        n > 0 ==> !text::is_white_space(s[n - 1]),
    decreases s.len(),
{
    if s.len() > 0 && text::is_white_space(s.last()) {
        let t = s.drop_last();
        let n = lemma_trimmed_end(t);
        assert(t.take(n) =~= s.take(n));
        assert forall|k: int| n <= k < s.len() implies text::is_white_space(#[trigger] s[k]) by {
            if k < t.len() {
                assert(t[k] == s[k]);
            }
        }
        n
    } else {
        assert(s.take(s.len() as int) =~= s);
        s.len() as int
    }
}

/// The lines of a text are what line feeds part: each one without the carriage
/// return before its line feed. What stands behind the last line feed is a line
/// unless it is nothing.
pub proof fn law_line_feeds_part_lines(a: Seq<char>, b: Seq<char>)
    requires
        !a.contains('\n'),
    ensures
        text::lines_of(a.push('\n') + b) == seq![
            if a.len() > 0 && a.last() == '\r' {
                a.drop_last()
            } else {
                a
            },
        ] + text::lines_of(b),
        text::lines_of(a) == (if a.len() == 0 {
            Seq::<Seq<char>>::empty()
        } else {
            seq![a]
        }),
{
    law_texts_are_cut_everywhere(a, b, '\n');
    text::lemma_pieces_nonempty(b, '\n');
    let whole = text::pieces(a.push('\n') + b, '\n');
    let rest = text::pieces(b, '\n');
    assert(whole.last() == rest.last());
    assert(whole.drop_last() =~= seq![a] + rest.drop_last());
    let first = text::without_return(a);
    let strip = |l: Seq<char>| text::without_return(l);
    assert(whole.drop_last().map_values(strip) =~= seq![first] + rest.drop_last().map_values(
        strip,
    ));
    assert(text::lines_of(a.push('\n') + b) =~= seq![first] + text::lines_of(b));
    assert(seq![a].drop_last().map_values(strip) =~= Seq::<Seq<char>>::empty());
    if a.len() > 0 {
        assert(text::lines_of(a) =~= seq![a]);
    }
}

/// Texts are ordered by the first character in which they differ, and a text
/// stands before those that go on where it ends.
pub proof fn law_texts_are_ordered_by_their_first_difference(a: Seq<char>, b: Seq<char>, k: int)
    requires
        0 <= k <= a.len(),
        k <= b.len(),
        a.take(k) == b.take(k),
    ensures
        k < a.len() && k < b.len() && a[k] < b[k] ==> text::text_le(a, b) && !text::text_le(b, a),
        k == a.len() ==> text::text_le(a, b),
        k == a.len() && k < b.len() ==> !text::text_le(b, a),
    decreases k,
{
    if k > 0 {
        assert(a.take(k)[0] == a[0]);
        assert(b.take(k)[0] == b[0]);
        let x = a.drop_first();
        let y = b.drop_first();
        assert forall|i: int| 0 <= i < k - 1 implies #[trigger] x[i] == y[i] by {
            let n = i + 1;
            assert(a.take(k)[n] == a[n]);
            assert(b.take(k)[n] == b[n]);
            assert(x[i] == a[n]);
            assert(y[i] == b[n]);
        }
        assert(x.take(k - 1) =~= y.take(k - 1));
        law_texts_are_ordered_by_their_first_difference(x, y, k - 1);
    }
}

/// The characters of `needle` stand in `hay` from `at` on, one behind the other.
pub open spec fn runs_from(hay: Seq<char>, needle: Seq<char>, at: int) -> bool {
    0 <= at && at + needle.len() <= hay.len() && forall|k: int|
        0 <= k < needle.len() ==> hay[at + k] == #[trigger] needle[k]
}

/// The characters of `needle` stand in `hay` somewhere, one behind the other.
pub open spec fn runs_somewhere(hay: Seq<char>, needle: Seq<char>) -> bool {
    exists|at: int| runs_from(hay, needle, at)
}

/// A text holds another exactly where the characters of the other stand in it one
/// behind the other.
pub proof fn law_texts_hold_what_stands_in_them(hay: Seq<char>, needle: Seq<char>)
    ensures
        text::contains_text(hay, needle) <==> exists|at: int| runs_from(hay, needle, at),
        needle.len() == 0 ==> text::contains_text(hay, needle),
{
    if text::contains_text(hay, needle) {
        let at = choose|at: int| text::stands_at(hay, needle, at);
        assert forall|k: int| 0 <= k < needle.len() implies hay[at + k] == #[trigger] needle[k] by {
            assert(hay.subrange(at, at + needle.len())[k] == needle[k]);
        }
        assert(runs_from(hay, needle, at));
    }
    if exists|at: int| runs_from(hay, needle, at) {
        let at = choose|at: int| runs_from(hay, needle, at);
        assert(hay.subrange(at, at + needle.len()) =~= needle);
        assert(text::stands_at(hay, needle, at));
    }
    if needle.len() == 0 {
        assert(hay.subrange(0, 0) =~= needle);
        assert(text::stands_at(hay, needle, 0));
    }
}

/// ASCII capitals become small letters; every other character stays.
pub proof fn law_ascii_capitals_become_small(s: Seq<char>, k: int)
    requires
        0 <= k < s.len(),
    ensures
        text::ascii_lower(s).len() == s.len(),
        'A' <= s[k] <= 'Z' ==> text::ascii_lower(s)[k] as u32 == s[k] as u32 + 32,
        !('A' <= s[k] <= 'Z') ==> text::ascii_lower(s)[k] == s[k],
{
}

/// Decimal digits write the number that they are read as.
pub proof fn law_numbers_read_back(n: nat)
    ensures
        text::decimal(n).len() > 0,
        text::all_digits(text::decimal(n)),
        text::digits_value(text::decimal(n)) == n,
        n >= 10 ==> text::decimal(n)[0] != '0',
        text::signed_value(text::decimal(n)) == Some(n as int),
        text::signed_value(seq!['-'] + text::decimal(n)) == Some(-(n as int)),
        text::signed_value(seq!['+'] + text::decimal(n)) == Some(n as int),
    decreases n,
{
    text::lemma_decimal_value(n);
    let s = text::decimal(n);
    assert(text::is_digit(s[0]));
    assert((seq!['-'] + s).drop_first() =~= s);
    assert((seq!['+'] + s).drop_first() =~= s);
    if n >= 10 {
        law_numbers_read_back(n / 10);
        if n < 100 {
            assert(n / 10 < 10);
            assert(text::decimal(n / 10)[0] == ('0' as u32 + ((n / 10) % 10) as u32) as char);
        }
        assert(s[0] == text::decimal(n / 10)[0]);
    }
}

/// A table gives what stands beside the first entry of a key, and nothing for a
/// key that it does not hold.
pub proof fn law_tables_give_the_first_entry(
    table: Seq<(String, String)>,
    key: Seq<char>,
    k: int,
)
    requires
        0 <= k <= table.len(),
        forall|i: int| 0 <= i < k ==> (#[trigger] table[i]).0@ != key,
    ensures
        k < table.len() && table[k].0@ == key ==> text::entry(table, key) == Some(table[k].1@),
        k == table.len() ==> text::entry(table, key) is None,
    decreases k,
{
    if k > 0 {
        assert(table[0].0@ != key);
        let rest = table.drop_first();
        assert forall|i: int| 0 <= i < k - 1 implies (#[trigger] rest[i]).0@ != key by {
            assert(rest[i] == table[i + 1]);
        }
        law_tables_give_the_first_entry(rest, key, k - 1);
    }
}

/// The language of a path is that of what follows the last dot of its last
/// component, if a character stands before that dot in it.
pub proof fn law_languages_go_by_the_extension(dir: Seq<char>, stem: Seq<char>, ext: Seq<char>)
    requires
        !stem.contains('/'),
        !ext.contains('/'),
        !ext.contains('.'),
    ensures
        stem.len() > 0 ==> types::language_of_path(stem.push('.') + ext)
            == types::language_of_extension(ext),
        stem.len() > 0 ==> types::language_of_path(dir.push('/') + (stem.push('.') + ext))
            == types::language_of_extension(ext),
        types::language_of_path(dir.push('/') + (seq!['.'] + ext)) is None,
        types::language_of_path(dir.push('/') + ext) is None,
{
    let name = stem.push('.') + ext;
    let hidden = seq!['.'] + ext;
    assert(!name.contains('/')) by {
        assert forall|k: int| 0 <= k < name.len() implies name[k] != '/' by {
            if k < stem.len() {
                assert(stem.contains(stem[k]));
            } else if k > stem.len() {
                assert(ext.contains(ext[k - stem.len() - 1]));
            }
        }
    }
    assert(!hidden.contains('/')) by {
        assert forall|k: int| 0 <= k < hidden.len() implies hidden[k] != '/' by {
            if k > 0 {
                assert(ext.contains(ext[k - 1]));
            }
        }
    }
    lemma_component(dir, name);
    lemma_component(dir, hidden);
    lemma_component(dir, ext);
    law_texts_are_cut_everywhere(name, Seq::empty(), '/');
    law_texts_are_cut_everywhere(stem, ext, '.');
    law_texts_are_cut_everywhere(ext, Seq::empty(), '.');
    text::lemma_pieces_nonempty(stem, '.');
    if stem.len() > 0 {
        let parts = text::pieces(stem, '.');
        if parts.len() == 1 && parts[0].len() == 0 {
            lemma_lone_piece(stem, '.');
        }
    }
    assert(hidden =~= Seq::<char>::empty().push('.') + ext);
    law_texts_are_cut_everywhere(Seq::empty(), ext, '.');
    assert(!Seq::<char>::empty().contains('.'));
}

proof fn lemma_lone_piece(s: Seq<char>, c: char)
    requires
        text::pieces(s, c).len() == 1,
    ensures
        text::pieces(s, c)[0] == s,
    decreases s.len(),
{
    if s.len() > 0 {
        text::lemma_pieces_nonempty(s.drop_last(), c);
        lemma_lone_piece(s.drop_last(), c);
        assert(s.drop_last().push(s.last()) =~= s);
    }
}

proof fn lemma_component(dir: Seq<char>, name: Seq<char>)
    requires
        !name.contains('/'),
    ensures
        types::last_component(dir.push('/') + name) == name,
{
    law_texts_are_cut_everywhere(dir, name, '/');
    law_texts_are_cut_everywhere(name, Seq::empty(), '/');
}

/// Which language each extension stands for.
pub proof fn law_extensions_stand_for_languages(ext: Seq<char>)
    ensures
        types::language_of_extension(ext) == Some(Language::Python) <==> ext == "py"@,
        types::language_of_extension(ext) == Some(Language::Go) <==> ext == "go"@,
        types::language_of_extension(ext) == Some(Language::Java) <==> ext == "java"@,
        types::language_of_extension(ext) == Some(Language::Rust) <==> ext == "rs"@,
        types::language_of_extension(ext) == Some(Language::TypeScript) <==> ext == "ts"@,
        types::language_of_extension(ext) == Some(Language::Tsx) <==> ext == "tsx"@,
        types::language_of_extension(ext) == Some(Language::JavaScript) <==> ext == "js"@ || ext
            == "jsx"@ || ext == "mjs"@ || ext == "cjs"@,
        types::language_of_extension(ext) == Some(Language::Swift) <==> ext == "swift"@,
        types::language_of_extension(ext) == Some(Language::ObjC) <==> ext == "m"@,
        types::language_of_extension(ext) == Some(Language::ObjCpp) <==> ext == "mm"@,
        types::language_of_extension(ext) == Some(Language::C) <==> ext == "c"@ || ext == "h"@,
        types::language_of_extension(ext) == Some(Language::Cpp) <==> ext == "cc"@ || ext
            == "cpp"@ || ext == "cxx"@ || ext == "hpp"@,
        types::language_of_extension(ext) == Some(Language::Php) <==> ext == "php"@,
        types::language_of_extension(ext) == Some(Language::Vue) <==> ext == "vue"@,
{
    reveal_strlit("py");
    reveal_strlit("go");
    reveal_strlit("java");
    reveal_strlit("rs");
    reveal_strlit("ts");
    reveal_strlit("tsx");
    reveal_strlit("js");
    reveal_strlit("jsx");
    reveal_strlit("mjs");
    reveal_strlit("cjs");
    reveal_strlit("swift");
    reveal_strlit("m");
    reveal_strlit("mm");
    reveal_strlit("c");
    reveal_strlit("h");
    reveal_strlit("cc");
    reveal_strlit("cpp");
    reveal_strlit("cxx");
    reveal_strlit("hpp");
    reveal_strlit("php");
    reveal_strlit("vue");
    assert(ext.len() == 0 || ext[0] == ext.first());
    assert(ext.len() < 2 || ext[1] == ext.drop_first()[0]);
    assert(ext.len() < 3 || ext[2] == ext.drop_first()[1]);
}

/// The name of a language names it.
pub proof fn law_languages_answer_to_their_names(language: Language)
    ensures
        types::language_named(types::language_name(language)) == Some(language),
{
    reveal_strlit("py");
    reveal_strlit("go");
    reveal_strlit("java");
    reveal_strlit("rs");
    reveal_strlit("ts");
    reveal_strlit("tsx");
    reveal_strlit("js");
    reveal_strlit("jsx");
    reveal_strlit("mjs");
    reveal_strlit("cjs");
    reveal_strlit("swift");
    reveal_strlit("m");
    reveal_strlit("mm");
    reveal_strlit("c");
    reveal_strlit("h");
    reveal_strlit("cc");
    reveal_strlit("cpp");
    reveal_strlit("cxx");
    reveal_strlit("hpp");
    reveal_strlit("php");
    reveal_strlit("vue");
    reveal_strlit("python");
    reveal_strlit("golang");
    reveal_strlit("rust");
    reveal_strlit("typescript");
    reveal_strlit("javascript");
    reveal_strlit("objc");
    reveal_strlit("objcpp");
    let n = types::language_name(language);
    assert(n[0] == n.first());
    assert(n.len() < 2 || n[1] == n.drop_first()[0]);
    assert(n.len() < 3 || n[2] == n.drop_first()[1]);
    match language {
        Language::Python => {},
        Language::Go => {},
        Language::Java => {},
        Language::Rust => {},
        Language::TypeScript => {},
        Language::Tsx => {},
        Language::JavaScript => {},
        Language::Swift => {},
        Language::ObjC => {},
        Language::ObjCpp => {},
        Language::C => {},
        Language::Cpp => {},
        Language::Php => {},
        Language::Vue => {},
    }
}

} // verus!
