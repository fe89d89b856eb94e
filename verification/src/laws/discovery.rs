//! Where the programs of language servers are found.

use crate::laws;
use crate::lsp::discovery;
use crate::lsp::discovery::{Candidate, Discovery, ProbeResult};
use crate::lsp::queries;
use crate::lsp::{LspError, ServerSpec};
use crate::paths;
use crate::text;
use crate::types::Language;
use vstd::prelude::*;

verus! {

// -------------------------------------------------------------- search paths

proof fn lemma_nonempty_join(a: Seq<Seq<char>>, b: Seq<Seq<char>>)
    ensures
        discovery::nonempty(a + b) == discovery::nonempty(a) + discovery::nonempty(b),
    decreases b.len(),
{
    if b.len() == 0 {
        assert(a + b =~= a);
        assert(discovery::nonempty(a) + discovery::nonempty(b) =~= discovery::nonempty(a));
    } else {
        lemma_nonempty_join(a, b.drop_last());
        assert((a + b).drop_last() =~= a + b.drop_last());
        assert((a + b).last() == b.last());
        assert(discovery::nonempty(a + b) =~= discovery::nonempty(a) + discovery::nonempty(b));
    }
}

/// Colons part the directories of a search path: those before one and then those
/// behind it. What is empty is no directory.
pub proof fn law_colons_part_directories(a: Seq<char>, b: Seq<char>, dir: Seq<char>)
    requires
        dir.len() > 0,
        !dir.contains(':'),
    ensures
        discovery::search_dirs(a + seq![':'] + b) == discovery::search_dirs(a)
            + discovery::search_dirs(b),
        discovery::search_dirs(dir) == seq![dir],
        discovery::search_dirs(Seq::empty()).len() == 0,
{
    assert(a + seq![':'] + b =~= a.push(':') + b);
    laws::text::law_texts_are_cut_everywhere(a, b, ':');
    lemma_nonempty_join(text::pieces(a, ':'), text::pieces(b, ':'));
    laws::text::law_texts_are_cut_everywhere(dir, b, ':');
    let one = seq![dir];
    assert(one.drop_last() =~= Seq::<Seq<char>>::empty());
    assert(one.last() == dir);
    assert(discovery::nonempty(one.drop_last()) =~= Seq::<Seq<char>>::empty());
    assert(discovery::nonempty(one) =~= one);
    let none = seq![Seq::<char>::empty()];
    assert(text::pieces(Seq::empty(), ':') == none);
    assert(none.drop_last() =~= Seq::<Seq<char>>::empty());
    assert(none.last().len() == 0);
    assert(discovery::nonempty(none) == discovery::nonempty(none.drop_last()));
}

proof fn lemma_dotted_join(a: Seq<Seq<char>>, b: Seq<Seq<char>>)
    ensures
        discovery::dotted_pieces(a + b) == discovery::dotted_pieces(a) + discovery::dotted_pieces(
            b,
        ),
    decreases b.len(),
{
    if b.len() == 0 {
        assert(a + b =~= a);
        assert(discovery::dotted_pieces(a) + discovery::dotted_pieces(b)
            =~= discovery::dotted_pieces(a));
    } else {
        lemma_dotted_join(a, b.drop_last());
        assert((a + b).drop_last() =~= a + b.drop_last());
        assert((a + b).last() == b.last());
        assert(discovery::dotted_pieces(a + b) =~= discovery::dotted_pieces(a)
            + discovery::dotted_pieces(b));
    }
}

/// Semicolons part extensions: those before one and then those behind it. White
/// space around one does not count, a missing dot is put before it, and what is
/// blank is none.
pub proof fn law_semicolons_part_extensions(
    a: Seq<char>,
    b: Seq<char>,
    front: Seq<char>,
    ext: Seq<char>,
    back: Seq<char>,
)
    requires
        laws::churn::is_blank(front),
        laws::churn::is_blank(back),
        laws::churn::is_bare(ext),
        !(front + ext + back).contains(';'),
        !front.contains(';'),
    ensures
        discovery::extensions(a + seq![';'] + b) == discovery::extensions(a)
            + discovery::extensions(b),
        discovery::extensions(front).len() == 0,
        ext[0] == '.' ==> discovery::extensions(front + ext + back) == seq![ext],
        ext[0] != '.' ==> discovery::extensions(front + ext + back) == seq![seq!['.'] + ext],
{
    assert(a + seq![';'] + b =~= a.push(';') + b);
    laws::text::law_texts_are_cut_everywhere(a, b, ';');
    lemma_dotted_join(text::pieces(a, ';'), text::pieces(b, ';'));
    let whole = front + ext + back;
    laws::text::law_texts_are_cut_everywhere(whole, b, ';');
    laws::text::law_texts_are_cut_everywhere(front, b, ';');
    laws::churn::lemma_trimmed(front, ext, back);
    let one = seq![whole];
    assert(one.drop_last() =~= Seq::<Seq<char>>::empty());
    assert(one.last() == whole);
    assert(discovery::dotted_pieces(one.drop_last()) =~= Seq::<Seq<char>>::empty());
    assert(discovery::dotted_pieces(one) =~= seq![discovery::dotted(ext)]);
    let (from, to) = laws::text::law_trimming_takes_white_space_off_the_ends(front);
    if from < to {
        assert(text::is_white_space(front[from]));
    }
    let blank = seq![front];
    assert(blank.drop_last() =~= Seq::<Seq<char>>::empty());
    assert(blank.last() == front);
    assert(discovery::dotted_pieces(blank) == discovery::dotted_pieces(blank.drop_last()));
}

/// A name ends with an extension, letter case aside.
pub open spec fn has_ending(name: Seq<char>, ext: Seq<char>) -> bool {
    ext.len() <= name.len() && forall|k: int|
        0 <= k < ext.len() ==> text::ascii_lower_char(#[trigger] ext[k]) == text::ascii_lower_char(
            name[name.len() - ext.len() + k],
        )
}

proof fn lemma_ending(name: Seq<char>, ext: Seq<char>)
    ensures
        has_ending(name, ext) <==> discovery::ends_loosely(name, ext),
{
    let a = text::ascii_lower(name);
    let b = text::ascii_lower(ext);
    let at = name.len() - ext.len();
    if has_ending(name, ext) {
        assert forall|k: int| 0 <= k < b.len() implies a.subrange(at, at + b.len())[k]
            == #[trigger] b[k] by {
            assert(text::ascii_lower_char(ext[k]) == text::ascii_lower_char(name[at + k]));
        }
        assert(a.subrange(at, at + b.len()) =~= b);
    }
    if discovery::ends_loosely(name, ext) {
        assert forall|k: int| 0 <= k < ext.len() implies text::ascii_lower_char(#[trigger] ext[k])
            == text::ascii_lower_char(name[at + k]) by {
            assert(a.subrange(at, at + b.len())[k] == b[k]);
        }
    }
}

/// A program is looked for under its name. On Windows it is also looked for with
/// each of the extensions put behind it, unless it has one of them already.
pub proof fn law_windows_programs_have_extensions(
    bin: &str,
    windows: bool,
    pathext: &str,
    exts: Vec<String>,
    out: Vec<String>,
    k: int,
)
    requires
        call_ensures(discovery::parse_pathext, (pathext,), exts),
        call_ensures(discovery::command_names, (bin, windows, pathext), out),
        0 <= k < exts@.len(),
    ensures
        out@.len() > 0,
        out@[0]@ == bin@,
        !windows || has_ending(bin@, exts@[k]@) ==> out@.len() == 1,
        windows && (forall|i: int|
            0 <= i < exts@.len() ==> !has_ending(bin@, (#[trigger] exts@[i])@)) ==> out@.len()
            == exts@.len() + 1 && out@[k + 1]@ == bin@ + exts@[k]@,
{
    let list = text::texts(exts@);
    assert(list[k] == exts@[k]@);
    assert(text::texts(out@).len() == out@.len());
    assert(text::texts(out@)[0] == out@[0]@);
    lemma_ending(bin@, list[k]);
    if windows && (forall|i: int|
        0 <= i < exts@.len() ==> !has_ending(bin@, (#[trigger] exts@[i])@)) {
        assert forall|i: int| 0 <= i < list.len() implies !discovery::ends_loosely(
            bin@,
            #[trigger] list[i],
        ) by {
            assert(list[i] == exts@[i]@);
            lemma_ending(bin@, list[i]);
        }
        assert(text::texts(out@)[k + 1] == out@[k + 1]@);
    }
}

// ----------------------------------------------------------------- searching

/// The extensions of programs: those of the setting, unless it is blank.
pub open spec fn usual_extensions(d: Discovery, ext: Seq<char>) -> bool {
    match text::entry(d.env@, "PATHEXT"@) {
        Some(v) => if laws::churn::is_blank(v) {
            ext == ".COM;.EXE;.BAT;.CMD"@
        } else {
            ext == v
        },
        None => ext == ".COM;.EXE;.BAT;.CMD"@,
    }
}

pub(crate) proof fn lemma_blank(s: Seq<char>)
    ensures
        laws::churn::is_blank(s) <==> text::trimmed(s).len() == 0,
{
    let (from, to) = laws::text::law_trimming_takes_white_space_off_the_ends(s);
    if from < to && laws::churn::is_blank(s) {
        assert(text::is_white_space(s[from]));
    }
}

/// What runs under the name in the directory.
pub open spec fn runs_at(d: Discovery, dir: String, name: String) -> Option<Seq<char>> {
    text::entry(d.found@, paths::below(dir@, name@))
}

proof fn lemma_in_dir(
    found: Seq<(String, String)>,
    dir: Seq<char>,
    names: Seq<Seq<char>>,
    j: int,
)
    requires
        0 <= j <= names.len(),
        forall|l: int|
            0 <= l < j ==> text::entry(found, paths::below(dir, #[trigger] names[l])) is None,
        j < names.len() ==> text::entry(found, paths::below(dir, names[j])) is Some,
    ensures
        discovery::first_in_dir(found, dir, names) == (if j < names.len() {
            text::entry(found, paths::below(dir, names[j]))
        } else {
            None
        }),
    decreases names.len(),
{
    if j > 0 {
        assert(text::entry(found, paths::below(dir, names[0])) is None);
        let rest = names.drop_first();
        assert forall|l: int| 0 <= l < j - 1 implies text::entry(
            found,
            paths::below(dir, #[trigger] rest[l]),
        ) is None by {
            assert(rest[l] == names[l + 1]);
        }
        if j < names.len() {
            assert(rest[j - 1] == names[j]);
        }
        lemma_in_dir(found, dir, rest, j - 1);
    }
}

proof fn lemma_on_path(
    found: Seq<(String, String)>,
    dirs: Seq<Seq<char>>,
    names: Seq<Seq<char>>,
    i: int,
)
    requires
        0 <= i <= dirs.len(),
        forall|k: int|
            0 <= k < i ==> discovery::first_in_dir(found, #[trigger] dirs[k], names) is None,
        i < dirs.len() ==> discovery::first_in_dir(found, dirs[i], names) is Some,
    ensures
        discovery::first_on_path(found, dirs, names) == (if i < dirs.len() {
            discovery::first_in_dir(found, dirs[i], names)
        } else {
            None
        }),
    decreases dirs.len(),
{
    if i > 0 {
        assert(discovery::first_in_dir(found, dirs[0], names) is None);
        let rest = dirs.drop_first();
        assert forall|k: int| 0 <= k < i - 1 implies discovery::first_in_dir(
            found,
            #[trigger] rest[k],
            names,
        ) is None by {
            assert(rest[k] == dirs[k + 1]);
        }
        if i < dirs.len() {
            assert(rest[i - 1] == dirs[i]);
        }
        lemma_on_path(found, rest, names, i - 1);
    }
}

/// A program is the one in the first directory that has it under one of its names,
/// and there the one under the first of them. Where no directory has it, there is
/// none.
pub proof fn law_the_first_directory_wins(
    d: &Discovery,
    bin: &str,
    r: Option<String>,
    pathext: &str,
    names: Vec<String>,
    i: int,
    j: int,
)
    requires
        call_ensures(Discovery::find_on_path, (d, bin), r),
        usual_extensions(*d, pathext@),
        call_ensures(discovery::command_names, (bin, d.windows, pathext), names),
        0 <= i <= d.path_dirs@.len(),
        forall|k: int, l: int|
            0 <= k < i && 0 <= l < names@.len() ==> runs_at(
                *d,
                #[trigger] d.path_dirs@[k],
                #[trigger] names@[l],
            ) is None,
        i < d.path_dirs@.len() ==> 0 <= j < names@.len() && runs_at(
            *d,
            d.path_dirs@[i],
            names@[j],
        ) is Some && forall|l: int|
            0 <= l < j ==> runs_at(*d, d.path_dirs@[i], #[trigger] names@[l]) is None,
    ensures
        i < d.path_dirs@.len() ==> (r matches Some(p) && Some(p@) == runs_at(
            *d,
            d.path_dirs@[i],
            names@[j],
        )),
        i == d.path_dirs@.len() ==> r is None,
{
    let dirs = text::texts(d.path_dirs@);
    let list = text::texts(names@);
    if let Some(v) = text::entry(d.env@, "PATHEXT"@) {
        lemma_blank(v);
    }
    assert(discovery::pathext_of(d.env@) == pathext@);
    assert forall|k: int| 0 <= k < i implies discovery::first_in_dir(
        d.found@,
        #[trigger] dirs[k],
        list,
    ) is None by {
        assert(dirs[k] == d.path_dirs@[k]@);
        assert forall|l: int| 0 <= l < list.len() implies text::entry(
            d.found@,
            paths::below(dirs[k], #[trigger] list[l]),
        ) is None by {
            assert(list[l] == names@[l]@);
            assert(runs_at(*d, d.path_dirs@[k], names@[l]) is None);
        }
        lemma_in_dir(d.found@, dirs[k], list, list.len() as int);
    }
    if i < dirs.len() {
        assert(dirs[i] == d.path_dirs@[i]@);
        assert(list[j] == names@[j]@);
        assert forall|l: int| 0 <= l < j implies text::entry(
            d.found@,
            paths::below(dirs[i], #[trigger] list[l]),
        ) is None by {
            assert(list[l] == names@[l]@);
            assert(runs_at(*d, d.path_dirs@[i], names@[l]) is None);
        }
        lemma_in_dir(d.found@, dirs[i], list, j);
    }
    lemma_on_path(d.found@, dirs, list, i);
}

// ------------------------------------------------------------------ settings

/// The server of JavaScript and of TSX is named by the setting for TypeScript where
/// their own is not set; every other language that is probed has one setting.
pub proof fn law_typescript_stands_in(
    language: Language,
    keys: Vec<&'static str>,
    typescript: Vec<&'static str>,
    first: &'static str,
)
    requires
        discovery::is_probed(language),
        call_ensures(discovery::env_override_keys, (language,), keys),
        call_ensures(discovery::env_override_keys, (Language::TypeScript,), typescript),
        call_ensures(discovery::env_override_var, (language,), first),
    ensures
        keys@.len() > 0,
        keys@[0]@ == first@,
        typescript@.len() == 1,
        language is Tsx || language is JavaScript ==> keys@.len() == 2 && keys@[1]@
            == typescript@[0]@,
        !(language is Tsx || language is JavaScript) ==> keys@.len() == 1,
{
    let a = discovery::strs(keys@);
    let b = discovery::strs(typescript@);
    assert(a.len() == keys@.len() && b.len() == typescript@.len());
    assert(a[0] == keys@[0]@ && b[0] == typescript@[0]@);
    if language is Tsx || language is JavaScript {
        assert(a[1] == keys@[1]@);
    }
}

proof fn lemma_first_setting(env: Seq<(String, String)>, keys: Seq<Seq<char>>, k: int)
    requires
        0 <= k <= keys.len(),
        forall|i: int|
            0 <= i < k ==> !(text::entry(env, #[trigger] keys[i]) matches Some(v)
                && !laws::churn::is_blank(v)),
        k < keys.len() ==> (text::entry(env, keys[k]) matches Some(v) && !laws::churn::is_blank(v)),
    ensures
        discovery::first_setting(env, keys) == (if k < keys.len() {
            Some((keys[k], text::trimmed(text::entry(env, keys[k]).unwrap())))
        } else {
            None
        }),
    decreases keys.len(),
{
    if keys.len() > 0 {
        if let Some(v) = text::entry(env, keys[0]) {
            lemma_blank(v);
        }
    }
    if k > 0 {
        assert(!(text::entry(env, keys[0]) matches Some(v) && !laws::churn::is_blank(v)));
        let rest = keys.drop_first();
        assert forall|i: int| 0 <= i < k - 1 implies !(text::entry(
            env,
            #[trigger] rest[i],
        ) matches Some(v) && !laws::churn::is_blank(v)) by {
            assert(rest[i] == keys[i + 1]);
        }
        if k < keys.len() {
            assert(rest[k - 1] == keys[k]);
        }
        lemma_first_setting(env, rest, k - 1);
    }
}

/// The first setting that is not blank counts, without the white space around it.
pub proof fn law_blank_settings_are_not_set(
    d: &Discovery,
    language: Language,
    keys: Vec<&'static str>,
    r: Option<(&'static str, String)>,
    k: int,
)
    requires
        call_ensures(discovery::env_override_keys, (language,), keys),
        call_ensures(Discovery::override_value, (d, language), r),
        0 <= k <= keys@.len(),
        forall|i: int|
            0 <= i < k ==> !(text::entry(d.env@, (#[trigger] keys@[i])@) matches Some(v)
                && !laws::churn::is_blank(v)),
        k < keys@.len() ==> (text::entry(d.env@, keys@[k]@) matches Some(v)
            && !laws::churn::is_blank(v)),
    ensures
        k == keys@.len() ==> r is None,
        k < keys@.len() ==> (r matches Some((key, value)) && key@ == keys@[k]@ && value@
            == text::trimmed(text::entry(d.env@, keys@[k]@).unwrap())),
{
    let list = discovery::strs(keys@);
    assert forall|i: int| 0 <= i < k implies !(text::entry(
        d.env@,
        #[trigger] list[i],
    ) matches Some(v) && !laws::churn::is_blank(v)) by {
        assert(list[i] == keys@[i]@);
    }
    if k < keys@.len() {
        assert(list[k] == keys@[k]@);
    }
    lemma_first_setting(d.env@, list, k);
}

/// A setting names what runs under it as a path; where nothing does, a mere name is
/// looked for on the search path, and a path of more parts is not.
pub proof fn law_settings_name_paths_or_programs(
    d: &Discovery,
    value: &str,
    r: Option<String>,
    searched: Option<String>,
)
    requires
        call_ensures(Discovery::resolve_override, (d, value), r),
        call_ensures(Discovery::find_on_path, (d, value), searched),
    ensures
        text::entry(d.found@, value@) matches Some(p) ==> (r matches Some(t) && t@ == p),
        text::entry(d.found@, value@) is None && !d.windows && paths::is_part(value@)
            && value@[0] != '.' ==> (r is Some <==> searched is Some) && (r is Some
            ==> r.unwrap()@ == searched.unwrap()@),
        text::entry(d.found@, value@) is None && !d.windows && value@.len() > 0 && value@[0] == '/'
            && paths::parts_of(value@).len() > 0 ==> r is None,
        text::entry(d.found@, value@) is None && !d.windows && paths::parts_of(value@).len() > 1
            ==> r is None,
{
    if paths::is_part(value@) {
        paths::lemma_single_part(value@);
        assert(value@.contains(value@[0]));
    }
}

// ------------------------------------------------------------------- probing

proof fn lemma_candidate(
    d: Discovery,
    language: Language,
    cs: Seq<discovery::Choice>,
    k: int,
)
    requires
        0 <= k <= cs.len(),
        forall|i: int|
            0 <= i < k ==> discovery::program_on_path(d, (#[trigger] cs[i]).bin) is None,
        k < cs.len() ==> discovery::program_on_path(d, cs[k].bin) is Some,
    ensures
        discovery::first_candidate(d, language, cs) == (if k < cs.len() {
            Some(
                discovery::Server {
                    language,
                    command: discovery::program_on_path(d, cs[k].bin).unwrap(),
                    args: cs[k].args,
                    hint: cs[k].install,
                },
            )
        } else {
            None
        }),
    decreases cs.len(),
{
    if k > 0 {
        assert(discovery::program_on_path(d, cs[0].bin) is None);
        let rest = cs.drop_first();
        assert forall|i: int| 0 <= i < k - 1 implies discovery::program_on_path(
            d,
            (#[trigger] rest[i]).bin,
        ) is None by {
            assert(rest[i] == cs[i + 1]);
        }
        if k < cs.len() {
            assert(rest[k - 1] == cs[k]);
        }
        lemma_candidate(d, language, rest, k - 1);
    }
}

/// Searching for the candidate at place `k` comes to `r`.
pub open spec fn is_searched(d: &Discovery, c: Candidate, r: Option<String>) -> bool {
    call_ensures(Discovery::find_on_path, (d, c.bin), r)
}

/// Where no setting names a program, the first candidate on the search path is the
/// server, started with its own arguments; without any there is none.
pub proof fn law_the_first_candidate_serves(
    d: &Discovery,
    language: Language,
    cs: Vec<Candidate>,
    found: Seq<Option<String>>,
    r: ProbeResult,
    k: int,
)
    requires
        call_ensures(Discovery::override_value, (d, language), None),
        call_ensures(discovery::candidates, (language,), cs),
        call_ensures(Discovery::probe, (d, language), r),
        found.len() == cs@.len(),
        forall|i: int| 0 <= i < cs@.len() ==> is_searched(d, #[trigger] cs@[i], found[i]),
        0 <= k <= cs@.len(),
        forall|i: int| 0 <= i < k ==> (#[trigger] found[i]) is None,
        k < cs@.len() ==> found[k] is Some,
    ensures
        r.language == language,
        k < cs@.len() ==> (r.spec matches Some(s) && s.language == language && s.command@
            == found[k].unwrap()@ && text::texts(s.args@) == discovery::strs(cs@[k].args@)
            && s.install_hint@ == cs@[k].install@ && r.install_hint@ == cs@[k].install@),
        k == cs@.len() ==> r.spec is None,
{
    let list = discovery::choices(cs@);
    assert forall|i: int| 0 <= i < k implies discovery::program_on_path(
        *d,
        (#[trigger] list[i]).bin,
    ) is None by {
        assert(list[i] == discovery::choice(cs@[i]));
        assert(is_searched(d, cs@[i], found[i]));
        assert(found[i] is None);
    }
    if k < cs@.len() {
        assert(list[k] == discovery::choice(cs@[k]));
        assert(is_searched(d, cs@[k], found[k]));
    }
    lemma_candidate(*d, language, list, k);
    assert(discovery::probe_view(r).language == language);
    if let Some(s) = r.spec {
        assert(discovery::probe_view(r).server == Some(discovery::server(s)));
    }
}

/// A setting wins: the program that it names is the server, and where it names none
/// there is none, whatever is on the search path.
pub proof fn law_settings_decide(
    d: &Discovery,
    language: Language,
    key: &'static str,
    value: String,
    given: &str,
    named: Option<String>,
    r: ProbeResult,
)
    requires
        call_ensures(Discovery::override_value, (d, language), Some((key, value))),
        given@ == value@,
        call_ensures(Discovery::resolve_override, (d, given), named),
        call_ensures(Discovery::probe, (d, language), r),
    ensures
        named matches Some(p) ==> (r.spec matches Some(s) && s.command@ == p@ && s.language
            == language),
        named is None ==> r.spec is None && text::contains_text(r.install_hint@, key@)
            && text::contains_text(r.install_hint@, value@),
{
    discovery::law_settings_win(*d, language, key@, value@);
    if let Some(s) = r.spec {
        assert(discovery::probe_view(r).server == Some(discovery::server(s)));
    }
}

proof fn lemma_named(cs: Seq<discovery::Choice>, bin: Seq<char>, k: int)
    requires
        0 <= k <= cs.len(),
        forall|i: int| 0 <= i < k ==> (#[trigger] cs[i]).bin != bin,
        k < cs.len() ==> cs[k].bin == bin,
    ensures
        discovery::choice_named(cs, bin) == (if k < cs.len() {
            Some(cs[k])
        } else {
            None
        }),
    decreases cs.len(),
{
    if k > 0 {
        assert(cs[0].bin != bin);
        let rest = cs.drop_first();
        assert forall|i: int| 0 <= i < k - 1 implies (#[trigger] rest[i]).bin != bin by {
            assert(rest[i] == cs[i + 1]);
        }
        if k < cs.len() {
            assert(rest[k - 1] == cs[k]);
        }
        lemma_named(rest, bin, k - 1);
    }
}

/// A program that a setting names is started with the arguments of the first known
/// program of its name, whatever language that is for. Of any other program, the
/// compilers of TypeScript are told to speak the protocol, and the rest is started
/// without arguments.
pub proof fn law_named_programs_are_started_as_usual(
    d: &Discovery,
    language: Language,
    key: &'static str,
    value: String,
    given: &str,
    program: String,
    path: &str,
    stem: String,
    r: ProbeResult,
    k: int,
)
    requires
        call_ensures(Discovery::override_value, (d, language), Some((key, value))),
        given@ == value@,
        call_ensures(Discovery::resolve_override, (d, given), Some(program)),
        path@ == program@,
        call_ensures(discovery::bin_stem, (path,), stem),
        call_ensures(Discovery::probe, (d, language), r),
        0 <= k <= discovery::all_choices().len(),
        forall|i: int|
            0 <= i < k ==> (#[trigger] discovery::all_choices()[i]).bin != stem@,
        k < discovery::all_choices().len() ==> discovery::all_choices()[k].bin == stem@,
    ensures
        r.spec is Some,
        k < discovery::all_choices().len() ==> text::texts(r.spec.unwrap().args@)
            == discovery::all_choices()[k].args && r.spec.unwrap().install_hint@
            == discovery::all_choices()[k].install,
        k == discovery::all_choices().len() && (stem@ == seq!['t', 's', 'c'] || stem@ == seq![
            't',
            's',
            'g',
            'o',
        ]) ==> text::texts(r.spec.unwrap().args@) == seq!["--lsp"@, "--stdio"@],
        k == discovery::all_choices().len() && stem@ != seq!['t', 's', 'c'] && stem@ != seq![
            't',
            's',
            'g',
            'o',
        ] ==> r.spec.unwrap().args@.len() == 0,
{
    discovery::law_settings_win(*d, language, key@, value@);
    lemma_named(discovery::all_choices(), stem@, k);
    reveal_strlit("tsc");
    reveal_strlit("tsgo");
    assert("tsc"@ =~= seq!['t', 's', 'c']);
    assert("tsgo"@ =~= seq!['t', 's', 'g', 'o']);
    if let Some(s) = r.spec {
        assert(discovery::probe_view(r).server == Some(discovery::server(s)));
        assert(discovery::server(s).args == text::texts(s.args@));
        assert(text::texts(s.args@).len() == s.args@.len());
    }
}

/// Every candidate of every language that is probed is known by its name.
pub proof fn law_candidates_are_known(language: Language, cs: Vec<Candidate>, k: int)
    requires
        call_ensures(discovery::candidates, (language,), cs),
        0 <= k < cs@.len(),
    ensures
        discovery::all_choices().contains(discovery::choice(cs@[k])),
{
    let p = discovery::python_choices();
    let g = discovery::go_choices();
    let j = discovery::java_choices();
    let r = discovery::rust_choices();
    let t = discovery::typescript_choices();
    let all = discovery::all_choices();
    let list = discovery::choices(cs@);
    assert(list[k] == discovery::choice(cs@[k]));
    assert(list.len() == cs@.len());
    match language {
        Language::Python => {
            assert(all[k] == list[k]);
        },
        Language::Go => {
            assert(all[p.len() + k] == list[k]);
        },
        Language::Java => {
            assert(all[p.len() + g.len() + k] == list[k]);
        },
        Language::Rust => {
            assert(all[p.len() + g.len() + j.len() + k] == list[k]);
        },
        Language::TypeScript | Language::Tsx | Language::JavaScript => {
            assert(all[p.len() + g.len() + j.len() + r.len() + k] == list[k]);
        },
        _ => {},
    }
}

/// To discover a server is to probe for it: one that is found is the one that the
/// probe finds, and otherwise the error names the language and gives its hint.
pub proof fn law_discovery_is_a_probe(
    d: &Discovery,
    language: Language,
    probe: ProbeResult,
    r: Result<ServerSpec, LspError>,
    there: bool,
)
    requires
        call_ensures(Discovery::probe, (d, language), probe),
        call_ensures(Discovery::discover, (d, language), r),
        call_ensures(ProbeResult::available, (&probe,), there),
    ensures
        there <==> probe.spec is Some,
        there <==> r is Ok,
        r matches Ok(s) ==> s.language == probe.spec.unwrap().language && s.command@
            == probe.spec.unwrap().command@ && text::texts(s.args@) == text::texts(
            probe.spec.unwrap().args@,
        ),
        r matches Err(e) ==> (e matches LspError::Unavailable(l, hint) && l == language && hint@
            == probe.install_hint@),
{
    if let Some(s) = probe.spec {
        assert(discovery::probe_view(probe).server == Some(discovery::server(s)));
    }
    if let Ok(s) = r {
        let a = discovery::server(s);
        let b = discovery::server(probe.spec.unwrap());
        assert(a == b);
        assert(a.language == s.language && a.command == s.command@);
    }
}

/// A report holds a probe for each of the languages that are probed, in their
/// order.
pub proof fn law_reports_probe_every_language(
    d: &Discovery,
    out: Vec<ProbeResult>,
    k: int,
    one: ProbeResult,
)
    requires
        call_ensures(Discovery::probe_report, (d,), out),
        0 <= k < discovery::PROBED_LANGUAGES@.len(),
        call_ensures(Discovery::probe, (d, discovery::PROBED_LANGUAGES@[k]), one),
    ensures
        out@.len() == discovery::PROBED_LANGUAGES@.len(),
        out@[k].language == discovery::PROBED_LANGUAGES@[k],
        discovery::probe_view(out@[k]) == discovery::probe_view(one),
{
    let a = out@.map_values(|p: ProbeResult| discovery::probe_view(p));
    let b = discovery::PROBED_LANGUAGES@.map_values(|l: Language| discovery::probe_of(*d, l));
    assert(a == b);
    assert(a.len() == out@.len());
    assert(a[k] == discovery::probe_view(out@[k]));
    assert(b[k] == discovery::probe_of(*d, discovery::PROBED_LANGUAGES@[k]));
    assert(discovery::probe_view(out@[k]).language == out@[k].language);
}

proof fn lemma_joined_holds(parts: Seq<Seq<char>>, sep: Seq<char>, k: int)
    requires
        0 <= k < parts.len(),
    ensures
        text::contains_text(queries::joined_by(parts, sep), parts[k]),
    decreases parts.len(),
{
    let whole = queries::joined_by(parts, sep);
    laws::text::law_texts_hold_what_stands_in_them(whole, parts[k]);
    if parts.len() == 1 {
        assert(laws::text::runs_from(whole, parts[k], 0));
    } else {
        let front = queries::joined_by(parts.drop_last(), sep);
        if k == parts.len() - 1 {
            assert(laws::text::runs_from(whole, parts[k], (front + sep).len() as int));
        } else {
            lemma_joined_holds(parts.drop_last(), sep, k);
            laws::text::law_texts_hold_what_stands_in_them(front, parts[k]);
            let at = choose|at: int| laws::text::runs_from(front, parts[k], at);
            assert(laws::text::runs_from(whole, parts[k], at));
        }
    }
}

proof fn lemma_holds_inside(a: Seq<char>, b: Seq<char>, c: Seq<char>, part: Seq<char>)
    requires
        text::contains_text(b, part),
    ensures
        text::contains_text(a + b + c, part),
{
    let whole = a + b + c;
    laws::text::law_texts_hold_what_stands_in_them(b, part);
    laws::text::law_texts_hold_what_stands_in_them(whole, part);
    let at = choose|at: int| laws::text::runs_from(b, part, at);
    assert forall|k: int| 0 <= k < part.len() implies whole[a.len() + at + k] == #[trigger] part[k] by {
        assert(b[at + k] == part[k]);
    }
    assert(laws::text::runs_from(whole, part, a.len() + at));
}

/// What is said of a missing server names every candidate, how each is installed,
/// and the setting that names another. Java's, which is more than a program, has a
/// text of its own; where no candidate is known nothing is said.
pub proof fn law_hints_name_every_candidate(
    language: Language,
    cs: Vec<Candidate>,
    hint: String,
    key: &'static str,
    k: int,
)
    requires
        call_ensures(discovery::candidates, (language,), cs),
        call_ensures(discovery::missing_hint, (language,), hint),
        discovery::is_probed(language),
        call_ensures(discovery::env_override_var, (language,), key),
        0 <= k < cs@.len(),
        !(language is Java),
    ensures
        text::contains_text(hint@, cs@[k].bin@),
        text::contains_text(hint@, cs@[k].install@),
        text::contains_text(hint@, key@),
{
    let list = discovery::choices_for(language);
    let chosen = discovery::choices(cs@);
    assert(chosen == list);
    assert(chosen[k] == discovery::choice(cs@[k]));
    let bins = list.map_values(|c: discovery::Choice| c.bin);
    let installs = list.map_values(|c: discovery::Choice| c.install);
    assert(bins[k] == cs@[k].bin@ && installs[k] == cs@[k].install@);
    let a = "none of "@;
    let b = queries::joined_by(bins, ", "@);
    let c = " found on PATH. Install one of:\n  "@;
    let d = queries::joined_by(installs, "\n  "@);
    let e = "\nOr set "@;
    let f = key@;
    let g = " to the executable."@ + (match language {
        Language::TypeScript | Language::Tsx | Language::JavaScript => discovery::typescript_note(),
        _ => Seq::empty(),
    });
    lemma_joined_holds(bins, ", "@, k);
    lemma_joined_holds(installs, "\n  "@, k);
    assert(hint@ =~= a + b + (c + d + e + f + g));
    lemma_holds_inside(a, b, c + d + e + f + g, bins[k]);
    assert(hint@ =~= (a + b + c) + d + (e + f + g));
    lemma_holds_inside(a + b + c, d, e + f + g, installs[k]);
    assert(hint@ =~= (a + b + c + d + e) + f + g);
    laws::text::law_texts_hold_what_stands_in_them(f, f);
    assert(laws::text::runs_from(f, f, 0));
    lemma_holds_inside(a + b + c + d + e, f, g, f);
}

/// Candidates are known for exactly the languages that are probed, and TypeScript
/// and JavaScript have the same.
pub proof fn law_typescript_and_javascript_are_served_alike(
    language: Language,
    cs: Vec<Candidate>,
    typescript: Vec<Candidate>,
)
    requires
        call_ensures(discovery::candidates, (language,), cs),
        call_ensures(discovery::candidates, (Language::TypeScript,), typescript),
    ensures
        cs@.len() > 0 <==> discovery::PROBED_LANGUAGES@.contains(language),
        language is Tsx || language is JavaScript ==> discovery::choices(cs@)
            == discovery::choices(typescript@),
{
    assert(discovery::choices(cs@).len() == cs@.len());
    let all = discovery::PROBED_LANGUAGES@;
    assert(all[0] == Language::Python && all[1] == Language::Go && all[2] == Language::Java
        && all[3] == Language::Rust && all[4] == Language::TypeScript && all[5] == Language::Tsx
        && all[6] == Language::JavaScript);
    assert(all.len() == 7);
}

/// The name of a program is the last part of its path, without the extension of a
/// Windows program.
pub proof fn law_programs_go_by_their_last_part(
    path: &str,
    r: String,
    dir: Seq<char>,
    name: Seq<char>,
)
    requires
        call_ensures(discovery::bin_stem, (path,), r),
        paths::is_part(name),
        name != seq!['.', '.'],
        path@ == dir + seq!['/'] + name || path@ == name,
    ensures
        (forall|k: int| 0 <= k < name.len() ==> #[trigger] name[k] != '.') ==> r@ == name,
        has_ending(name, ".cmd"@) || has_ending(name, ".exe"@) || has_ending(name, ".bat"@)
            || has_ending(name, ".com"@) ==> r@ == name.take(name.len() - 4),
{
    paths::lemma_single_part(name);
    if path@ != name {
        assert(path@ =~= dir.push('/') + name);
        paths::lemma_parts_join(dir, name);
    }
    assert(paths::parts_of(path@).last() == name);
    lemma_ending(name, ".cmd"@);
    lemma_ending(name, ".exe"@);
    lemma_ending(name, ".bat"@);
    lemma_ending(name, ".com"@);
    reveal_strlit(".cmd");
    reveal_strlit(".exe");
    reveal_strlit(".bat");
    reveal_strlit(".com");
    if forall|k: int| 0 <= k < name.len() ==> #[trigger] name[k] != '.' {
        if name.len() >= 4 {
            let c = name[name.len() - 4];
            assert(c != '.');
            assert(text::ascii_lower_char(c) != '.') by {
                assert('A' <= c <= 'Z' ==> text::ascii_lower_char(c) as u32 == c as u32 + 32);
            }
            assert(text::ascii_lower_char('.') == '.');
            assert(".cmd"@[0] == '.' && ".exe"@[0] == '.' && ".bat"@[0] == '.' && ".com"@[0]
                == '.');
        }
    }
}

} // verus!
