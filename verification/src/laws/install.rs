//! What is installed, where, and when.

use crate::laws;
use crate::lsp::archive;
use crate::lsp::discovery;
use crate::lsp::discovery::ProbeResult;
use crate::lsp::install;
use crate::lsp::install::{InstallPlan, InstallStep, LspStatus, VersionPolicy};
use crate::lsp::installation;
use crate::lsp::installation::{Attempt, LockStep, Place, VersionDir};
use crate::lsp::installer;
use crate::lsp::installer::{AutoInstallMode, InstallSpec};
use crate::lsp::router;
use crate::paths;
use crate::text;
use crate::types;
use crate::types::Language;
use vstd::prelude::*;

verus! {

// ------------------------------------------------------------------ settings

/// What a mode is called asks for that mode.
pub proof fn law_modes_answer_to_their_names(
    mode: AutoInstallMode,
    name: &'static str,
    given: &str,
    r: AutoInstallMode,
)
    requires
        call_ensures(AutoInstallMode::as_str, (mode,), name),
        given@ == name@,
        call_ensures(AutoInstallMode::from_env, (given,), r),
    ensures
        r == mode,
{
    reveal_strlit("prompt");
    reveal_strlit("off");
    reveal_strlit("on");
    reveal_strlit("0");
    reveal_strlit("1");
    reveal_strlit("false");
    reveal_strlit("true");
    reveal_strlit("no");
    reveal_strlit("yes");
    lemma_plain_word("prompt"@);
    lemma_plain_word("off"@);
    lemma_plain_word("on"@);
    assert("on"@[1] == 'n' && "no"@[1] == 'o' && "off"@[0] == 'o' && "yes"@[0] == 'y');
    assert("prompt"@.len() == 6 && "off"@.len() == 3 && "on"@.len() == 2 && "no"@.len() == 2
        && "0"@.len() == 1 && "1"@.len() == 1 && "false"@.len() == 5 && "true"@.len() == 4
        && "yes"@.len() == 3);
}

proof fn lemma_plain_word(word: Seq<char>)
    requires
        word.len() > 0,
        forall|k: int| 0 <= k < word.len() ==> 'a' <= #[trigger] word[k] <= 'z',
    ensures
        text::ascii_lower(text::trimmed(word)) == word,
{
    let none = Seq::<char>::empty();
    assert(!text::is_white_space(word[0]));
    assert(!text::is_white_space(word[word.len() - 1]));
    laws::churn::lemma_trimmed(none, word, none);
    assert(none + word + none =~= word);
    assert(text::ascii_lower(word) =~= word);
}

/// White space around a setting does not count, nor does its letter case.
pub proof fn law_settings_are_read_loosely(
    a: &str,
    b: &str,
    front: Seq<char>,
    word: Seq<char>,
    back: Seq<char>,
    x: AutoInstallMode,
    y: AutoInstallMode,
    p: bool,
    q: bool,
)
    requires
        laws::churn::is_blank(front),
        laws::churn::is_blank(back),
        laws::churn::is_bare(word),
        a@ == front + word + back,
        laws::churn::is_bare(b@),
        text::ascii_lower(b@) == text::ascii_lower(word),
        call_ensures(AutoInstallMode::from_env, (a,), x),
        call_ensures(AutoInstallMode::from_env, (b,), y),
        call_ensures(installer::env_truthy, (a,), p),
        call_ensures(installer::env_truthy, (b,), q),
    ensures
        x == y,
        p == q,
{
    laws::churn::lemma_trimmed(front, word, back);
    let none = Seq::<char>::empty();
    laws::churn::lemma_trimmed(none, b@, none);
    assert(none + b@ + none =~= b@);
}

/// What switches a setting on switches installing on, and what is blank does
/// neither.
pub proof fn law_switches_agree(setting: &str, mode: AutoInstallMode, on: bool)
    requires
        call_ensures(AutoInstallMode::from_env, (setting,), mode),
        call_ensures(installer::env_truthy, (setting,), on),
    ensures
        on <==> mode == AutoInstallMode::On,
        laws::churn::is_blank(setting@) ==> !on && mode == AutoInstallMode::Prompt,
{
    reveal_strlit("off");
    reveal_strlit("on");
    reveal_strlit("0");
    reveal_strlit("1");
    reveal_strlit("false");
    reveal_strlit("true");
    reveal_strlit("no");
    reveal_strlit("yes");
    assert("on"@[1] == 'n' && "no"@[1] == 'o' && "off"@[0] == 'o' && "yes"@[0] == 'y' && "0"@[0]
        == '0' && "1"@[0] == '1');
    assert("off"@.len() == 3 && "on"@.len() == 2 && "no"@.len() == 2 && "0"@.len() == 1
        && "1"@.len() == 1 && "false"@.len() == 5 && "true"@.len() == 4 && "yes"@.len() == 3);
    laws::discovery::lemma_blank(setting@);
}

proof fn lemma_end_slashes(m: Seq<char>, slashes: Seq<char>)
    requires
        m.len() == 0 || m.last() != '/',
        forall|k: int| 0 <= k < slashes.len() ==> #[trigger] slashes[k] == '/',
    ensures
        installer::without_end_slashes(m + slashes) == m,
    decreases slashes.len(),
{
    let whole = m + slashes;
    if slashes.len() > 0 {
        assert(slashes[slashes.len() - 1] == '/');
        assert(whole.last() == '/');
        let front = slashes.drop_last();
        assert forall|k: int| 0 <= k < front.len() implies #[trigger] front[k] == '/' by {
            assert(front[k] == slashes[k]);
        }
        assert(whole.drop_last() =~= m + front);
        lemma_end_slashes(m, front);
    } else {
        assert(whole =~= m);
    }
}

/// Installing is switched off by "off", "0", "false" and "no", and on by "on", "1",
/// "true" and "yes"; anything else leaves it to the user.
pub proof fn law_words_switch_installing(
    setting: &str,
    word: Seq<char>,
    r: AutoInstallMode,
)
    requires
        call_ensures(AutoInstallMode::from_env, (setting,), r),
        laws::churn::is_bare(setting@),
        word == text::ascii_lower(setting@),
    ensures
        r is Off <==> word == seq!['o', 'f', 'f'] || word == seq!['0'] || word == seq![
            'f',
            'a',
            'l',
            's',
            'e',
        ] || word == seq!['n', 'o'],
        r is On <==> word == seq!['o', 'n'] || word == seq!['1'] || word == seq![
            't',
            'r',
            'u',
            'e',
        ] || word == seq!['y', 'e', 's'],
{
    let none = Seq::<char>::empty();
    laws::churn::lemma_trimmed(none, setting@, none);
    assert(none + setting@ + none =~= setting@);
    reveal_strlit("off");
    reveal_strlit("on");
    reveal_strlit("0");
    reveal_strlit("1");
    reveal_strlit("false");
    reveal_strlit("true");
    reveal_strlit("no");
    reveal_strlit("yes");
    assert("off"@ =~= seq!['o', 'f', 'f']);
    assert("on"@ =~= seq!['o', 'n']);
    assert("0"@ =~= seq!['0']);
    assert("1"@ =~= seq!['1']);
    assert("false"@ =~= seq!['f', 'a', 'l', 's', 'e']);
    assert("true"@ =~= seq!['t', 'r', 'u', 'e']);
    assert("no"@ =~= seq!['n', 'o']);
    assert("yes"@ =~= seq!['y', 'e', 's']);
    assert("on"@[1] == 'n' && "no"@[1] == 'o' && "off"@[0] == 'o' && "yes"@[0] == 'y' && "0"@[0]
        == '0' && "1"@[0] == '1');
}

/// A mirror takes the place of GitHub and of nothing else; slashes at its end do
/// not count.
pub proof fn law_mirrors_stand_in_for_github(
    url: &str,
    rest: Seq<char>,
    mirror: &str,
    m: Seq<char>,
    slashes: Seq<char>,
    none: &str,
    a: String,
    b: String,
    c: String,
)
    requires
        call_ensures(installer::rewrite_mirror, (url, Some(mirror)), a),
        call_ensures(installer::rewrite_mirror, (url, None), b),
        call_ensures(installer::rewrite_mirror, (url, Some(none)), c),
        none@.len() == 0,
        mirror@ == m + slashes,
        mirror@.len() > 0,
        m.len() == 0 || m.last() != '/',
        forall|k: int| 0 <= k < slashes.len() ==> #[trigger] slashes[k] == '/',
    ensures
        b@ == url@,
        c@ == url@,
        url@ == "https://github.com/"@ + rest ==> a@ == m + seq!['/'] + rest,
        !("https://github.com/"@.is_prefix_of(url@)) ==> a@ == url@,
{
    lemma_end_slashes(m, slashes);
    reveal_strlit("https://github.com/");
    reveal_strlit("/");
    assert("/"@ =~= seq!['/']);
    let site = "https://github.com/"@;
    assert(site.len() == 19);
    if url@ == site + rest {
        assert(url@.subrange(0, 19) =~= site);
        assert(url@.skip(19) =~= rest);
    }
    if text::stands_at(url@, site, 0) {
        assert(site.is_prefix_of(url@));
    }
}

// --------------------------------------------------------------------- specs

/// What is installed is named and versioned by one part of a path each, and its
/// program lies below; anything else is refused.
pub proof fn law_specs_stay_where_they_belong(
    spec: &InstallSpec,
    r: Result<(), installer::InstallError>,
)
    requires
        call_ensures(installer::validate_spec, (spec,), r),
    ensures
        r is Ok ==> spec.name@.len() > 0 && !spec.name@.contains('/') && !spec.name@.contains('\\')
            && spec.version@.len() > 0 && !spec.version@.contains('/') && !spec.version@.contains(
            '\\',
        ) && spec.name@ != seq!['.', '.'] && spec.version@ != seq!['.', '.']
            && spec.binary_relative@.len() > 0 && spec.binary_relative@[0] != '/' && forall|k: int|
            0 <= k < paths::parts_of(spec.binary_relative@).len() ==> #[trigger] paths::parts_of(
                spec.binary_relative@,
            )[k] != seq!['.', '.'],
        r is Err ==> spec.name@.len() == 0 || spec.name@.contains('/') || spec.name@.contains('\\')
            || laws::text::runs_somewhere(spec.name@, seq!['.', '.']) || spec.version@.len() == 0
            || spec.version@.contains('/') || spec.version@.contains('\\')
            || laws::text::runs_somewhere(spec.version@, seq!['.', '.'])
            || spec.binary_relative@.len() == 0 || spec.binary_relative@[0] == '/' || exists|k: int|
            0 <= k < paths::parts_of(spec.binary_relative@).len() && #[trigger] paths::parts_of(
                spec.binary_relative@,
            )[k] == seq!['.', '.'],
        r matches Err(e) ==> e is InvalidSpec,
{
    reveal_strlit("..");
    assert(".."@ =~= seq!['.', '.']);
    laws::text::law_texts_hold_what_stands_in_them(spec.name@, ".."@);
    laws::text::law_texts_hold_what_stands_in_them(spec.version@, ".."@);
    if spec.name@ == seq!['.', '.'] {
        assert(laws::text::runs_from(spec.name@, ".."@, 0));
    }
    if spec.version@ == seq!['.', '.'] {
        assert(laws::text::runs_from(spec.version@, ".."@, 0));
    }
}

/// Everything of a version lies in the directory of its server and its version
/// below the place where servers are kept.
pub proof fn law_versions_have_their_own_directory(
    spec: &InstallSpec,
    root: &str,
    dir: String,
    binary: String,
    marker: String,
    lock: String,
)
    requires
        call_ensures(InstallSpec::version_dir, (spec, root), dir),
        call_ensures(InstallSpec::binary_path, (spec, root), binary),
        call_ensures(InstallSpec::marker_path, (spec, root), marker),
        call_ensures(InstallSpec::lock_path, (spec, root), lock),
        paths::is_part(spec.name@),
        paths::is_part(spec.version@),
        !paths::is_absolute(spec.binary_relative@),
    ensures
        paths::parts_of(dir@) == paths::parts_of(root@) + seq![spec.name@, spec.version@],
        paths::parts_of(binary@) == paths::parts_of(dir@) + paths::parts_of(spec.binary_relative@),
        paths::parts_of(marker@) == paths::parts_of(dir@) + seq![".installed"@],
        paths::parts_of(lock@).drop_last() == paths::parts_of(root@) + seq![spec.name@],
        paths::parts_of(lock@).len() == paths::parts_of(dir@).len(),
        paths::parts_of(lock@) != paths::parts_of(dir@),
{
    let name = spec.name@;
    let version = spec.version@;
    reveal_strlit(".");
    reveal_strlit(".installed");
    reveal_strlit(".install.lock");
    let inner = paths::below(root@, name);
    assert(name.contains(name[0]) && version.contains(version[0]));
    paths::lemma_single_part(name);
    paths::lemma_single_part(version);
    paths::lemma_parts_below(root@, name);
    paths::lemma_parts_below(inner, version);
    assert(paths::parts_of(root@) + seq![name] + seq![version] =~= paths::parts_of(root@) + seq![
        name,
        version,
    ]);
    paths::lemma_parts_below(dir@, spec.binary_relative@);
    assert(paths::is_part(".installed"@)) by {
        assert(".installed"@.len() == 10);
        assert forall|k: int| 0 <= k < 10 implies #[trigger] ".installed"@[k] != '/' by {}
    }
    paths::lemma_single_part(".installed"@);
    paths::lemma_parts_below(dir@, ".installed"@);
    assert(version != "."@) by {
        assert("."@ =~= seq!['.']);
    }
    let file = "."@ + version + ".install.lock"@;
    assert(paths::is_part(file)) by {
        assert(file.len() == version.len() + 14);
        assert forall|k: int| 0 <= k < file.len() implies #[trigger] file[k] != '/' by {
            if 1 <= k < 1 + version.len() {
                assert(file[k] == version[k - 1]);
                assert(version.contains(version[k - 1]));
            } else if k > 0 {
                assert(file[k] == ".install.lock"@[k - 1 - version.len()]);
            }
        }
    }
    paths::lemma_single_part(file);
    paths::lemma_parts_below(inner, file);
    let parts = paths::parts_of(inner) + seq![file];
    assert(paths::parts_of(lock@) == parts);
    assert(parts.drop_last() =~= paths::parts_of(inner));
    assert(parts.last() == file);
    assert(paths::parts_of(dir@).last() == version);
}

/// A download is taken where its checksum is the one that was asked for, letter
/// case and white space around that aside, and only there.
pub proof fn law_checksums_decide(
    spec: &InstallSpec,
    actual: String,
    r: Result<(), installer::InstallError>,
    front: Seq<char>,
    sum: Seq<char>,
    back: Seq<char>,
)
    requires
        call_ensures(installer::judge_sum, (spec, actual), r),
        laws::churn::is_blank(front),
        laws::churn::is_blank(back),
        laws::churn::is_bare(sum),
        spec.sha256@ == front + sum + back,
    ensures
        r is Ok <==> actual@ == text::ascii_lower(sum),
        r matches Err(e) ==> e is ChecksumMismatch,
{
    laws::churn::lemma_trimmed(front, sum, back);
}

// ------------------------------------------------------------------ archives

/// How many of the parts lead down, less those that lead up.
pub open spec fn balance(parts: Seq<Seq<char>>) -> int
    decreases parts.len(),
{
    if parts.len() == 0 {
        0
    } else {
        balance(parts.drop_last()) + (if parts.last() == seq!['.', '.'] {
            -1int
        } else {
            1int
        })
    }
}

proof fn lemma_depth(parts: Seq<Seq<char>>)
    ensures
        archive::depth_of(parts) is Some <==> forall|n: int|
            0 <= n <= parts.len() ==> balance(#[trigger] parts.take(n)) >= 0,
        archive::depth_of(parts) matches Some(d) ==> d == balance(parts),
    decreases parts.len(),
{
    if parts.len() > 0 {
        let front = parts.drop_last();
        lemma_depth(front);
        assert forall|n: int| 0 <= n <= front.len() implies front.take(n) == #[trigger] parts.take(
            n,
        ) by {
            assert(front.take(n) =~= parts.take(n));
        }
        assert(parts.take(parts.len() as int) =~= parts);
        assert(front.take(front.len() as int) =~= front);
        if archive::depth_of(parts) is Some {
            assert forall|n: int| 0 <= n <= parts.len() implies balance(#[trigger] parts.take(n))
                >= 0 by {
                if n <= front.len() {
                    assert(balance(front.take(n)) >= 0);
                }
            }
        }
        if forall|n: int| 0 <= n <= parts.len() ==> balance(#[trigger] parts.take(n)) >= 0 {
            assert forall|n: int| 0 <= n <= front.len() implies balance(#[trigger] front.take(n))
                >= 0 by {
                assert(balance(parts.take(n)) >= 0);
            }
            assert(balance(parts.take(parts.len() as int)) >= 0);
        }
    } else {
        assert forall|n: int| 0 <= n <= parts.len() implies balance(#[trigger] parts.take(n))
            >= 0 by {
            assert(parts.take(n) =~= parts);
        }
    }
}

/// The name of an entry can be used where it is relative, holds no zero, and on no
/// part of the way leads up more often than down.
pub proof fn law_usable_names_never_lead_out(name: &str, r: bool)
    requires
        call_ensures(archive::name_is_enclosed, (name,), r),
    ensures
        r <==> !name@.contains('\0') && !(name@.len() > 0 && name@[0] == '/') && forall|n: int|
            0 <= n <= paths::parts_of(name@).len() ==> balance(
                #[trigger] paths::parts_of(name@).take(n),
            ) >= 0,
{
    lemma_depth(paths::parts_of(name@));
}

/// An entry of an archive goes below the destination, with the names that it has
/// there; one whose name leads elsewhere is refused, and one without a name is
/// passed over.
pub proof fn law_entries_go_below_the_destination(
    base: &str,
    rel: &str,
    is_dir: bool,
    r: Place,
    none: Place,
)
    requires
        call_ensures(installation::place_entry, (base, Some(rel), is_dir), r),
        call_ensures(installation::place_entry, (base, None, is_dir), none),
    ensures
        none is Skip,
        !(r is Skip),
        r is Refuse <==> (rel@.len() > 0 && rel@[0] == '/') || exists|k: int|
            0 <= k < paths::parts_of(rel@).len() && #[trigger] paths::parts_of(rel@)[k] == seq![
                '.',
                '.',
            ],
        r is MakeDir ==> is_dir,
        r is Write ==> !is_dir,
        r matches Place::MakeDir(p) ==> paths::parts_of(p@) == paths::parts_of(base@)
            + paths::parts_of(rel@),
        r matches Place::Write(p) ==> paths::parts_of(p@) == paths::parts_of(base@)
            + paths::parts_of(rel@),
{
    if !(r is Refuse) {
        installation::law_unpacked_files_stay_inside(base@, rel@);
    }
}

/// What is made of an entry of a zip archive: a directory, or a file with its
/// contents and permissions, with the names that it has there below the
/// destination. A name of no use is passed over, one that climbs ends it, and so
/// does an entry that cannot be read.
pub proof fn law_zip_entries_are_written_as_they_are(
    name: String,
    is_dir: bool,
    mode: Option<u32>,
    data: Result<Vec<u8>, String>,
    base: &str,
    given: &str,
    usable: bool,
    r: archive::Chore,
    why: String,
    failed: archive::Chore,
)
    requires
        call_ensures(
            archive::chore_of,
            (Ok(archive::ZipEntry { name, is_dir, mode, data }), base),
            r,
        ),
        call_ensures(archive::chore_of, (Err(why), base), failed),
        given@ == name@,
        call_ensures(archive::name_is_enclosed, (given,), usable),
    ensures
        failed is Fail,
        r is Skip <==> !usable,
        usable && (exists|k: int|
            0 <= k < paths::parts_of(name@).len() && #[trigger] paths::parts_of(name@)[k] == seq![
                '.',
                '.',
            ]) ==> r is Fail,
        r is MakeDir ==> is_dir,
        r is Write ==> !is_dir && data is Ok,
        r matches archive::Chore::Write { path, data: written, mode: permissions } ==> {
            &&& written@ == data->Ok_0@
            &&& permissions == mode
            &&& paths::parts_of(path@) == paths::parts_of(base@) + paths::parts_of(name@)
        },
        r matches archive::Chore::MakeDir(path) ==> paths::parts_of(path@) == paths::parts_of(
            base@,
        ) + paths::parts_of(name@),
        usable && is_dir ==> r is MakeDir || r is Fail,
        usable && !is_dir && data is Ok ==> r is Write || r is Fail,
        r is Fail ==> (exists|k: int|
            0 <= k < paths::parts_of(name@).len() && #[trigger] paths::parts_of(name@)[k] == seq![
                '.',
                '.',
            ]) || (!is_dir && data is Err),
{
    if r is MakeDir || r is Write {
        installation::law_unpacked_files_stay_inside(base@, name@);
    }
}

/// A program can be run once its permissions are set, and none of them is taken
/// away; those of a program that can be run stay as they are.
pub proof fn law_programs_are_made_runnable(mode: u32, after: u32, before: bool, runs: bool, dir: bool)
    requires
        call_ensures(installation::executable_mode, (mode,), after),
        call_ensures(installation::is_runnable, (true, mode), before),
        call_ensures(installation::is_runnable, (true, after), runs),
        call_ensures(installation::is_runnable, (false, mode), dir),
    ensures
        runs,
        !dir,
        before ==> after == mode,
        after | mode == after,
{
    assert((mode | 0o755) & 0o111 != 0) by (bit_vector);
    assert((mode | 0o755) | mode == mode | 0o755) by (bit_vector);
    assert(mode | mode == mode) by (bit_vector);
}

/// A lock that someone else holds is waited for, broken where it is older than it
/// may be, and given up when the time is up.
pub proof fn law_locks_are_waited_for(
    attempt: Attempt,
    path: &str,
    elapsed: u64,
    timeout: u64,
    age: Option<u64>,
    r: LockStep,
)
    requires
        call_ensures(installation::lock_step, (attempt, path, elapsed, timeout, age), r),
    ensures
        r is Held <==> attempt is Taken,
        r is Fail <==> attempt is Failed || (attempt is Exists && elapsed >= timeout),
        r is Break <==> attempt is Exists && elapsed < timeout && (age matches Some(a) && a
            > timeout),
{
}

/// The program that is found is that of a version that can be used, and no version
/// that can be used has a later name. Where there is none, none is found.
pub proof fn law_the_last_usable_version_is_found(
    root: &str,
    server: &str,
    rel: &str,
    versions: &Vec<VersionDir>,
    r: Option<String>,
    k: int,
) -> (m: int)
    requires
        call_ensures(installation::find_cached_binary, (root, server, rel, versions), r),
        !paths::is_absolute(rel@),
        paths::is_part(server@),
        forall|i: int|
            0 <= i < versions@.len() ==> paths::is_part((#[trigger] versions@[i]).name@),
        0 <= k < versions@.len(),
    ensures
        versions@[k].runnable && versions@[k].name@[0] != '.' ==> r is Some,
        r is Some ==> 0 <= m < versions@.len() && versions@[m].runnable && versions@[m].name@[0]
            != '.' && (versions@[k].runnable && versions@[k].name@[0] != '.' ==> text::text_le(
            versions@[k].name@,
            versions@[m].name@,
        )) && paths::parts_of(r.unwrap()@) == paths::parts_of(root@) + seq![
            server@,
            versions@[m].name@,
        ] + paths::parts_of(rel@),
{
    assert(paths::is_part(versions@[k].name@));
    if installation::is_usable(versions@[k]) {
        installation::law_newest_is_last(versions@, k);
    }
    if r is Some {
        let m = lemma_newest(versions@);
        let v = versions@[m].name@;
        assert(paths::is_part(v));
        assert(server@.contains(server@[0]) && v.contains(v[0]));
        let inner = paths::below(root@, server@);
        let dir = paths::below(inner, v);
        paths::lemma_single_part(server@);
        paths::lemma_single_part(v);
        paths::lemma_parts_below(root@, server@);
        paths::lemma_parts_below(inner, v);
        paths::lemma_parts_below(dir, rel@);
        assert(paths::parts_of(root@) + seq![server@] + seq![v] =~= paths::parts_of(root@) + seq![
            server@,
            v,
        ]);
        m
    } else {
        0
    }
}

proof fn lemma_newest(versions: Seq<VersionDir>) -> (m: int)
    requires
        installation::newest(versions) is Some,
    ensures
        0 <= m < versions.len(),
        installation::is_usable(versions[m]),
        installation::newest(versions) == Some(versions[m].name@),
    decreases versions.len(),
{
    let front = versions.drop_last();
    let last = versions.len() - 1;
    if installation::newest(versions) == Some(versions[last].name@) && installation::is_usable(
        versions[last],
    ) {
        last
    } else {
        let m = lemma_newest(front);
        assert(front[m] == versions[m]);
        m
    }
}

// --------------------------------------------------------------------- plans

/// A language whose server was found is ready, with that server; one whose server
/// is missing needs it to be installed, with the hint, unless nothing is known of
/// one.
pub proof fn law_found_servers_are_ready(
    probe: &ProbeResult,
    name: &'static str,
    r: LspStatus,
)
    requires
        call_ensures(install::status_from_probe, (probe,), r),
        call_ensures(router::primary_server_name, (probe.language,), name),
    ensures
        r is Ready <==> probe.spec is Some,
        r matches LspStatus::Ready { server_name, command } ==> server_name@ == name@ && command@
            == probe.spec.unwrap().command@,
        r matches LspStatus::NeedsInstall { server_name, install_hint } ==> server_name@ == name@
            && install_hint@ == probe.install_hint@ && install_hint@.len() > 0,
        probe.spec is None && probe.install_hint@.len() == 0 ==> r is AstOnly,
{
    let p = discovery::probe_view(*probe);
    if let Some(s) = probe.spec {
        assert(p.server == Some(discovery::server(s)));
        assert(discovery::server(s).command == s.command@);
    }
}

/// Something is fetched only where a server is missing and it is known where to get
/// it: that, in the version that is pinned if one is.
pub proof fn law_only_what_is_missing_is_fetched(
    plan: &InstallPlan,
    catalog: Option<InstallSpec>,
    r: InstallStep,
)
    requires
        call_ensures(install::install_step, (plan, catalog), r),
    ensures
        r is Fetch <==> plan.status is NeedsInstall && catalog is Some,
        r matches InstallStep::Fetch(wanted) ==> wanted.url == catalog.unwrap().url && wanted.sha256
            == catalog.unwrap().sha256 && wanted.name == catalog.unwrap().name,
        r matches InstallStep::Fetch(wanted) ==> match plan.version_policy {
            VersionPolicy::Pinned(v) => wanted.version@ == v@,
            VersionPolicy::Latest => wanted.version@ == catalog.unwrap().version@,
        },
        r matches InstallStep::Done(done) ==> (done is Ok <==> plan.status is Ready),
        r matches InstallStep::Done(done) ==> (done matches Ok(record) ==> record.language
            == plan.language && (record.command matches Some(c) && c@
            == plan.status->Ready_command@)),
{
}

/// A version is pinned by what is not blank.
pub proof fn law_blank_pins_pin_nothing(
    pin: &str,
    r: VersionPolicy,
    front: Seq<char>,
    version: Seq<char>,
    back: Seq<char>,
)
    requires
        call_ensures(VersionPolicy::from_pin, (Some(pin),), r),
        laws::churn::is_blank(front),
        laws::churn::is_blank(back),
        laws::churn::is_bare(version),
    ensures
        laws::churn::is_blank(pin@) ==> r == VersionPolicy::Latest,
        pin@ == front + version + back ==> (r matches VersionPolicy::Pinned(v) && v@ == version),
{
    laws::churn::lemma_trimmed(front, version, back);
    laws::discovery::lemma_blank(pin@);
}

/// A language answers to its own name, letter case and white space around it aside.
pub proof fn law_languages_are_parsed_by_name(
    language: Language,
    raw: &str,
    r: Result<Language, install::InstallError>,
    front: Seq<char>,
    name: Seq<char>,
    back: Seq<char>,
)
    requires
        call_ensures(install::parse_language_name, (raw,), r),
        laws::churn::is_blank(front),
        laws::churn::is_blank(back),
        laws::churn::is_bare(name),
        raw@ == front + name + back,
        text::ascii_lower(name) == types::language_name(language),
    ensures
        r == Ok::<Language, install::InstallError>(language),
{
    laws::churn::lemma_trimmed(front, name, back);
    laws::text::law_languages_answer_to_their_names(language);
    reveal_strlit("jsx");
    reveal_strlit("python");
    reveal_strlit("go");
    reveal_strlit("java");
    reveal_strlit("rust");
    reveal_strlit("typescript");
    reveal_strlit("tsx");
    reveal_strlit("javascript");
    reveal_strlit("swift");
    reveal_strlit("objc");
    reveal_strlit("objcpp");
    reveal_strlit("c");
    reveal_strlit("cpp");
    reveal_strlit("php");
    reveal_strlit("vue");
    let j = "jsx"@;
    assert(j.len() == 3 && j[0] == 'j');
    let n = types::language_name(language);
    assert(n.len() != 3 || n[0] != 'j');
}

} // verus!
