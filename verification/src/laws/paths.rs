//! Paths, and file URIs that stand for them.

use crate::lsp::uri;
use crate::lsp::uri::RepoRoot;
use crate::lsp::wire;
use crate::paths;
use crate::text;
use crate::types;
use crate::types::RelPath;
use vstd::prelude::*;

verus! {

/// Slashes part the names of a path: the names before one and then those behind
/// it. What is empty and single dots are no names.
pub proof fn law_slashes_part_names(a: Seq<char>, b: Seq<char>, name: Seq<char>)
    requires
        name.len() > 0,
        name != seq!['.'],
        !name.contains('/'),
    ensures
        paths::parts_of(a + seq!['/'] + b) == paths::parts_of(a) + paths::parts_of(b),
        paths::parts_of(name) == seq![name],
        paths::parts_of(Seq::empty()).len() == 0,
        paths::parts_of(seq!['.']).len() == 0,
{
    assert(a + seq!['/'] + b =~= a.push('/') + b);
    paths::lemma_parts_join(a, b);
    paths::lemma_single_part(name);
    paths::lemma_no_parts();
    let dot = seq!['.'];
    assert(!dot.contains('/'));
    paths::lemma_single_piece(dot);
    let alone = seq![dot];
    assert(alone.drop_last() =~= Seq::<Seq<char>>::empty());
    assert(alone.last() == dot);
    assert(paths::kept_parts(alone) == paths::kept_parts(alone.drop_last()));
    assert(paths::kept_parts(alone.drop_last()) =~= Seq::<Seq<char>>::empty());
}

/// The way to the parent.
pub open spec fn up() -> Seq<char> {
    seq!['.', '.']
}

pub(crate) proof fn lemma_folded_plain(a: Seq<Seq<char>>, b: Seq<Seq<char>>)
    requires
        forall|k: int| 0 <= k < b.len() ==> #[trigger] b[k] != up(),
    ensures
        paths::folded(a + b) == paths::folded(a) + b,
    decreases b.len(),
{
    if b.len() == 0 {
        assert(a + b =~= a);
        assert(paths::folded(a) + b =~= paths::folded(a));
    } else {
        let shorter = b.drop_last();
        assert forall|k: int| 0 <= k < shorter.len() implies #[trigger] shorter[k] != up() by {
            assert(shorter[k] == b[k]);
        }
        lemma_folded_plain(a, shorter);
        assert((a + b).drop_last() =~= a + shorter);
        assert((a + b).last() == b[b.len() - 1]);
        assert(paths::folded(a + b) =~= paths::folded(a) + b);
    }
}

/// A step up takes the name before it back; names without steps up stay as they
/// are; and a step up with nothing before it stays.
pub proof fn law_steps_up_take_names_back(a: Seq<Seq<char>>, name: Seq<char>, b: Seq<Seq<char>>)
    requires
        name != up(),
        forall|k: int| 0 <= k < b.len() ==> #[trigger] b[k] != up(),
    ensures
        paths::folded(a + seq![name, up()]) == paths::folded(a),
        paths::folded(a + b) == paths::folded(a) + b,
        paths::folded(seq![up()]) == seq![up()],
        paths::folded(Seq::empty()).len() == 0,
{
    let whole = a + seq![name, up()];
    assert(whole.drop_last() =~= a.push(name));
    assert(whole.last() == up());
    assert(a.push(name).drop_last() =~= a);
    assert(paths::folded(a.push(name)) == paths::folded(a).push(name));
    assert(paths::folded(whole) == paths::folded(a).push(name).drop_last());
    assert(paths::folded(a).push(name).drop_last() =~= paths::folded(a));
    lemma_folded_plain(a, b);
    let one = seq![up()];
    assert(one.drop_last() =~= Seq::<Seq<char>>::empty());
    assert(paths::folded(one.drop_last()) =~= Seq::<Seq<char>>::empty());
    assert(Seq::<Seq<char>>::empty().push(up()) =~= one);
}

/// Steps up stand at the start only.
pub open spec fn settled(parts: Seq<Seq<char>>) -> bool {
    forall|k: int| 0 < k < parts.len() ==> #[trigger] parts[k] != up()
}

pub(crate) proof fn lemma_folded_settles(parts: Seq<Seq<char>>)
    ensures
        settled(paths::folded(parts)),
        settled(parts) ==> paths::folded(parts) == parts,
    decreases parts.len(),
{
    if parts.len() > 0 {
        let shorter = parts.drop_last();
        lemma_folded_settles(shorter);
        let before = paths::folded(shorter);
        let all = paths::folded(parts);
        assert forall|k: int| 0 < k < all.len() implies #[trigger] all[k] != up() by {
            if k < before.len() {
                assert(all[k] == before[k]);
            }
        }
        if settled(parts) {
            assert forall|k: int| 0 < k < shorter.len() implies #[trigger] shorter[k] != up() by {
                assert(shorter[k] == parts[k]);
            }
            assert(before == shorter);
            if shorter.len() > 0 {
                assert(parts[parts.len() - 1] != up());
            }
            assert(shorter.push(parts.last()) =~= parts);
        }
    }
}

/// Every one of them is a name.
pub open spec fn are_parts(parts: Seq<Seq<char>>) -> bool {
    forall|k: int| 0 <= k < parts.len() ==> paths::is_part(#[trigger] parts[k])
}

pub(crate) proof fn lemma_joined(parts: Seq<Seq<char>>)
    requires
        are_parts(parts),
    ensures
        paths::parts_of(paths::joined(parts)) == parts,
        parts.len() > 0 ==> text::pieces(paths::joined(parts), '/') == parts,
        parts.len() > 0 ==> paths::joined(parts).len() > 0 && paths::joined(parts)[0] != '/',
    decreases parts.len(),
{
    if parts.len() == 0 {
        paths::lemma_no_parts();
        assert(parts =~= Seq::<Seq<char>>::empty());
    } else {
        let last = parts.last();
        assert(paths::is_part(parts[parts.len() - 1]));
        paths::lemma_single_part(last);
        paths::lemma_single_piece(last);
        if parts.len() == 1 {
            assert(parts =~= seq![last]);
            assert(last.contains(last[0]));
        } else {
            let shorter = parts.drop_last();
            assert forall|k: int| 0 <= k < shorter.len() implies paths::is_part(
                #[trigger] shorter[k],
            ) by {
                assert(shorter[k] == parts[k]);
            }
            lemma_joined(shorter);
            paths::lemma_parts_join(paths::joined(shorter), last);
            paths::lemma_pieces_join(paths::joined(shorter), last);
            assert(shorter + seq![last] =~= parts);
            assert(paths::joined(parts)[0] == paths::joined(shorter)[0]);
        }
    }
}

proof fn lemma_folded_are_parts(parts: Seq<Seq<char>>)
    requires
        are_parts(parts),
    ensures
        are_parts(paths::folded(parts)),
    decreases parts.len(),
{
    if parts.len() > 0 {
        let shorter = parts.drop_last();
        assert forall|k: int| 0 <= k < shorter.len() implies paths::is_part(
            #[trigger] shorter[k],
        ) by {
            assert(shorter[k] == parts[k]);
        }
        assert(paths::is_part(parts[parts.len() - 1]));
        lemma_folded_are_parts(shorter);
    }
}

pub(crate) proof fn lemma_parts_are(path: Seq<char>)
    ensures
        are_parts(paths::parts_of(path)),
        are_parts(paths::normal_parts(path)),
{
    assert forall|k: int| 0 <= k < paths::parts_of(path).len() implies paths::is_part(
        #[trigger] paths::parts_of(path)[k],
    ) by {
        paths::lemma_parts_are_parts(path, k);
    }
    lemma_folded_are_parts(paths::parts_of(path));
}

pub(crate) proof fn lemma_path_text(absolute: bool, parts: Seq<Seq<char>>)
    requires
        are_parts(parts),
    ensures
        paths::parts_of(paths::path_text(absolute, parts)) == parts,
        parts.len() > 0 ==> paths::is_absolute(paths::path_text(absolute, parts)) == absolute,
        absolute ==> paths::is_absolute(paths::path_text(absolute, parts)),
{
    lemma_joined(parts);
    if absolute {
        let shown = paths::joined(parts);
        paths::lemma_no_parts();
        paths::lemma_parts_join(Seq::empty(), shown);
        assert(Seq::<char>::empty().push('/') + shown =~= seq!['/'] + shown);
        assert(Seq::<Seq<char>>::empty() + parts =~= parts);
    }
}

/// Normalising a path leaves the names that steps up do not take back, and starts
/// where the path starts. Doing it once more changes nothing.
pub proof fn law_normal_paths_stay(path: &[char], out: Vec<char>, same: &[char], again: Vec<char>)
    requires
        call_ensures(paths::lexical_normalize, (path,), out),
        same@ == out@,
        call_ensures(paths::lexical_normalize, (same,), again),
    ensures
        paths::parts_of(out@) == paths::folded(paths::parts_of(path@)),
        path@.len() > 0 && path@[0] == '/' ==> out@.len() > 0 && out@[0] == '/',
        out@.len() > 0 && out@[0] == '/' ==> path@[0] == '/',
        again@ == out@,
{
    let parts = paths::normal_parts(path@);
    let absolute = paths::is_absolute(path@);
    lemma_parts_are(path@);
    lemma_path_text(absolute, parts);
    lemma_folded_settles(paths::parts_of(path@));
    lemma_folded_settles(parts);
    if parts.len() == 0 && !absolute {
        assert(out@ =~= Seq::<char>::empty());
    }
}

/// A path below another has the names of the one and then those of the other,
/// unless it starts at the root: then it stands alone.
pub proof fn law_joined_paths_have_both_names(base: &str, part: &str, out: String)
    requires
        call_ensures(paths::join, (base, part), out),
    ensures
        part@.len() > 0 && part@[0] == '/' ==> out@ == part@,
        part@.len() == 0 || part@[0] != '/' ==> paths::parts_of(out@) == paths::parts_of(base@)
            + paths::parts_of(part@),
        base@.len() > 0 && base@[0] == '/' ==> out@.len() > 0 && out@[0] == '/',
{
    if !paths::is_absolute(part@) {
        paths::lemma_parts_below(base@, part@);
    }
}

/// On Windows a path with a drive, and one on another machine, stands alone; one
/// that starts at the root stays on the drive of the base; any other goes below it.
pub proof fn law_windows_paths_keep_their_drive(
    base: &str,
    part: &str,
    out: String,
    plain: String,
    same: String,
)
    requires
        call_ensures(paths::join_on, (base, part, true), out),
        call_ensures(paths::join_on, (base, part, false), plain),
        call_ensures(paths::join, (base, part), same),
        !base@.contains('\\'),
        !part@.contains('\\'),
        base@.len() > 2 && 'A' <= base@[0] <= 'Z' && base@[1] == ':' && base@[2] == '/',
    ensures
        plain@ == same@,
        part@.len() >= 2 && 'A' <= part@[0] <= 'Z' && part@[1] == ':' ==> out@ == part@,
        part@.len() >= 2 && part@[0] == '/' && part@[1] == '/' ==> out@ == part@,
        part@.len() >= 2 && part@[0] == '/' && part@[1] != '/' ==> out@ == base@.take(2) + part@,
        part@.len() >= 2 && part@[0] != '/' && part@[1] != ':' ==> out@ == same@,
{
    wire::lemma_forward_already(base@);
    wire::lemma_forward_already(part@);
    if part@.len() >= 2 {
        assert(paths::has_drive(part@) ==> part@[1] == ':');
        assert(part@.take(2).len() == 2);
    }
    assert(paths::drive_text(base@, true) == base@.take(2));
}

/// Backslashes become slashes, and nothing else changes.
pub proof fn law_backslashes_become_slashes(path: &[char], out: Vec<char>, k: int)
    requires
        call_ensures(paths::to_forward, (path,), out),
        0 <= k < path@.len(),
    ensures
        out@.len() == path@.len(),
        path@[k] == '\\' ==> out@[k] == '/',
        path@[k] != '\\' ==> out@[k] == path@[k],
{
}

/// On Windows a path is full where it starts with a drive and a root, or on another
/// machine; elsewhere where it starts at the root.
pub proof fn law_full_paths_say_where_they_lead(path: &[char], windows: bool, r: bool)
    requires
        call_ensures(paths::is_full_path, (path, windows), r),
    ensures
        !windows ==> (r <==> path@.len() > 0 && path@[0] == '/'),
        windows && path@.len() >= 3 && 'A' <= path@[0] <= 'Z' && path@[1] == ':' ==> (r
            <==> path@[2] == '/' || path@[2] == '\\'),
        windows && path@.len() >= 2 && (path@[0] == '/' || path@[0] == '\\') ==> (r <==> path@[1]
            == '/' || path@[1] == '\\'),
        windows && path@.len() < 2 ==> !r,
{
    if windows {
        let p = paths::forward(path@);
        assert(p.len() == path@.len());
        if path@.len() >= 3 {
            assert(p[2] == '/' <==> path@[2] == '/' || path@[2] == '\\');
            assert(p[0] == path@[0] || path@[0] == '\\');
            assert(p[1] == path@[1] || path@[1] == '\\');
            if paths::has_drive(p) {
                assert(paths::drive_text(path@, windows).len() == 2);
                assert(paths::behind_drive(path@, windows)[0] == p[2]);
            }
        }
    }
}

// -------------------------------------------------------------------- roots

pub(crate) proof fn lemma_plain(path: Seq<char>)
    ensures
        paths::starts_at_root(path, false) == paths::is_absolute(path),
        paths::normal_parts_on(path, false) == paths::normal_parts(path),
        paths::parts_on(path, false) == paths::parts_of(path),
        paths::normalized_on(path, false) == paths::normalized(path),
        paths::behind_drive(path, false) == path,
{
    assert(paths::behind_drive(path, false) =~= path);
    assert(paths::drive_part(path, false) =~= Seq::<Seq<char>>::empty());
    assert(Seq::<Seq<char>>::empty() + paths::normal_parts(path) =~= paths::normal_parts(path));
    assert(Seq::<Seq<char>>::empty() + paths::parts_of(path) =~= paths::parts_of(path));
    assert(paths::drive_text(path, false) + paths::normalized(path) =~= paths::normalized(path));
}

proof fn lemma_no_backslash(parts: Seq<Seq<char>>)
    requires
        forall|k: int| 0 <= k < parts.len() ==> !(#[trigger] parts[k]).contains('\\'),
    ensures
        !paths::joined(parts).contains('\\'),
    decreases parts.len(),
{
    if parts.len() > 1 {
        let shorter = parts.drop_last();
        assert forall|k: int| 0 <= k < shorter.len() implies !(#[trigger] shorter[k]).contains(
            '\\',
        ) by {
            assert(shorter[k] == parts[k]);
        }
        lemma_no_backslash(shorter);
        let whole = paths::joined(parts);
        let front = paths::joined(shorter);
        let last = parts[parts.len() - 1];
        if whole.contains('\\') {
            let i = choose|i: int| 0 <= i < whole.len() && whole[i] == '\\';
            if i < front.len() {
                assert(front.contains(front[i]));
            } else if i > front.len() {
                assert(last.contains(last[i - front.len() - 1]));
            }
        }
    } else if parts.len() == 1 {
        assert(!parts[0].contains('\\'));
    }
}

proof fn lemma_rel_of(rest: Seq<Seq<char>>)
    requires
        are_parts(rest),
        rest.len() > 0,
        !paths::climbs(rest),
        forall|k: int| 0 <= k < rest.len() ==> !(#[trigger] rest[k]).contains('\\'),
    ensures
        uri::rel_of(paths::joined(rest)) == Some(paths::joined(rest)),
{
    lemma_joined(rest);
    lemma_no_backslash(rest);
    wire::lemma_forward_already(paths::joined(rest));
}

/// An absolute path lies in a repository exactly where the names of the root, steps
/// up taken back, are the first of its own, more follow, and none of those climbs:
/// what follows is its path there. This goes where the file system knows the root
/// by no other name.
pub proof fn law_paths_below_the_root_are_its_own(
    abs: &[char],
    root: &RepoRoot,
    r: Option<RelPath>,
    rest: Seq<Seq<char>>,
)
    requires
        call_ensures(uri::rel_under_root, (abs, root), r),
        !root.windows,
        root.canonical is None,
        root.text@.len() > 0 && root.text@[0] == '/',
        abs@.len() > 0 && abs@[0] == '/',
        are_parts(rest),
        rest.len() > 0,
        forall|k: int|
            0 <= k < rest.len() ==> (#[trigger] rest[k]) != up() && !rest[k].contains('\\'),
    ensures
        paths::folded(paths::parts_of(abs@)) == paths::folded(paths::parts_of(root.text@)) + rest
            ==> (r matches Some(p) && p@ == paths::joined(rest)),
        !paths::folded(paths::parts_of(root.text@)).is_prefix_of(
            paths::folded(paths::parts_of(abs@)),
        ) ==> r is None,
        paths::folded(paths::parts_of(root.text@)) == paths::folded(paths::parts_of(abs@)) ==> r
            is None,
{
    lemma_plain(abs@);
    lemma_plain(root.text@);
    let parts = paths::normal_parts(abs@);
    let base = paths::normal_parts(root.text@);
    if parts == base + rest {
        assert(parts.skip(base.len() as int) =~= rest);
        assert(parts.subrange(0, base.len() as int) =~= base);
        assert(!paths::climbs(rest));
        lemma_joined(rest);
        lemma_rel_of(rest);
    }
    if parts == base {
        assert(parts.skip(base.len() as int) =~= Seq::<Seq<char>>::empty());
    }
}

proof fn lemma_before(s: Seq<char>, c: char)
    requires
        !s.contains(c),
    ensures
        uri::before(s, c) == s,
    decreases s.len(),
{
    if s.len() > 0 {
        assert(s.contains(s[0]));
        let rest = s.drop_first();
        assert(!rest.contains(c)) by {
            if rest.contains(c) {
                let k = choose|k: int| 0 <= k < rest.len() && rest[k] == c;
                assert(s[k + 1] == c);
            }
        }
        lemma_before(rest, c);
        assert(seq![s[0]] + rest =~= s);
    } else {
        assert(s =~= Seq::<char>::empty());
    }
}

proof fn lemma_escaped_chars(bytes: Seq<u8>)
    ensures
        !wire::escaped(bytes).contains('#'),
        !wire::escaped(bytes).contains('?'),
    decreases bytes.len(),
{
    if bytes.len() > 0 {
        lemma_escaped_chars(bytes.drop_last());
        let before = wire::escaped(bytes.drop_last());
        let all = wire::escaped(bytes);
        assert forall|k: int| 0 <= k < all.len() implies #[trigger] all[k] != '#' && all[k]
            != '?' by {
            if k < before.len() {
                assert(all[k] == before[k]);
                assert(before.contains(before[k]));
            }
        }
    }
}

proof fn lemma_unescaped(bytes: Seq<u8>)
    ensures
        uri::unescaped(vstd::utf8::encode_utf8(wire::escaped(bytes))) == Some(bytes),
    decreases bytes.len(),
{
    if bytes.len() == 0 {
        assert(wire::escaped(bytes) =~= Seq::<char>::empty());
        assert(vstd::utf8::encode_utf8(wire::escaped(bytes)) =~= Seq::<u8>::empty());
        assert(bytes =~= Seq::<u8>::empty());
    } else {
        let b = bytes[0];
        let rest = bytes.drop_first();
        wire::lemma_escaped_front(bytes);
        lemma_unescaped(rest);
        let shown = wire::escaped(rest);
        let tail = vstd::utf8::encode_utf8(shown);
        if wire::plain_byte(b) {
            wire::lemma_encode_ascii(b as char, shown);
            let whole = seq![b] + tail;
            assert(whole.drop_first() =~= tail);
        } else {
            let h = wire::hex_digit(b / 16);
            let l = wire::hex_digit(b % 16);
            let two = seq![l] + shown;
            let three = seq![h] + two;
            assert(wire::byte_shown(b) + shown =~= seq!['%'] + three);
            wire::lemma_encode_ascii(l, shown);
            wire::lemma_encode_ascii(h, two);
            wire::lemma_encode_ascii('%', three);
            let whole = seq![37u8] + (seq![h as u8] + (seq![l as u8] + tail));
            assert(vstd::utf8::encode_utf8(wire::escaped(bytes)) =~= whole);
            assert(whole[1] == h as u8 && whole[2] == l as u8);
            assert(uri::hex_value(h as u8) == Some((b / 16) as u8));
            assert(uri::hex_value(l as u8) == Some((b % 16) as u8));
            assert(whole.skip(3) =~= tail);
        }
        assert(seq![b] + rest =~= bytes);
    }
}

/// The file URI of an absolute path stands for that path, steps up taken back.
pub proof fn law_file_uris_stand_for_paths(
    path: &str,
    cwd: &str,
    shown: String,
    given: &[char],
    r: Option<Vec<char>>,
)
    requires
        path@.len() > 1 && path@[0] == '/' && path@[1] != '/',
        !path@.contains('\\'),
        call_ensures(wire::path_to_file_uri, (path, cwd, false), shown),
        given@ == shown@,
        call_ensures(uri::file_uri_to_path, (given, false), r),
    ensures
        r matches Some(t) && t@ == paths::normalized(path@),
{
    lemma_uri_text(path@, cwd@);
}

/// A server that sends back the URI of a file is taken to speak of that file: the
/// URI of an absolute path and the path itself lead to the same place in a
/// repository. This goes where the file system knows the root by no other name.
pub proof fn law_uris_lead_where_their_paths_lead(
    path: &str,
    cwd: &str,
    shown: String,
    given: &str,
    root: &RepoRoot,
    a: Option<RelPath>,
    b: Option<RelPath>,
)
    requires
        path@.len() > 1 && path@[0] == '/' && path@[1] != '/',
        !path@.contains('\\'),
        !root.windows,
        root.canonical is None,
        call_ensures(wire::path_to_file_uri, (path, cwd, false), shown),
        given@ == shown@,
        call_ensures(uri::lsp_path_to_rel, (given, root), a),
        call_ensures(uri::lsp_path_to_rel, (path, root), b),
    ensures
        a is Some <==> b is Some,
        a is Some ==> a.unwrap()@ == b.unwrap()@,
{
    lemma_uri_path(path, cwd, shown, given);
    lemma_same_place(path@, *root);
    reveal_strlit("file:");
    wire::lemma_forward_already(path@);
    assert(text::ascii_lower(path@.take(5))[0] == '/' || path@.len() < 5);
    assert(!uri::is_file_uri(path@));
}

proof fn lemma_uri_path(path: &str, cwd: &str, shown: String, given: &str)
    requires
        path@.len() > 1 && path@[0] == '/' && path@[1] != '/',
        !path@.contains('\\'),
        shown@ == wire::file_uri_of(path@, cwd@, false),
        given@ == shown@,
    ensures
        uri::is_file_uri(given@),
        uri::uri_path(given@, false) == Some(paths::normalized(path@)),
{
    lemma_uri_text(path@, cwd@);
}

proof fn lemma_uri_text(path: Seq<char>, cwd: Seq<char>)
    requires
        path.len() > 1 && path[0] == '/' && path[1] != '/',
        !path.contains('\\'),
    ensures
        uri::is_file_uri(wire::file_uri_of(path, cwd, false)),
        uri::uri_path(wire::file_uri_of(path, cwd, false), false) == Some(
            paths::normalized(path),
        ),
{
    broadcast use {vstd::utf8::encode_utf8_valid_utf8, vstd::utf8::encode_utf8_decode_utf8};

    reveal_strlit("file://");
    reveal_strlit("file:");
    reveal_strlit("//");
    wire::lemma_forward_already(path);
    let bytes = vstd::utf8::encode_utf8(path);
    let inner = wire::escaped(bytes);
    let whole = "file://"@ + inner;
    assert(wire::file_uri_of(path, cwd, false) == whole);
    assert(whole.take(5) =~= "file:"@);
    assert(text::ascii_lower("file:"@) =~= "file:"@);
    let rest = whole.skip(5);
    assert(rest =~= seq!['/'] + (seq!['/'] + inner));
    lemma_escaped_chars(bytes);
    assert forall|k: int| 0 <= k < rest.len() implies #[trigger] rest[k] != '#' && rest[k]
        != '?' by {
        if k >= 2 {
            assert(rest[k] == inner[k - 2]);
            assert(inner.contains(inner[k - 2]));
        }
    }
    lemma_before(rest, '#');
    lemma_before(rest, '?');
    wire::lemma_encode_ascii('/', inner);
    wire::lemma_encode_ascii('/', seq!['/'] + inner);
    wire::lemma_encode_ascii('/', path);
    wire::lemma_encode_ascii('/', seq!['/'] + path);
    lemma_unescaped(bytes);
    let tail = vstd::utf8::encode_utf8(inner);
    let one = seq![47u8] + tail;
    let two = seq![47u8] + one;
    assert(one.drop_first() =~= tail);
    assert(two.drop_first() =~= one);
    assert(uri::unescaped(one) == Some(seq![47u8] + bytes));
    assert(uri::unescaped(two) == Some(seq![47u8] + (seq![47u8] + bytes)));
    let decoded = seq!['/'] + (seq!['/'] + path);
    assert(vstd::utf8::encode_utf8(decoded) == seq![47u8] + (seq![47u8] + bytes));
    assert(uri::percent_decoded(rest) == Some(decoded));
    assert(decoded.subrange(0, 2) =~= "//"@);
    assert(decoded.skip(2) =~= path);
    assert(uri::before(path, '/') =~= Seq::<char>::empty());
    assert(path.skip(0) =~= path);
    lemma_plain(path);
}

proof fn lemma_same_place(path: Seq<char>, root: RepoRoot)
    requires
        paths::is_absolute(path),
        !root.windows,
        root.canonical is None,
    ensures
        uri::rel_below(paths::normalized(path), root) == uri::rel_below(path, root),
{
    let plain = paths::normalized(path);
    lemma_plain(path);
    lemma_plain(plain);
    lemma_parts_are(path);
    lemma_path_text(true, paths::normal_parts(path));
    lemma_folded_settles(paths::parts_of(path));
    lemma_folded_settles(paths::normal_parts(path));
}

proof fn lemma_before_first(a: Seq<char>, c: char, b: Seq<char>)
    requires
        !a.contains(c),
    ensures
        uri::before(a.push(c) + b, c) == a,
    decreases a.len(),
{
    let whole = a.push(c) + b;
    if a.len() > 0 {
        assert(a.contains(a[0]));
        assert(whole[0] == a[0]);
        let rest = a.drop_first();
        assert(!rest.contains(c)) by {
            if rest.contains(c) {
                let k = choose|k: int| 0 <= k < rest.len() && rest[k] == c;
                assert(a[k + 1] == c);
            }
        }
        assert(whole.drop_first() =~= rest.push(c) + b);
        lemma_before_first(rest, c, b);
        assert(seq![a[0]] + rest =~= a);
    } else {
        assert(whole[0] == c);
        assert(a =~= Seq::<char>::empty());
    }
}

/// What follows a number sign or a question mark in a URI is no part of the path.
pub proof fn law_fragments_and_queries_are_cut_off(
    plain: &[char],
    marked: &[char],
    mark: char,
    tail: Seq<char>,
    windows: bool,
    a: Option<Vec<char>>,
    b: Option<Vec<char>>,
)
    requires
        call_ensures(uri::file_uri_to_path, (plain, windows), a),
        call_ensures(uri::file_uri_to_path, (marked, windows), b),
        mark == '#' || mark == '?',
        plain@.len() >= 5,
        !plain@.contains('#'),
        !plain@.contains('?'),
        marked@ == plain@ + seq![mark] + tail,
        mark == '?' ==> !tail.contains('#'),
    ensures
        a is Some <==> b is Some,
        a is Some ==> a.unwrap()@ == b.unwrap()@,
{
    let p = plain@.skip(5);
    let q = marked@.skip(5);
    assert(plain@.take(5) =~= marked@.take(5));
    assert(q =~= p.push(mark) + tail);
    assert forall|k: int| 0 <= k < p.len() implies #[trigger] p[k] != '#' && p[k] != '?' by {
        assert(p[k] == plain@[k + 5]);
        assert(plain@.contains(plain@[k + 5]));
    }
    lemma_before(p, '#');
    lemma_before(p, '?');
    lemma_before_first(p, mark, tail);
    if mark == '?' {
        assert(!q.contains('#')) by {
            if q.contains('#') {
                let k = choose|k: int| 0 <= k < q.len() && q[k] == '#';
                if k < p.len() {
                    assert(q[k] == p[k]);
                } else if k > p.len() {
                    assert(q[k] == tail[k - p.len() - 1]);
                    assert(tail.contains('#'));
                }
            }
        }
        lemma_before(q, '#');
    }
}

/// A decoded URI leads to a path of this machine where it names no host, an empty
/// one or `localhost`, and nowhere where it names another.
pub proof fn law_other_hosts_have_no_local_paths(host: Seq<char>, path: Seq<char>, windows: bool)
    requires
        !host.contains('/'),
        path.len() > 0 && path[0] == '/',
    ensures
        host.len() == 0 || text::ascii_lower(host) == "localhost"@ ==> uri::local_path(
            seq!['/', '/'] + host + path,
            windows,
        ) == Some(
            paths::normalized_on(uri::without_drive_slash(path, windows), windows),
        ),
        host.len() > 0 && text::ascii_lower(host) != "localhost"@ ==> uri::local_path(
            seq!['/', '/'] + host + path,
            windows,
        ) is None,
        path.len() == 1 || path[1] != '/' ==> uri::local_path(path, windows) == Some(
            paths::normalized_on(uri::without_drive_slash(path, windows), windows),
        ),
{
    reveal_strlit("//");
    assert("//"@ =~= seq!['/', '/']);
    let whole = seq!['/', '/'] + host + path;
    assert(whole.subrange(0, 2) =~= "//"@);
    let rest = whole.skip(2);
    assert(rest =~= host.push('/') + path.drop_first());
    lemma_before_first(host, '/', path.drop_first());
    assert(rest.skip(host.len() as int) =~= path);
    if path.len() == 1 || path[1] != '/' {
        if "//"@.is_prefix_of(path) {
            assert(path.subrange(0, 2)[1] == path[1]);
            assert("//"@[1] == '/');
        }
    }
}

/// A relative path is one of the repository as it is, unless it climbs, or begins
/// with the names of the root: then what follows them is.
pub proof fn law_relative_paths_are_their_own(path: &str, root: &RepoRoot, r: Option<RelPath>)
    requires
        call_ensures(uri::lsp_path_to_rel, (path, root), r),
        !root.windows,
        path@.len() > 0 && path@[0] != '/',
        !path@.contains('\\'),
        !uri::is_file_uri(path@),
    ensures
        r is None ==> exists|k: int|
            0 <= k < text::pieces(path@, '/').len() && #[trigger] text::pieces(path@, '/')[k]
                == up(),
        r matches Some(p) ==> p@ == path@ || exists|front: Seq<char>|
            path@ == #[trigger] front.push('/') + p@ && front.len() > 0,
{
    wire::lemma_forward_already(path@);
    let dir = paths::without_slashes(
        paths::forward(paths::normalized_on(root.text@, root.windows)),
    );
    assert(paths::without_slashes(path@) == path@);
    if let Some(rel) = uri::rel_by_text(path@, root.text@, root.windows) {
        let rest = path@.skip(dir.len() as int);
        let tail = paths::without_slashes(rest);
        let cut = lemma_without_slashes(rest);
        lemma_no_slash(rest);
        let at = dir.len() + cut;
        let front = path@.take(at - 1);
        assert(cut > 0);
        assert(rest[cut - 1] == '/');
        assert(path@[at - 1] == '/');
        assert(path@ =~= front.push('/') + tail);
        assert(types::rel_text(tail) == tail);
    }
}

proof fn lemma_without_slashes(s: Seq<char>) -> (n: int)
    ensures
        0 <= n <= s.len(),
        paths::without_slashes(s) == s.skip(n),
        forall|k: int| 0 <= k < n ==> #[trigger] s[k] == '/',
        s.len() > 0 && s[0] == '/' ==> n > 0,
    decreases s.len(),
{
    if s.len() > 0 && s[0] == '/' {
        let n = lemma_without_slashes(s.drop_first());
        assert(s.skip(n + 1) =~= s.drop_first().skip(n));
        assert forall|k: int| 0 <= k < n + 1 implies #[trigger] s[k] == '/' by {
            if k > 0 {
                assert(s[k] == s.drop_first()[k - 1]);
            }
        }
        n + 1
    } else {
        assert(s.skip(0) =~= s);
        0
    }
}

proof fn lemma_no_slash(s: Seq<char>)
    ensures
        !paths::is_absolute(paths::without_slashes(s)),
    decreases s.len(),
{
    if s.len() > 0 && s[0] == '/' {
        lemma_no_slash(s.drop_first());
    }
}

} // verus!
