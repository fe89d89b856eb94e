//! Paths with slashes, taken apart and put together as text.

use crate::text;
use vstd::prelude::*;

verus! {

/// The parts of a path: what stands between slashes, empty parts and single
/// dots left out.
pub open spec fn parts_of(path: Seq<char>) -> Seq<Seq<char>> {
    kept_parts(text::pieces(path, '/'))
}

/// The pieces that are neither empty nor a single dot.
pub open spec fn kept_parts(parts: Seq<Seq<char>>) -> Seq<Seq<char>>
    decreases parts.len(),
{
    if parts.len() == 0 {
        Seq::empty()
    } else {
        let before = kept_parts(parts.drop_last());
        if parts.last().len() == 0 || parts.last() == seq!['.'] {
            before
        } else {
            before.push(parts.last())
        }
    }
}

/// A path that starts at the root.
pub open spec fn is_absolute(path: Seq<char>) -> bool {
    path.len() > 0 && path[0] == '/'
}

/// Parts joined by slashes.
pub open spec fn joined(parts: Seq<Seq<char>>) -> Seq<char>
    decreases parts.len(),
{
    if parts.len() == 0 {
        Seq::empty()
    } else if parts.len() == 1 {
        parts[0]
    } else {
        joined(parts.drop_last()).push('/') + parts.last()
    }
}

/// The text of a path.
pub open spec fn path_text(absolute: bool, parts: Seq<Seq<char>>) -> Seq<char> {
    if absolute {
        seq!['/'] + joined(parts)
    } else {
        joined(parts)
    }
}

/// Parts with every `..` taking away the part before it; one with nothing
/// before it stays.
pub open spec fn folded(parts: Seq<Seq<char>>) -> Seq<Seq<char>>
    decreases parts.len(),
{
    if parts.len() == 0 {
        Seq::empty()
    } else {
        let before = folded(parts.drop_last());
        if parts.last() == seq!['.', '.'] && before.len() > 0 {
            before.drop_last()
        } else {
            before.push(parts.last())
        }
    }
}

/// The parts of a path after `.` and `..` are taken out of it.
pub open spec fn normal_parts(path: Seq<char>) -> Seq<Seq<char>> {
    folded(parts_of(path))
}

/// A path with `.` and `..` taken out of it, without looking at a disk.
pub open spec fn normalized(path: Seq<char>) -> Seq<char> {
    path_text(is_absolute(path), normal_parts(path))
}

/// The parts of a path.
pub fn components(path: &[char]) -> (out: Vec<Vec<char>>)
    ensures
        text::rows(out@) == parts_of(path@),
{
    let all = text::split_on(path, '/');
    let ghost given = text::rows(all@);
    let mut out: Vec<Vec<char>> = Vec::new();
    let mut i: usize = 0;
    assert(text::rows(out@) =~= kept_parts(given.take(0)));
    while i < all.len()
        invariant
            i <= all@.len(),
            given == text::rows(all@),
            text::rows(out@) == kept_parts(given.take(i as int)),
        decreases all.len() - i,
    {
        let ghost was = text::rows(out@);
        let part = &all[i];
        assert(given[i as int] == part@);
        assert(given.take(i as int + 1).drop_last() =~= given.take(i as int));
        let dot = part.len() == 1 && part[0] == '.';
        assert(dot == (part@ == seq!['.'])) by {
            if dot {
                assert(part@ =~= seq!['.']);
            }
            if part@ == seq!['.'] {
                assert(part@[0] == '.');
            }
        }
        if part.len() > 0 && !dot {
            let copy = text::slice_of(part, 0, part.len());
            assert(copy@ =~= part@);
            out.push(copy);
            assert(text::rows(out@) =~= was.push(part@));
        }
        i = i + 1;
    }
    assert(given.take(given.len() as int) =~= given);
    out
}

/// Takes `..` out of parts.
pub fn fold_parts(parts: &Vec<Vec<char>>) -> (out: Vec<Vec<char>>)
    ensures
        text::rows(out@) == folded(text::rows(parts@)),
{
    let ghost given = text::rows(parts@);
    let mut out: Vec<Vec<char>> = Vec::new();
    let mut i: usize = 0;
    assert(text::rows(out@) =~= folded(given.take(0)));
    while i < parts.len()
        invariant
            i <= parts@.len(),
            given == text::rows(parts@),
            text::rows(out@) == folded(given.take(i as int)),
        decreases parts.len() - i,
    {
        let ghost was = text::rows(out@);
        let part = &parts[i];
        assert(given[i as int] == part@);
        assert(given.take(i as int + 1).drop_last() =~= given.take(i as int));
        if is_parent(part) && out.len() > 0 {
            out.pop();
            assert(text::rows(out@) =~= was.drop_last());
        } else {
            let copy = text::slice_of(part, 0, part.len());
            assert(copy@ =~= part@);
            out.push(copy);
            assert(text::rows(out@) =~= was.push(part@));
        }
        assert(was.len() == text::rows(out@).len() + 1 || was.len() + 1 == text::rows(out@).len());
        i = i + 1;
    }
    assert(given.take(given.len() as int) =~= given);
    out
}

/// Whether a part leads to the parent.
pub fn is_parent(part: &[char]) -> (r: bool)
    ensures
        r == (part@ == seq!['.', '.']),
{
    let r = part.len() == 2 && part[0] == '.' && part[1] == '.';
    proof {
        if r {
            assert(part@ =~= seq!['.', '.']);
        }
        if part@ == seq!['.', '.'] {
            assert(part@[0] == '.' && part@[1] == '.');
        }
    }
    r
}

/// The parts from `from` on, joined by slashes.
pub fn join_parts(parts: &Vec<Vec<char>>, from: usize) -> (out: Vec<char>)
    requires
        from <= parts@.len(),
    ensures
        out@ == joined(text::rows(parts@).skip(from as int)),
{
    let ghost given = text::rows(parts@).skip(from as int);
    let mut out: Vec<char> = Vec::new();
    let mut i: usize = from;
    assert(out@ =~= joined(given.take(0)));
    while i < parts.len()
        invariant
            from <= i <= parts@.len(),
            given == text::rows(parts@).skip(from as int),
            out@ == joined(given.take(i - from)),
        decreases parts.len() - i,
    {
        assert(given[i - from] == parts@[i as int]@);
        assert(given.take(i - from + 1).drop_last() =~= given.take(i - from));
        if i > from {
            out.push('/');
        } else {
            assert(given.take(1) =~= seq![given[0]]);
            assert(given.take(0) =~= Seq::<Seq<char>>::empty());
        }
        let mut part = text::slice_of(&parts[i], 0, parts[i].len());
        assert(part@ =~= given[i - from]);
        out.append(&mut part);
        assert(out@ =~= joined(given.take(i - from + 1)));
        i = i + 1;
    }
    assert(given.take(given.len() as int) =~= given);
    out
}

/// Takes `.` and `..` out of a path.
pub fn lexical_normalize(path: &[char]) -> (out: Vec<char>)
    ensures
        out@ == normalized(path@),
{
    let parts = fold_parts(&components(path));
    let mut body = join_parts(&parts, 0);
    assert(text::rows(parts@).skip(0) =~= text::rows(parts@));
    if path.len() > 0 && path[0] == '/' {
        let mut out: Vec<char> = Vec::new();
        out.push('/');
        out.append(&mut body);
        assert(out@ =~= seq!['/'] + joined(text::rows(parts@)));
        out
    } else {
        body
    }
}

/// One of the parts is `..`.
pub open spec fn climbs(parts: Seq<Seq<char>>) -> bool {
    exists|k: int| 0 <= k < parts.len() && #[trigger] parts[k] == seq!['.', '.']
}

/// Whether one of the parts from `from` on is `..`.
pub fn has_parent(parts: &Vec<Vec<char>>, from: usize) -> (r: bool)
    requires
        from <= parts@.len(),
    ensures
        r == climbs(text::rows(parts@).skip(from as int)),
{
    let ghost given = text::rows(parts@).skip(from as int);
    let mut i: usize = from;
    while i < parts.len()
        invariant
            from <= i <= parts@.len(),
            given == text::rows(parts@).skip(from as int),
            forall|k: int| 0 <= k < i - from ==> #[trigger] given[k] != seq!['.', '.'],
        decreases parts.len() - i,
    {
        assert(given[i - from] == parts@[i as int]@);
        if is_parent(&parts[i]) {
            return true;
        }
        i = i + 1;
    }
    false
}

/// `path` with its backslashes turned into slashes.
pub open spec fn forward(path: Seq<char>) -> Seq<char> {
    path.map_values(
        |c: char|
            if c == '\\' {
                '/'
            } else {
                c
            },
    )
}

/// Turns backslashes into slashes.
pub fn to_forward(path: &[char]) -> (out: Vec<char>)
    ensures
        out@ == forward(path@),
{
    let mut out: Vec<char> = Vec::new();
    let mut i: usize = 0;
    while i < path.len()
        invariant
            i <= path@.len(),
            out@ == forward(path@.take(i as int)),
        decreases path.len() - i,
    {
        if path[i] == '\\' {
            out.push('/');
        } else {
            out.push(path[i]);
        }
        assert(out@ =~= forward(path@.take(i as int + 1)));
        i = i + 1;
    }
    assert(path@.take(path@.len() as int) =~= path@);
    out
}

/// `path` with its slashes turned into backslashes.
pub open spec fn backward(path: Seq<char>) -> Seq<char> {
    path.map_values(
        |c: char|
            if c == '/' {
                '\\'
            } else {
                c
            },
    )
}

/// Turns slashes into backslashes.
pub fn to_backward(path: &[char]) -> (out: Vec<char>)
    ensures
        out@ == backward(path@),
{
    let mut out: Vec<char> = Vec::new();
    let mut i: usize = 0;
    while i < path.len()
        invariant
            i <= path@.len(),
            out@ == backward(path@.take(i as int)),
        decreases path.len() - i,
    {
        out.push(
            if path[i] == '/' {
                '\\'
            } else {
                path[i]
            },
        );
        i = i + 1;
        assert(out@ =~= backward(path@.take(i as int)));
    }
    assert(path@.take(path@.len() as int) =~= path@);
    out
}

/// `s` without slashes at its start.
pub open spec fn without_slashes(s: Seq<char>) -> Seq<char>
    decreases s.len(),
{
    if s.len() > 0 && s[0] == '/' {
        without_slashes(s.drop_first())
    } else {
        s
    }
}

/// Takes the slashes off the start.
pub fn strip_slashes(s: &[char]) -> (out: Vec<char>)
    ensures
        out@ == without_slashes(s@),
{
    let mut from: usize = 0;
    assert(s@.skip(0) =~= s@);
    while from < s.len() && s[from] == '/'
        invariant
            from <= s@.len(),
            without_slashes(s@) == without_slashes(s@.skip(from as int)),
        decreases s.len() - from,
    {
        assert(s@.skip(from as int).drop_first() =~= s@.skip(from as int + 1));
        from = from + 1;
    }
    let out = text::slice_of(s, from, s.len());
    assert(out@ =~= s@.skip(from as int));
    out
}

/// `part` below `base`: an absolute part stands alone.
pub open spec fn below(base: Seq<char>, part: Seq<char>) -> Seq<char> {
    if is_absolute(part) || base.len() == 0 {
        part
    } else if base.last() == '/' {
        base + part
    } else {
        base.push('/') + part
    }
}

/// The path of `part` below `base`.
pub fn join(base: &str, part: &str) -> (out: String)
    ensures
        out@ == below(base@, part@),
{
    let mut b = text::chars_of(base);
    let mut p = text::chars_of(part);
    if (p.len() > 0 && p[0] == '/') || b.len() == 0 {
        return text::string_of(&p);
    }
    if b[b.len() - 1] != '/' {
        b.push('/');
    }
    b.append(&mut p);
    text::string_of(&b)
}

/// The last character of a path says nothing: it is a slash, or a single dot
/// behind one.
pub open spec fn ends_idly(s: Seq<char>) -> bool {
    s.len() > 0 && (s.last() == '/' || (s.len() > 1 && s.last() == '.' && s[s.len() - 2] == '/'))
}

/// `s` up to the end of its last name.
pub open spec fn to_last_name(s: Seq<char>) -> Seq<char>
    decreases s.len(),
{
    if ends_idly(s) {
        to_last_name(s.drop_last())
    } else {
        s
    }
}

/// `s` from the start of its first name on.
pub open spec fn from_first_name(s: Seq<char>) -> Seq<char>
    decreases s.len(),
{
    if starts_idly(s) {
        from_first_name(s.drop_first())
    } else {
        s
    }
}

/// The first character of a path says nothing: it is a slash, or a single dot
/// before one or at the end.
pub open spec fn starts_idly(s: Seq<char>) -> bool {
    s.len() > 0 && (s[0] == '/' || (s[0] == '.' && (s.len() == 1 || s[1] == '/')))
}

/// How many characters stand before the first slash.
pub open spec fn name_length(s: Seq<char>) -> nat
    decreases s.len(),
{
    if s.len() == 0 || s[0] == '/' {
        0
    } else {
        1 + name_length(s.drop_first())
    }
}

/// What stands behind the first `n` names of `s`, from the next name on, as it is
/// written.
pub open spec fn after_names(s: Seq<char>, n: nat) -> Seq<char>
    decreases n,
{
    let t = from_first_name(s);
    if n == 0 {
        t
    } else {
        after_names(t.skip(name_length(t) as int), (n - 1) as nat)
    }
}

/// Cuts off what stands behind the last name.
pub fn cut_to_last_name(s: &[char]) -> (out: Vec<char>)
    ensures
        out@ == to_last_name(s@),
{
    let mut to: usize = s.len();
    assert(s@.take(to as int) =~= s@);
    while to > 0 && (s[to - 1] == '/' || (to > 1 && s[to - 1] == '.' && s[to - 2] == '/'))
        invariant
            to <= s@.len(),
            to_last_name(s@) == to_last_name(s@.take(to as int)),
        decreases to,
    {
        assert(s@.take(to as int).drop_last() =~= s@.take(to as int - 1));
        to = to - 1;
    }
    let out = text::slice_of(s, 0, to);
    assert(out@ =~= s@.take(to as int));
    out
}

/// What stands behind the first `n` names.
pub fn skip_names(s: &[char], n: usize) -> (out: Vec<char>)
    ensures
        out@ == after_names(s@, n as nat),
{
    let mut at: usize = 0;
    let mut k: usize = 0;
    assert(s@.skip(0) =~= s@);
    loop
        invariant
            at <= s@.len(),
            k <= n,
            after_names(s@, n as nat) == after_names(s@.skip(at as int), (n - k) as nat),
        decreases n - k,
    {
        let ghost rest = s@.skip(at as int);
        while at < s.len() && (s[at] == '/' || (s[at] == '.' && (at + 1 == s.len() || s[at + 1]
            == '/')))
            invariant
                at <= s@.len(),
                from_first_name(rest) == from_first_name(s@.skip(at as int)),
            decreases s.len() - at,
        {
            assert(s@.skip(at as int).drop_first() =~= s@.skip(at as int + 1));
            at = at + 1;
        }
        let ghost t = s@.skip(at as int);
        assert(from_first_name(rest) == t);
        if k == n {
            let out = text::slice_of(s, at, s.len());
            assert(out@ =~= t);
            return out;
        }
        let ghost from = at;
        while at < s.len() && s[at] != '/'
            invariant
                from <= at <= s@.len(),
                t == s@.skip(from as int),
                name_length(t) == (at - from) + name_length(s@.skip(at as int)),
            decreases s.len() - at,
        {
            assert(s@.skip(at as int).drop_first() =~= s@.skip(at as int + 1));
            at = at + 1;
        }
        assert(t.skip(name_length(t) as int) =~= s@.skip(at as int));
        k = k + 1;
    }
}

// --------------------------------------------------------------- systems

/// A path starts with a drive: a letter and a colon.
pub open spec fn has_drive(path: Seq<char>) -> bool {
    path.len() >= 2 && ('a' <= path[0] <= 'z' || 'A' <= path[0] <= 'Z') && path[1] == ':'
}

/// A path starts with two slashes, as one on another machine does.
pub open spec fn is_shared(path: Seq<char>) -> bool {
    path.len() >= 2 && path[0] == '/' && path[1] == '/'
}

/// A path with slashes alone: Windows has backslashes that do the same.
pub open spec fn slashed(path: Seq<char>, windows: bool) -> Seq<char> {
    if windows {
        forward(path)
    } else {
        path
    }
}

/// The drive of a path, if it has one: on Windows alone, as it is written.
pub open spec fn drive_text(path: Seq<char>, windows: bool) -> Seq<char> {
    let p = slashed(path, windows);
    if windows && has_drive(p) {
        p.take(2)
    } else {
        Seq::empty()
    }
}

/// A path without its drive.
pub open spec fn behind_drive(path: Seq<char>, windows: bool) -> Seq<char> {
    slashed(path, windows).skip(drive_text(path, windows).len() as int)
}

/// A path that says by itself where it leads. On Windows it takes a drive, or
/// another machine.
pub open spec fn is_full(path: Seq<char>, windows: bool) -> bool {
    if windows {
        is_shared(forward(path)) || (has_drive(forward(path)) && is_absolute(
            behind_drive(path, windows),
        ))
    } else {
        is_absolute(path)
    }
}

/// The drive of a path as a part, if it has one. Drives are told apart by their
/// letters alone.
pub open spec fn drive_part(path: Seq<char>, windows: bool) -> Seq<Seq<char>> {
    let drive = drive_text(path, windows);
    if drive.len() == 0 {
        Seq::empty()
    } else {
        seq![text::ascii_lower(drive)]
    }
}

/// The parts of a path, its drive the first of them.
pub open spec fn parts_on(path: Seq<char>, windows: bool) -> Seq<Seq<char>> {
    drive_part(path, windows) + parts_of(behind_drive(path, windows))
}

/// The same, after `.` and `..` are taken out of it.
pub open spec fn normal_parts_on(path: Seq<char>, windows: bool) -> Seq<Seq<char>> {
    drive_part(path, windows) + normal_parts(behind_drive(path, windows))
}

/// A path starts at the root, of its drive if it has one.
pub open spec fn starts_at_root(path: Seq<char>, windows: bool) -> bool {
    is_absolute(behind_drive(path, windows))
}

/// A path with `.` and `..` taken out of it, without looking at a disk.
pub open spec fn normalized_on(path: Seq<char>, windows: bool) -> Seq<char> {
    let plain = normalized(behind_drive(path, windows));
    if windows && is_shared(slashed(path, windows)) {
        seq!['/'] + plain
    } else {
        drive_text(path, windows) + plain
    }
}

/// `part` below `base`. On Windows a part that starts at a root stays on the
/// drive of `base`, and one with a drive stands alone.
pub open spec fn below_on(base: Seq<char>, part: Seq<char>, windows: bool) -> Seq<char> {
    let b = slashed(base, windows);
    let p = slashed(part, windows);
    let drive = drive_text(base, windows);
    if !windows {
        below(b, p)
    } else if drive_text(part, windows).len() > 0 || is_shared(p) {
        p
    } else if is_absolute(p) || b.len() == drive.len() {
        drive + p
    } else {
        below(b, p)
    }
}

/// A path with slashes alone.
pub fn to_slashed(path: &[char], windows: bool) -> (out: Vec<char>)
    ensures
        out@ == slashed(path@, windows),
{
    if windows {
        to_forward(path)
    } else {
        let out = text::slice_of(path, 0, path.len());
        assert(out@ =~= path@);
        out
    }
}

/// The drive of a path as it is written, and the path without it.
pub fn split_drive(path: &[char], windows: bool) -> (r: (Vec<char>, Vec<char>))
    ensures
        r.0@ == drive_text(path@, windows),
        r.1@ == behind_drive(path@, windows),
{
    let p = to_slashed(path, windows);
    let n: usize = if windows && p.len() >= 2 && (('a' <= p[0] && p[0] <= 'z') || ('A' <= p[0]
        && p[0] <= 'Z')) && p[1] == ':' {
        2
    } else {
        0
    };
    let drive = text::slice_of(&p, 0, n);
    let rest = text::slice_of(&p, n, p.len());
    assert(drive@ =~= drive_text(path@, windows));
    assert(rest@ =~= behind_drive(path@, windows));
    (drive, rest)
}

/// Whether a path says by itself where it leads.
pub fn is_full_path(path: &[char], windows: bool) -> (r: bool)
    ensures
        r == is_full(path@, windows),
{
    if !windows {
        return path.len() > 0 && path[0] == '/';
    }
    let p = to_slashed(path, windows);
    if p.len() >= 2 && p[0] == '/' && p[1] == '/' {
        return true;
    }
    let (drive, rest) = split_drive(path, windows);
    drive.len() > 0 && rest.len() > 0 && rest[0] == '/'
}

/// Whether a path starts at the root, and its parts, its drive the first of them;
/// `fold` takes `.` and `..` out of it.
pub fn take_apart(path: &[char], windows: bool, fold: bool) -> (r: (bool, Vec<Vec<char>>))
    ensures
        r.0 == starts_at_root(path@, windows),
        text::rows(r.1@) == (if fold {
            normal_parts_on(path@, windows)
        } else {
            parts_on(path@, windows)
        }),
{
    let (drive, rest) = split_drive(path, windows);
    let mut parts = components(&rest);
    if fold {
        parts = fold_parts(&parts);
    }
    let ghost behind = text::rows(parts@);
    let mut out: Vec<Vec<char>> = Vec::new();
    if drive.len() > 0 {
        out.push(text::lower_chars(&drive));
    }
    assert(text::rows(out@) =~= drive_part(path@, windows));
    out.append(&mut parts);
    assert(text::rows(out@) =~= drive_part(path@, windows) + behind);
    (rest.len() > 0 && rest[0] == '/', out)
}

/// Takes `.` and `..` out of a path.
pub fn normalize_on(path: &[char], windows: bool) -> (out: Vec<char>)
    ensures
        out@ == normalized_on(path@, windows),
{
    let (drive, rest) = split_drive(path, windows);
    let mut plain = lexical_normalize(&rest);
    let ghost shown = plain@;
    let p = to_slashed(path, windows);
    let mut out: Vec<char> = Vec::new();
    if windows && p.len() >= 2 && p[0] == '/' && p[1] == '/' {
        out.push('/');
    } else {
        out = drive;
    }
    let ghost lead = out@;
    out.append(&mut plain);
    assert(out@ =~= lead + shown);
    assert(out@ =~= normalized_on(path@, windows));
    out
}

/// The path of `part` below `base`.
pub fn join_on(base: &str, part: &str, windows: bool) -> (out: String)
    ensures
        out@ == below_on(base@, part@, windows),
{
    if !windows {
        return join(base, part);
    }
    let b = text::chars_of(base);
    let p = text::chars_of(part);
    let (mut drive, rest) = split_drive(&b, windows);
    let (part_drive, _) = split_drive(&p, windows);
    let mut shown = to_slashed(&p, windows);
    if part_drive.len() > 0 || (shown.len() >= 2 && shown[0] == '/' && shown[1] == '/') {
        return text::string_of(&shown);
    }
    if (shown.len() > 0 && shown[0] == '/') || rest.len() == 0 {
        drive.append(&mut shown);
        assert(drive@ =~= drive_text(base@, windows) + slashed(part@, windows));
        return text::string_of(&drive);
    }
    let whole = text::string_of(&to_slashed(&b, windows));
    join(whole.as_str(), text::string_of(&shown).as_str())
}

// ------------------------------------------------------------------ lemmas

pub(crate) proof fn lemma_pieces_join(a: Seq<char>, b: Seq<char>)
    ensures
        text::pieces(a.push('/') + b, '/') == text::pieces(a, '/') + text::pieces(b, '/'),
    decreases b.len(),
{
    let whole = a.push('/') + b;
    if b.len() == 0 {
        assert(whole =~= a.push('/'));
        assert(whole.drop_last() =~= a);
        assert(text::pieces(whole, '/') =~= text::pieces(a, '/') + text::pieces(b, '/'));
    } else {
        lemma_pieces_join(a, b.drop_last());
        assert(whole.drop_last() =~= a.push('/') + b.drop_last());
        text::lemma_pieces_nonempty(b.drop_last(), '/');
        text::lemma_pieces_nonempty(a, '/');
        let left = text::pieces(a, '/') + text::pieces(b.drop_last(), '/');
        assert(left.last() == text::pieces(b.drop_last(), '/').last());
        assert(left.drop_last() =~= text::pieces(a, '/') + text::pieces(
            b.drop_last(),
            '/',
        ).drop_last());
        assert(text::pieces(whole, '/') =~= text::pieces(a, '/') + text::pieces(b, '/'));
    }
}

proof fn lemma_kept_join(a: Seq<Seq<char>>, b: Seq<Seq<char>>)
    ensures
        kept_parts(a + b) == kept_parts(a) + kept_parts(b),
    decreases b.len(),
{
    if b.len() == 0 {
        assert(a + b =~= a);
        assert(kept_parts(a) + kept_parts(b) =~= kept_parts(a));
    } else {
        lemma_kept_join(a, b.drop_last());
        assert((a + b).drop_last() =~= a + b.drop_last());
        assert(kept_parts(a + b) =~= kept_parts(a) + kept_parts(b));
    }
}

/// The parts of two paths with a slash between them are the parts of the one and
/// then those of the other.
pub proof fn lemma_parts_join(a: Seq<char>, b: Seq<char>)
    ensures
        parts_of(a.push('/') + b) == parts_of(a) + parts_of(b),
{
    lemma_pieces_join(a, b);
    lemma_kept_join(text::pieces(a, '/'), text::pieces(b, '/'));
}

/// A part of a path: neither empty nor a single dot, and without slashes.
pub open spec fn is_part(s: Seq<char>) -> bool {
    s.len() > 0 && s != seq!['.'] && !s.contains('/')
}

/// A part is a path of one part.
pub proof fn lemma_single_part(s: Seq<char>)
    requires
        is_part(s),
    ensures
        parts_of(s) == seq![s],
{
    lemma_single_piece(s);
    assert(kept_parts(seq![s]) =~= seq![s]) by {
        assert(seq![s].drop_last() =~= Seq::<Seq<char>>::empty());
        assert(kept_parts(Seq::<Seq<char>>::empty()) =~= Seq::<Seq<char>>::empty());
    }
}

pub(crate) proof fn lemma_single_piece(s: Seq<char>)
    requires
        !s.contains('/'),
    ensures
        text::pieces(s, '/') == seq![s],
    decreases s.len(),
{
    if s.len() > 0 {
        let t = s.drop_last();
        assert(!t.contains('/')) by {
            if t.contains('/') {
                let i = choose|i: int| 0 <= i < t.len() && t[i] == '/';
                assert(s[i] == '/');
            }
        }
        lemma_single_piece(t);
        assert(s.last() != '/') by {
            assert(s.contains(s[s.len() - 1]));
        }
        assert(text::pieces(s, '/') =~= seq![s]) by {
            assert(t.push(s.last()) =~= s);
        }
    } else {
        assert(s =~= Seq::<char>::empty());
    }
}

proof fn lemma_pieces_have_no_slash(s: Seq<char>, k: int)
    requires
        0 <= k < text::pieces(s, '/').len(),
    ensures
        !text::pieces(s, '/')[k].contains('/'),
    decreases s.len(),
{
    if s.len() > 0 {
        let before = text::pieces(s.drop_last(), '/');
        text::lemma_pieces_nonempty(s.drop_last(), '/');
        let n = before.len() - 1;
        if k < before.len() {
            lemma_pieces_have_no_slash(s.drop_last(), k);
        }
        if s.last() != '/' && k == n {
            let whole = before[n].push(s.last());
            if whole.contains('/') {
                let i = choose|i: int| 0 <= i < whole.len() && whole[i] == '/';
                if i < before[n].len() {
                    assert(before[n][i] == '/');
                }
            }
        }
    }
}

proof fn lemma_kept_are_parts(pieces: Seq<Seq<char>>, k: int)
    requires
        0 <= k < kept_parts(pieces).len(),
        forall|i: int| 0 <= i < pieces.len() ==> !(#[trigger] pieces[i]).contains('/'),
    ensures
        is_part(kept_parts(pieces)[k]),
    decreases pieces.len(),
{
    if pieces.len() > 0 {
        let before = kept_parts(pieces.drop_last());
        assert(!pieces[pieces.len() - 1].contains('/'));
        if k < before.len() {
            lemma_kept_are_parts(pieces.drop_last(), k);
        }
    }
}

/// The parts of a path are parts.
pub proof fn lemma_parts_are_parts(path: Seq<char>, k: int)
    requires
        0 <= k < parts_of(path).len(),
    ensures
        is_part(parts_of(path)[k]),
{
    let pieces = text::pieces(path, '/');
    assert forall|i: int| 0 <= i < pieces.len() implies !(#[trigger] pieces[i]).contains('/') by {
        lemma_pieces_have_no_slash(path, i);
    }
    lemma_kept_are_parts(pieces, k);
}

/// The parts of `part` below `base` are those of the one and then those of the
/// other.
pub proof fn lemma_parts_below(base: Seq<char>, part: Seq<char>)
    requires
        !is_absolute(part),
    ensures
        parts_of(below(base, part)) == parts_of(base) + parts_of(part),
{
    lemma_no_parts();
    if base.len() == 0 {
        assert(base =~= Seq::<char>::empty());
        assert(parts_of(base) + parts_of(part) =~= parts_of(part));
    } else if base.last() == '/' {
        let stem = base.drop_last();
        assert(base =~= stem.push('/'));
        assert(base + part =~= stem.push('/') + part);
        lemma_parts_join(stem, part);
        lemma_parts_join(stem, Seq::empty());
        assert(stem.push('/') + Seq::<char>::empty() =~= base);
        assert(parts_of(stem) + Seq::<Seq<char>>::empty() =~= parts_of(stem));
    } else {
        lemma_parts_join(base, part);
    }
}

pub(crate) proof fn lemma_no_parts()
    ensures
        parts_of(Seq::empty()) == Seq::<Seq<char>>::empty(),
{
    let one = seq![Seq::<char>::empty()];
    assert(text::pieces(Seq::<char>::empty(), '/') =~= one);
    assert(one.drop_last() =~= Seq::<Seq<char>>::empty());
    assert(one.last().len() == 0);
    assert(kept_parts(Seq::<Seq<char>>::empty()) =~= Seq::<Seq<char>>::empty());
    assert(kept_parts(one) == kept_parts(one.drop_last()));
}

proof fn lemma_first_name_joined(a: Seq<char>, b: Seq<char>)
    ensures
        from_first_name(a.push('/') + b) == (if from_first_name(a).len() == 0 {
            from_first_name(b)
        } else {
            from_first_name(a).push('/') + b
        }),
    decreases a.len(),
{
    let whole = a.push('/') + b;
    if a.len() == 0 {
        assert(whole.drop_first() =~= b);
    } else {
        assert(whole.drop_first() =~= a.drop_first().push('/') + b);
        assert(whole[0] == a[0]);
        if a.len() > 1 {
            assert(whole[1] == a[1]);
        }
        if starts_idly(a) {
            lemma_first_name_joined(a.drop_first(), b);
        }
    }
}

proof fn lemma_idle_start(a: Seq<char>)
    ensures
        parts_of(from_first_name(a)) == parts_of(a),
    decreases a.len(),
{
    if starts_idly(a) {
        let rest = a.drop_first();
        lemma_idle_start(rest);
        lemma_no_parts();
        if a[0] == '/' {
            assert(a =~= Seq::<char>::empty().push('/') + rest);
            lemma_parts_join(Seq::empty(), rest);
            assert(parts_of(a) =~= parts_of(rest));
        } else {
            lemma_dot_is_no_part();
            if a.len() == 1 {
                assert(a =~= seq!['.']);
                assert(rest =~= Seq::<char>::empty());
            } else {
                let behind = rest.drop_first();
                assert(a =~= seq!['.'].push('/') + behind);
                lemma_parts_join(seq!['.'], behind);
                assert(rest =~= Seq::<char>::empty().push('/') + behind);
                lemma_parts_join(Seq::empty(), behind);
                assert(parts_of(a) =~= parts_of(rest));
            }
        }
    }
}

proof fn lemma_dot_is_no_part()
    ensures
        parts_of(seq!['.']) == Seq::<Seq<char>>::empty(),
{
    let one = seq![seq!['.']];
    lemma_single_piece(seq!['.']);
    assert(one.drop_last() =~= Seq::<Seq<char>>::empty());
    assert(one.last() == seq!['.']);
    assert(kept_parts(Seq::<Seq<char>>::empty()) =~= Seq::<Seq<char>>::empty());
    assert(kept_parts(one) == kept_parts(one.drop_last()));
}

proof fn lemma_name_length(s: Seq<char>)
    ensures
        name_length(s) <= s.len(),
        !s.take(name_length(s) as int).contains('/'),
        name_length(s) < s.len() ==> s[name_length(s) as int] == '/',
    decreases s.len(),
{
    if s.len() > 0 && s[0] != '/' {
        let rest = s.drop_first();
        lemma_name_length(rest);
        let n = name_length(s) as int;
        assert forall|k: int| 0 <= k < n implies s.take(n)[k] != '/' by {
            if k > 0 {
                assert(rest.take(n - 1).contains(rest.take(n - 1)[k - 1]));
            }
        }
    }
}

/// The first name is the first part.
proof fn lemma_first_part(t: Seq<char>)
    requires
        t.len() > 0,
        !starts_idly(t),
    ensures
        name_length(t) > 0,
        parts_of(t) == seq![t.take(name_length(t) as int)] + parts_of(
            t.skip(name_length(t) as int),
        ),
{
    let n = name_length(t) as int;
    let name = t.take(n);
    let rest = t.skip(n);
    lemma_name_length(t);
    lemma_no_parts();
    assert(name != seq!['.']) by {
        if name == seq!['.'] {
            assert(name[0] == t[0]);
            assert(n == 1);
        }
    }
    assert(is_part(name));
    lemma_single_part(name);
    if n == t.len() {
        assert(name =~= t);
        assert(rest =~= Seq::<char>::empty());
        assert(parts_of(t) =~= seq![name] + parts_of(rest));
    } else {
        let behind = t.skip(n + 1);
        assert(t =~= name.push('/') + behind);
        lemma_parts_join(name, behind);
        assert(rest =~= Seq::<char>::empty().push('/') + behind);
        lemma_parts_join(Seq::empty(), behind);
        assert(parts_of(rest) =~= parts_of(behind));
    }
}

/// Behind the names of the one stands the other.
pub proof fn lemma_after_names(a: Seq<char>, b: Seq<char>)
    ensures
        after_names(a.push('/') + b, parts_of(a).len()) == from_first_name(b),
    decreases a.len(),
{
    let whole = a.push('/') + b;
    let t = from_first_name(a);
    lemma_first_name_joined(a, b);
    lemma_idle_start(a);
    lemma_first_name_ends(a);
    if t.len() == 0 {
        assert(t =~= Seq::<char>::empty());
        lemma_no_parts();
    } else {
        lemma_first_part(t);
        lemma_name_length(t);
        let n = name_length(t) as int;
        let rest = t.skip(n);
        let joined = t.push('/') + b;
        lemma_same_name_length(t, b);
        assert(joined.skip(n) =~= rest.push('/') + b);
        lemma_after_names(rest, b);
        assert(parts_of(a).len() == 1 + parts_of(rest).len());
    }
}

proof fn lemma_first_name_ends(a: Seq<char>)
    ensures
        from_first_name(a).len() <= a.len(),
        !starts_idly(from_first_name(a)),
    decreases a.len(),
{
    if starts_idly(a) {
        lemma_first_name_ends(a.drop_first());
    }
}

proof fn lemma_same_name_length(t: Seq<char>, b: Seq<char>)
    ensures
        name_length(t.push('/') + b) == name_length(t),
    decreases t.len(),
{
    let whole = t.push('/') + b;
    if t.len() > 0 && t[0] != '/' {
        assert(whole.drop_first() =~= t.drop_first().push('/') + b);
        lemma_same_name_length(t.drop_first(), b);
    }
}

} // verus!
