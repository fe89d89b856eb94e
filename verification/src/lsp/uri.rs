//! File URIs and the paths they stand for.

use crate::paths;
use crate::text;
use crate::types;
use crate::types::RelPath;
use vstd::prelude::*;

verus! {

/// The root of a repository, with what the file system made of paths.
#[derive(Debug)]
pub struct RepoRoot {
    /// The root as it was given.
    pub text: String,
    /// The root as the file system knows it, if it does.
    pub canonical: Option<String>,
    /// Paths, each with what the file system knows it as.
    pub resolved: Vec<(String, String)>,
    /// Whether paths are written as Windows writes them.
    pub windows: bool,
}

impl RepoRoot {
    /// A root that no path is resolved against, on a system other than Windows.
    pub fn plain(text: &str) -> (r: RepoRoot)
        ensures
            r.text@ == text@,
            r.canonical is None,
            r.resolved@.len() == 0,
            !r.windows,
    {
        RepoRoot {
            text: text::string_of(&text::chars_of(text)),
            canonical: None,
            resolved: Vec::new(),
            windows: false,
        }
    }

    /// What the file system knows `path` as.
    pub fn resolve(&self, path: &str) -> (r: Option<String>)
        ensures
            match r {
                Some(t) => text::entry(self.resolved@, path@) == Some(t@),
                None => text::entry(self.resolved@, path@) is None,
            },
    {
        text::find_entry(&self.resolved, path)
    }
}

// -------------------------------------------------------------- decoding

/// The value of a hexadecimal digit.
pub open spec fn hex_value(b: u8) -> Option<u8> {
    if 48 <= b <= 57 {
        Some((b - 48) as u8)
    } else if 97 <= b <= 102 {
        Some((b - 87) as u8)
    } else if 65 <= b <= 70 {
        Some((b - 55) as u8)
    } else {
        None
    }
}

/// The value of a hexadecimal digit.
pub fn from_hex(b: u8) -> (r: Option<u8>)
    ensures
        r == hex_value(b),
        r matches Some(v) ==> v < 16,
{
    if 48 <= b && b <= 57 {
        Some(b - 48)
    } else if 97 <= b && b <= 102 {
        Some(b - 87)
    } else if 65 <= b && b <= 70 {
        Some(b - 55)
    } else {
        None
    }
}

/// Bytes with every percent sign and its two digits turned into one byte. A
/// percent sign without two digits spoils the whole.
pub open spec fn unescaped(bytes: Seq<u8>) -> Option<Seq<u8>>
    decreases bytes.len(),
{
    if bytes.len() == 0 {
        Some(Seq::empty())
    } else if bytes[0] != 37 {
        match unescaped(bytes.drop_first()) {
            Some(rest) => Some(seq![bytes[0]] + rest),
            None => None,
        }
    } else if bytes.len() < 3 {
        None
    } else {
        match (hex_value(bytes[1]), hex_value(bytes[2]), unescaped(bytes.skip(3))) {
            (Some(high), Some(low), Some(rest)) => Some(
                seq![(high * 16 + low) as u8] + rest,
            ),
            _ => None,
        }
    }
}

/// `String::from_utf8`: the text of bytes that are UTF-8, and nothing for
/// others.
#[verifier::external_body]
pub(crate) fn utf8_text(bytes: Vec<u8>) -> (r: Option<String>)
    ensures
        match r {
            Some(s) => vstd::utf8::valid_utf8(bytes@) && s@ == vstd::utf8::decode_utf8(bytes@),
            None => !vstd::utf8::valid_utf8(bytes@),
        },
{
    String::from_utf8(bytes).ok()
}

/// A text with its percent escapes decoded, if they are well formed and give
/// UTF-8.
pub open spec fn percent_decoded(s: Seq<char>) -> Option<Seq<char>> {
    match unescaped(vstd::utf8::encode_utf8(s)) {
        Some(bytes) => if vstd::utf8::valid_utf8(bytes) {
            Some(vstd::utf8::decode_utf8(bytes))
        } else {
            None
        },
        None => None,
    }
}

/// Decodes percent escapes.
pub fn percent_decode(input: &str) -> (r: Option<String>)
    ensures
        match r {
            Some(t) => percent_decoded(input@) == Some(t@),
            None => percent_decoded(input@) is None,
        },
{
    let bytes = input.as_bytes();
    let n: usize = bytes.len();
    let mut out: Vec<u8> = Vec::new();
    let mut i: usize = 0;
    let ghost whole = unescaped(bytes@);
    assert(bytes@.skip(0) =~= bytes@);
    while i < n
        invariant
            i <= n,
            n == bytes@.len(),
            bytes@ == vstd::utf8::encode_utf8(input@),
            whole == unescaped(bytes@),
            match unescaped(bytes@.skip(i as int)) {
                Some(rest) => whole == Some(out@ + rest),
                None => whole is None,
            },
        decreases n - i,
    {
        let ghost tail = bytes@.skip(i as int);
        let ghost was = out@;
        assert(tail[0] == bytes@[i as int]);
        if bytes[i] == 37 {
            if n - i < 3 {
                return None;
            }
            assert(tail[1] == bytes@[i + 1] && tail[2] == bytes@[i + 2]);
            assert(tail.skip(3) =~= bytes@.skip(i + 3));
            let high = from_hex(bytes[i + 1]);
            let low = from_hex(bytes[i + 2]);
            match (high, low) {
                (Some(h), Some(l)) => {
                    out.push(h * 16 + l);
                    proof {
                        if let Some(rest) = unescaped(bytes@.skip(i + 3)) {
                            assert(out@ + rest =~= was + (seq![(h * 16 + l) as u8] + rest));
                        }
                    }
                },
                _ => {
                    return None;
                },
            }
            i = i + 3;
        } else {
            assert(tail.drop_first() =~= bytes@.skip(i + 1));
            out.push(bytes[i]);
            proof {
                if let Some(rest) = unescaped(bytes@.skip(i + 1)) {
                    assert(out@ + rest =~= was + (seq![tail[0]] + rest));
                }
            }
            i = i + 1;
        }
    }
    proof {
        assert(bytes@.skip(n as int) =~= Seq::<u8>::empty());
        assert(out@ + Seq::<u8>::empty() =~= out@);
    }
    utf8_text(out)
}

// ------------------------------------------------------------------ URIs

/// A path is written as a file URI.
pub open spec fn is_file_uri(path: Seq<char>) -> bool {
    path.len() >= 5 && text::ascii_lower(path.take(5)) == "file:"@
}

/// Whether a path is written as a file URI.
pub fn looks_like_file_uri(path: &[char]) -> (r: bool)
    ensures
        r == is_file_uri(path@),
{
    if path.len() < 5 {
        return false;
    }
    let scheme = text::slice_of(path, 0, 5);
    assert(scheme@ =~= path@.take(5));
    text::same_chars(&text::lower_chars(&scheme), &text::chars_of("file:"))
}

/// What stands before the first `c`, or all.
pub open spec fn before(s: Seq<char>, c: char) -> Seq<char>
    decreases s.len(),
{
    if s.len() == 0 || s[0] == c {
        Seq::empty()
    } else {
        seq![s[0]] + before(s.drop_first(), c)
    }
}

/// What stands before the first `c`, or all.
pub fn cut_at(s: &[char], c: char) -> (out: Vec<char>)
    ensures
        out@ == before(s@, c),
        out@.len() <= s@.len(),
        out@ == s@.take(out@.len() as int),
        out@.len() < s@.len() ==> s@[out@.len() as int] == c,
        !out@.contains(c),
{
    let mut to: usize = 0;
    assert(s@.skip(0) =~= s@);
    assert(s@.take(0) + before(s@, c) =~= before(s@, c));
    while to < s.len() && s[to] != c
        invariant
            to <= s@.len(),
            before(s@, c) == s@.take(to as int) + before(s@.skip(to as int), c),
            forall|k: int| 0 <= k < to ==> s@[k] != c,
        decreases s.len() - to,
    {
        let ghost tail = s@.skip(to as int);
        assert(tail[0] == s@[to as int]);
        assert(tail.drop_first() =~= s@.skip(to as int + 1));
        assert(s@.take(to as int) + (seq![tail[0]] + before(tail.drop_first(), c)) =~= s@.take(
            to as int + 1,
        ) + before(s@.skip(to as int + 1), c));
        to = to + 1;
    }
    proof {
        if to < s@.len() {
            assert(s@.skip(to as int)[0] == c);
        }
        assert(s@.take(to as int) + Seq::<char>::empty() =~= s@.take(to as int));
    }
    let out = text::slice_of(s, 0, to);
    assert(out@ =~= s@.take(to as int));
    out
}

/// A path of a URI as a path of the file system: on Windows the slash before a
/// drive comes off.
pub open spec fn without_drive_slash(path: Seq<char>, windows: bool) -> Seq<char> {
    if windows && path.len() >= 3 && path[0] == '/' && path[1] < '\u{80}' && path[2] == ':' {
        path.skip(1)
    } else {
        path
    }
}

/// A path of a URI as a path of the file system.
fn local_fs_path(path: &[char], windows: bool) -> (out: Vec<char>)
    ensures
        out@ == paths::normalized_on(without_drive_slash(path@, windows), windows),
{
    if windows && path.len() >= 3 && path[0] == '/' && path[1] < '\u{80}' && path[2] == ':' {
        let rest = text::slice_of(path, 1, path.len());
        assert(rest@ =~= path@.skip(1));
        paths::normalize_on(&rest, windows)
    } else {
        paths::normalize_on(path, windows)
    }
}

/// The path of a decoded file URI without its scheme: a local path, or one
/// behind an empty host or `localhost`. Other hosts have none.
pub open spec fn local_path(decoded: Seq<char>, windows: bool) -> Option<Seq<char>> {
    if "//"@.is_prefix_of(decoded) {
        let rest = decoded.skip(2);
        let host = before(rest, '/');
        if host.len() == rest.len() {
            None
        } else if host.len() == 0 || text::ascii_lower(host) == "localhost"@ {
            Some(
                paths::normalized_on(
                    without_drive_slash(rest.skip(host.len() as int), windows),
                    windows,
                ),
            )
        } else {
            None
        }
    } else {
        Some(paths::normalized_on(without_drive_slash(decoded, windows), windows))
    }
}

/// The path that a file URI stands for, without fragment and query.
pub open spec fn uri_path(uri: Seq<char>, windows: bool) -> Option<Seq<char>> {
    if !is_file_uri(uri) {
        None
    } else {
        match percent_decoded(before(before(uri.skip(5), '#'), '?')) {
            Some(decoded) => local_path(decoded, windows),
            None => None,
        }
    }
}

/// The path that a file URI stands for.
pub fn file_uri_to_path(uri: &[char], windows: bool) -> (r: Option<Vec<char>>)
    ensures
        match r {
            Some(t) => uri_path(uri@, windows) == Some(t@),
            None => uri_path(uri@, windows) is None,
        },
{
    if !looks_like_file_uri(uri) {
        return None;
    }
    let rest = text::slice_of(uri, 5, uri.len());
    assert(rest@ =~= uri@.skip(5));
    let plain = cut_at(&cut_at(&rest, '#'), '?');
    let input = text::string_of(&plain);
    let decoded = match percent_decode(input.as_str()) {
        Some(t) => text::chars_of(t.as_str()),
        None => {
            return None;
        },
    };
    proof {
        reveal_strlit("//");
    }
    if text::starts_with(&decoded, &text::chars_of("//")) {
        let after = text::slice_of(&decoded, 2, decoded.len());
        assert(after@ =~= decoded@.skip(2));
        let host = cut_at(&after, '/');
        if host.len() == after.len() {
            return None;
        }
        if host.len() == 0 || text::same_chars(
            &text::lower_chars(&host),
            &text::chars_of("localhost"),
        ) {
            let path = text::slice_of(&after, host.len(), after.len());
            assert(path@ =~= after@.skip(host@.len() as int));
            Some(local_fs_path(&path, windows))
        } else {
            None
        }
    } else {
        Some(local_fs_path(&decoded, windows))
    }
}

/// The absolute path that a server's path stands for, if it is absolute.
pub open spec fn absolute_path(raw: Seq<char>, windows: bool) -> Option<Seq<char>> {
    if is_file_uri(raw) {
        uri_path(raw, windows)
    } else if paths::is_full(paths::forward(raw), windows) {
        Some(paths::normalized_on(paths::forward(raw), windows))
    } else {
        None
    }
}

/// The absolute path that a server's path stands for.
pub fn abs_path_from_lsp(raw: &[char], windows: bool) -> (r: Option<Vec<char>>)
    ensures
        match r {
            Some(t) => absolute_path(raw@, windows) == Some(t@),
            None => absolute_path(raw@, windows) is None,
        },
{
    if looks_like_file_uri(raw) {
        return file_uri_to_path(raw, windows);
    }
    let plain = paths::to_forward(raw);
    if paths::is_full_path(&plain, windows) {
        Some(paths::normalize_on(&plain, windows))
    } else {
        None
    }
}

// --------------------------------------------------------------- in repo

/// What is left of a path below a root, both given by their parts: nothing for
/// a path elsewhere, for the root itself, and for one that climbs.
pub open spec fn under(
    absolute: bool,
    parts: Seq<Seq<char>>,
    root_absolute: bool,
    root: Seq<Seq<char>>,
) -> Option<Seq<char>> {
    let rest = parts.skip(root.len() as int);
    let shown = if !root_absolute && root.len() == 0 {
        paths::path_text(absolute, parts)
    } else {
        paths::joined(rest)
    };
    if !root_absolute && root.len() == 0 {
        if shown.len() > 0 && !paths::climbs(parts) {
            Some(shown)
        } else {
            None
        }
    } else if absolute == root_absolute && root.is_prefix_of(parts) && shown.len() > 0
        && !paths::climbs(rest) {
        Some(shown)
    } else {
        None
    }
}

/// A piece of `s` between slashes is `..`.
pub open spec fn has_climb(s: Seq<char>) -> bool {
    paths::climbs(text::pieces(s, '/'))
}

/// A path below the root as a relative path.
pub open spec fn rel_of(t: Seq<char>) -> Option<Seq<char>> {
    let s = paths::forward(t);
    if s.len() == 0 || has_climb(s) {
        None
    } else {
        Some(types::rel_text(s))
    }
}

/// An absolute path as a path below the root: by its text, or else by what the
/// file system made of the two.
pub open spec fn rel_below(abs: Seq<char>, root: RepoRoot) -> Option<Seq<char>> {
    match under(
        paths::starts_at_root(abs, root.windows),
        paths::normal_parts_on(abs, root.windows),
        paths::starts_at_root(root.text@, root.windows),
        paths::normal_parts_on(root.text@, root.windows),
    ) {
        Some(t) => rel_of(t),
        None => match (text::entry(root.resolved@, abs), root.canonical) {
            (Some(a), Some(r)) => match under(
                paths::starts_at_root(a, root.windows),
                paths::parts_on(a, root.windows),
                paths::starts_at_root(r@, root.windows),
                paths::parts_on(r@, root.windows),
            ) {
                Some(t) => rel_of(t),
                None => None,
            },
            _ => None,
        },
    }
}

pub(crate) fn same_rows(a: &Vec<Vec<char>>, b: &Vec<Vec<char>>) -> (r: bool)
    ensures
        r == text::rows(b@).is_prefix_of(text::rows(a@)),
{
    if b.len() > a.len() {
        return false;
    }
    let mut i: usize = 0;
    while i < b.len()
        invariant
            i <= b@.len() <= a@.len(),
            forall|k: int| 0 <= k < i ==> text::rows(a@)[k] == text::rows(b@)[k],
        decreases b.len() - i,
    {
        if !text::same_chars(&a[i], &b[i]) {
            assert(text::rows(a@)[i as int] != text::rows(b@)[i as int]);
            return false;
        }
        i = i + 1;
    }
    assert(text::rows(b@) =~= text::rows(a@).subrange(0, b@.len() as int));
    true
}

/// What is left of a path below a root.
pub fn strip_prefix_path(
    absolute: bool,
    parts: &Vec<Vec<char>>,
    root_absolute: bool,
    root: &Vec<Vec<char>>,
) -> (r: Option<Vec<char>>)
    ensures
        match r {
            Some(t) => under(absolute, text::rows(parts@), root_absolute, text::rows(root@))
                == Some(t@),
            None => under(absolute, text::rows(parts@), root_absolute, text::rows(root@)) is None,
        },
{
    assert(text::rows(parts@).skip(0) =~= text::rows(parts@));
    if !root_absolute && root.len() == 0 {
        if paths::has_parent(parts, 0) {
            return None;
        }
        let mut body = paths::join_parts(parts, 0);
        if absolute {
            let mut out: Vec<char> = Vec::new();
            out.push('/');
            out.append(&mut body);
            assert(out@ =~= seq!['/'] + paths::joined(text::rows(parts@)));
            return Some(out);
        }
        if body.len() == 0 {
            return None;
        }
        return Some(body);
    }
    if absolute != root_absolute || !same_rows(parts, root) || paths::has_parent(parts, root.len()) {
        return None;
    }
    let body = paths::join_parts(parts, root.len());
    if body.len() == 0 {
        None
    } else {
        Some(body)
    }
}

/// Whether a piece of `s` between slashes is `..`.
fn climbs_anywhere(s: &[char]) -> (r: bool)
    ensures
        r == has_climb(s@),
{
    let parts = text::split_on(s, '/');
    assert(text::rows(parts@).skip(0) =~= text::rows(parts@));
    paths::has_parent(&parts, 0)
}

/// A path below the root as a relative path.
pub fn path_to_rel(rel: &[char]) -> (r: Option<RelPath>)
    ensures
        match r {
            Some(p) => rel_of(rel@) == Some(p@),
            None => rel_of(rel@) is None,
        },
{
    let s = paths::to_forward(rel);
    if s.len() == 0 || climbs_anywhere(&s) {
        return None;
    }
    Some(RelPath::new(text::string_of(&s).as_str()))
}

/// An absolute path as a path below the root.
pub fn rel_under_root(abs: &[char], root: &RepoRoot) -> (r: Option<RelPath>)
    ensures
        match r {
            Some(p) => rel_below(abs@, *root) == Some(p@),
            None => rel_below(abs@, *root) is None,
        },
{
    let root_text = text::chars_of(root.text.as_str());
    let (absolute, parts) = paths::take_apart(abs, root.windows, true);
    let (root_absolute, root_parts) = paths::take_apart(&root_text, root.windows, true);
    if let Some(t) = strip_prefix_path(absolute, &parts, root_absolute, &root_parts) {
        return path_to_rel(&t);
    }
    let known = root.resolve(text::string_of(abs).as_str());
    match (known, &root.canonical) {
        (Some(a), Some(c)) => {
            let (absolute, parts) = paths::take_apart(
                &text::chars_of(a.as_str()),
                root.windows,
                false,
            );
            let (root_absolute, root_parts) = paths::take_apart(
                &text::chars_of(c.as_str()),
                root.windows,
                false,
            );
            match strip_prefix_path(absolute, &parts, root_absolute, &root_parts) {
                Some(t) => path_to_rel(&t),
                None => None,
            }
        },
        _ => None,
    }
}

/// A path that lost its leading slash, as a path below the root: it has to
/// start with the whole root, which has to have more than one part.
pub open spec fn rel_by_text(raw: Seq<char>, root: Seq<char>, windows: bool) -> Option<Seq<char>> {
    let path = paths::without_slashes(raw);
    let dir = paths::without_slashes(paths::forward(paths::normalized_on(root, windows)));
    let rest = path.skip(dir.len() as int);
    let tail = paths::without_slashes(rest);
    if dir.len() > 0 && dir.contains('/') && dir.is_prefix_of(path) && paths::is_absolute(rest)
        && tail.len() > 0 && !has_climb(tail) {
        Some(types::rel_text(tail))
    } else {
        None
    }
}

/// A path that lost its leading slash, as a path below the root.
pub fn strip_root_string(raw: &[char], root: &str, windows: bool) -> (r: Option<RelPath>)
    ensures
        match r {
            Some(p) => rel_by_text(raw@, root@, windows) == Some(p@),
            None => rel_by_text(raw@, root@, windows) is None,
        },
{
    let path = paths::strip_slashes(raw);
    let normal = paths::normalize_on(&text::chars_of(root), windows);
    let dir = paths::strip_slashes(&paths::to_forward(&normal));
    if dir.len() == 0 || !text::has_char(&dir, '/') || !text::starts_with(&path, &dir) {
        return None;
    }
    let rest = text::slice_of(&path, dir.len(), path.len());
    assert(rest@ =~= path@.skip(dir@.len() as int));
    if rest.len() == 0 || rest[0] != '/' {
        return None;
    }
    let tail = paths::strip_slashes(&rest);
    if tail.len() == 0 || climbs_anywhere(&tail) {
        return None;
    }
    Some(RelPath::new(text::string_of(&tail).as_str()))
}

/// A server's path as a path below the root: a URI, an absolute path, or one
/// that is relative already. There is none for a path outside the root, for a
/// URI that cannot be decoded, and for a path that climbs.
pub open spec fn rel_from_server(path: Seq<char>, root: RepoRoot) -> Option<Seq<char>> {
    let plain = paths::forward(path);
    if is_file_uri(path) {
        match absolute_path(path, root.windows) {
            Some(abs) => rel_below(abs, root),
            None => None,
        }
    } else if paths::is_full(plain, root.windows) {
        rel_below(plain, root)
    } else {
        match rel_by_text(plain, root.text@, root.windows) {
            Some(rel) => Some(rel),
            None => if has_climb(plain) {
                None
            } else {
                Some(types::rel_text(plain))
            },
        }
    }
}

/// A server's path as a path below the root.
pub fn lsp_path_to_rel(path: &str, root: &RepoRoot) -> (r: Option<RelPath>)
    ensures
        match r {
            Some(p) => rel_from_server(path@, *root) == Some(p@),
            None => rel_from_server(path@, *root) is None,
        },
{
    let raw = text::chars_of(path);
    if looks_like_file_uri(&raw) {
        return match abs_path_from_lsp(&raw, root.windows) {
            Some(abs) => rel_under_root(&abs, root),
            None => None,
        };
    }
    let plain = paths::to_forward(&raw);
    if paths::is_full_path(&plain, root.windows) {
        return rel_under_root(&plain, root);
    }
    if let Some(rel) = strip_root_string(&plain, root.text.as_str(), root.windows) {
        return Some(rel);
    }
    if climbs_anywhere(&plain) {
        return None;
    }
    Some(RelPath::new(text::string_of(&plain).as_str()))
}

/// The path that has to be looked up in the file system before
/// [`lsp_path_to_rel`] can say where it lies.
pub fn path_to_resolve(path: &str, windows: bool) -> (r: Option<String>)
    ensures
        match r {
            Some(t) => Some(t@) == (if is_file_uri(path@) {
                absolute_path(path@, windows)
            } else {
                Some(paths::forward(path@))
            }),
            None => if is_file_uri(path@) {
                absolute_path(path@, windows) is None
            } else {
                !paths::is_full(paths::forward(path@), windows)
            },
        },
{
    let raw = text::chars_of(path);
    if looks_like_file_uri(&raw) {
        return match abs_path_from_lsp(&raw, windows) {
            Some(abs) => Some(text::string_of(&abs)),
            None => None,
        };
    }
    let plain = paths::to_forward(&raw);
    if paths::is_full_path(&plain, windows) {
        Some(text::string_of(&plain))
    } else {
        None
    }
}

/// No path of a repository climbs out of it.
pub proof fn law_relative_paths_do_not_climb(path: Seq<char>, root: RepoRoot)
    ensures
        rel_from_server(path, root) matches Some(rel) ==> !has_climb(rel),
{
    if let Some(rel) = rel_from_server(path, root) {
        let plain = paths::forward(path);
        let windows = root.windows;
        if !is_file_uri(path) && !paths::is_full(plain, windows) {
            if rel_by_text(plain, root.text@, windows) is None {
                lemma_no_climb_kept(plain);
            } else {
                let whole = paths::without_slashes(plain);
                let dir = paths::without_slashes(
                    paths::forward(paths::normalized_on(root.text@, windows)),
                );
                lemma_no_climb_kept(paths::without_slashes(whole.skip(dir.len() as int)));
            }
        } else {
            let abs = if is_file_uri(path) {
                absolute_path(path, windows).unwrap()
            } else {
                plain
            };
            let t = under(
                paths::starts_at_root(abs, windows),
                paths::normal_parts_on(abs, windows),
                paths::starts_at_root(root.text@, windows),
                paths::normal_parts_on(root.text@, windows),
            );
            if t is Some {
                lemma_no_climb_kept(paths::forward(t.unwrap()));
            } else {
                let a = text::entry(root.resolved@, abs).unwrap();
                let r = root.canonical.unwrap();
                let u = under(
                    paths::starts_at_root(a, windows),
                    paths::parts_on(a, windows),
                    paths::starts_at_root(r@, windows),
                    paths::parts_on(r@, windows),
                );
                lemma_no_climb_kept(paths::forward(u.unwrap()));
            }
        }
    }
}

proof fn lemma_pieces_front(s: Seq<char>, c: char)
    requires
        s.len() > 0,
        s[0] == c,
    ensures
        text::pieces(s, c) == seq![Seq::<char>::empty()] + text::pieces(s.drop_first(), c),
    decreases s.len(),
{
    if s.len() == 1 {
        assert(s.drop_last() =~= Seq::<char>::empty());
        assert(s.drop_first() =~= Seq::<char>::empty());
        assert(text::pieces(s.drop_last(), c) =~= seq![Seq::<char>::empty()]);
        assert(text::pieces(s, c) =~= seq![Seq::<char>::empty()] + text::pieces(s.drop_first(), c));
    } else {
        lemma_pieces_front(s.drop_last(), c);
        assert(s.drop_last().drop_first() =~= s.drop_first().drop_last());
        text::lemma_pieces_nonempty(s.drop_first().drop_last(), c);
        assert(text::pieces(s, c) =~= seq![Seq::<char>::empty()] + text::pieces(s.drop_first(), c));
    }
}

proof fn lemma_no_climb_kept(s: Seq<char>)
    requires
        !has_climb(s),
    ensures
        !has_climb(types::rel_text(s)),
{
    if s.len() > 0 && s[0] == '/' {
        lemma_pieces_front(s, '/');
        let all = text::pieces(s, '/');
        let rest = text::pieces(s.drop_first(), '/');
        if paths::climbs(rest) {
            let k = choose|k: int| 0 <= k < rest.len() && #[trigger] rest[k] == seq!['.', '.'];
            assert(all[k + 1] == seq!['.', '.']);
        }
    }
}

} // verus!
