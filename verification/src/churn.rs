//! How often files change, read from the text of a commit log.

use crate::text;
use vstd::prelude::*;
use vstd::string::*;

verus! {

/// The separator in front of each field of a commit header.
pub const UNIT_SEP: char = '\u{1f}';

/// Thirty days in seconds.
pub const WINDOW_30D_SECS: i64 = 2_592_000;

/// Ninety days in seconds.
pub const WINDOW_90D_SECS: i64 = 7_776_000;

/// How often one file changed.
#[derive(Clone, Copy, Debug, PartialEq, Eq, Structural)]
pub struct ChurnStats {
    pub commits_30d: u32,
    pub commits_90d: u32,
    /// How many authors changed the file within ninety days.
    pub authors_90d: u32,
}

impl Default for ChurnStats {
    fn default() -> (r: ChurnStats)
        ensures
            r == (ChurnStats { commits_30d: 0, commits_90d: 0, authors_90d: 0 }),
    {
        ChurnStats { commits_30d: 0, commits_90d: 0, authors_90d: 0 }
    }
}

/// One file of a churn table.
#[derive(Debug, PartialEq, Eq)]
pub struct ChurnEntry {
    pub path: String,
    pub stats: ChurnStats,
}

/// Churn by path, in ascending order of paths.
#[derive(Debug, PartialEq, Eq)]
pub struct ChurnTable {
    pub entries: Vec<ChurnEntry>,
}

/// The paths of a table.
pub open spec fn table_paths(entries: Seq<ChurnEntry>) -> Seq<Seq<char>> {
    entries.map_values(|e: ChurnEntry| e.path@)
}

impl ChurnTable {
    /// Each path occurs once, in ascending order.
    pub open spec fn wf(self) -> bool {
        text::ascending(table_paths(self.entries@))
    }

    /// A table without files.
    pub fn new() -> (r: ChurnTable)
        ensures
            r.wf(),
            r.entries@.len() == 0,
    {
        ChurnTable { entries: Vec::new() }
    }

    /// The statistics of `path`.
    pub fn get(&self, path: &str) -> (r: Option<ChurnStats>)
        requires
            self.wf(),
        ensures
            match r {
                Some(stats) => exists|k: int|
                    0 <= k < self.entries@.len() && (#[trigger] self.entries@[k]).path@ == path@
                        && self.entries@[k].stats == stats,
                None => forall|k: int|
                    0 <= k < self.entries@.len() ==> (#[trigger] self.entries@[k]).path@ != path@,
            },
    {
        let mut i: usize = 0;
        while i < self.entries.len()
            invariant
                i <= self.entries@.len(),
                forall|k: int| 0 <= k < i ==> (#[trigger] self.entries@[k]).path@ != path@,
            decreases self.entries.len() - i,
        {
            if text::same(self.entries[i].path.as_str(), path) {
                return Some(self.entries[i].stats);
            }
            i = i + 1;
        }
        None
    }

    /// How many files changed.
    pub fn len(&self) -> (r: usize)
        ensures
            r == self.entries@.len(),
    {
        self.entries.len()
    }

    /// Whether no file changed.
    pub fn is_empty(&self) -> (r: bool)
        ensures
            r == (self.entries@.len() == 0),
    {
        self.entries.len() == 0
    }
}

// ----------------------------------------------------------------- paths

/// A path relative to the repository, as seen from the directory `prefix` of
/// it: the part below that directory, or nothing for a path elsewhere.
pub open spec fn rebased(path: Seq<char>, prefix: Seq<char>) -> Option<Seq<char>> {
    let dir = if prefix.last() == '/' {
        prefix
    } else {
        prefix.push('/')
    };
    if prefix.len() == 0 {
        Some(path)
    } else if dir.is_prefix_of(path) && dir.len() < path.len() {
        Some(path.skip(dir.len() as int))
    } else {
        None
    }
}

/// The part of `path` below the directory `prefix`.
pub fn rebase_path(path: &str, prefix: &str) -> (r: Option<String>)
    ensures
        match r {
            Some(t) => rebased(path@, prefix@) == Some(t@),
            None => rebased(path@, prefix@) is None,
        },
{
    let p = text::chars_of(path);
    let mut dir = text::chars_of(prefix);
    if dir.len() == 0 {
        return Some(text::string_of(&p));
    }
    if dir[dir.len() - 1] != '/' {
        dir.push('/');
    }
    if !text::starts_with(&p, &dir) || dir.len() >= p.len() {
        return None;
    }
    let rest = text::slice_of(&p, dir.len(), p.len());
    assert(rest@ =~= path@.skip(dir@.len() as int));
    Some(text::string_of(&rest))
}

/// The path that a line of a log names: without white space around it and
/// without one pair of quotes. Escaped names, and lines that hold a field
/// separator or a stray quote, name none.
pub open spec fn cleaned(line: Seq<char>) -> Option<Seq<char>> {
    let t = text::trimmed(line);
    let quoted = t.len() >= 2 && t[0] == '"' && t.last() == '"';
    let inner = t.subrange(1, t.len() - 1);
    if t.len() == 0 || t.contains(UNIT_SEP) {
        None
    } else if quoted {
        if inner.contains('"') || inner.contains('\\') {
            None
        } else {
            Some(inner)
        }
    } else if t.contains('"') {
        None
    } else {
        Some(t)
    }
}

/// The path that a line of a log names.
pub fn clean_path(line: &[char]) -> (r: Option<String>)
    ensures
        match r {
            Some(t) => cleaned(line@) == Some(t@),
            None => cleaned(line@) is None,
        },
{
    let t = text::trim(line);
    let n: usize = t.len();
    if n == 0 || text::has_char(&t, UNIT_SEP) {
        return None;
    }
    if n >= 2 && t[0] == '"' && t[n - 1] == '"' {
        let inner = text::slice_of(&t, 1, n - 1);
        if text::has_char(&inner, '"') || text::has_char(&inner, '\\') {
            return None;
        }
        return Some(text::string_of(&inner));
    }
    if text::has_char(&t, '"') {
        return None;
    }
    Some(text::string_of(&t))
}

// --------------------------------------------------------------- commits

/// A commit of a log: its header, if that could be read, and its files.
pub ghost struct Commit {
    pub head: Option<(int, Seq<char>)>,
    pub files: Set<Seq<char>>,
}

/// A line starts a commit.
pub open spec fn is_header(line: Seq<char>) -> bool {
    line.len() > 0 && line[0] == UNIT_SEP
}

/// The time and the author of a commit header: both fields have to be there,
/// the time a number of 64 bits and the author not blank.
pub open spec fn header_of(line: Seq<char>) -> Option<(int, Seq<char>)> {
    let fields = text::pieces(line.drop_first(), UNIT_SEP);
    if fields.len() < 2 {
        None
    } else {
        let author = text::trimmed(fields[1]);
        match text::signed_value(text::trimmed(fields[0])) {
            Some(ts) => if i64::MIN <= ts <= i64::MAX && author.len() > 0 {
                Some((ts, author))
            } else {
                None
            },
            None => None,
        }
    }
}

/// The commits of a log. Lines in front of the first header belong to none.
pub open spec fn commits_of(lines: Seq<Seq<char>>) -> Seq<Commit>
    decreases lines.len(),
{
    if lines.len() == 0 {
        Seq::empty()
    } else {
        let before = commits_of(lines.drop_last());
        let line = lines.last();
        if is_header(line) {
            before.push(Commit { head: header_of(line), files: Set::empty() })
        } else if before.len() == 0 {
            before
        } else {
            let last = before.last();
            match cleaned(line) {
                Some(path) => before.update(
                    before.len() - 1,
                    Commit { head: last.head, files: last.files.insert(path) },
                ),
                None => before,
            }
        }
    }
}

/// A commit changed `path` no longer than `window` seconds before `now`.
pub open spec fn touches(c: Commit, path: Seq<char>, now: int, window: int) -> bool {
    &&& c.head is Some
    &&& now - c.head.unwrap().0 <= window
    &&& c.files.contains(path)
}

/// How many commits changed `path` within the window.
pub open spec fn touch_count(
    commits: Seq<Commit>,
    path: Seq<char>,
    now: int,
    window: int,
) -> nat
    decreases commits.len(),
{
    if commits.len() == 0 {
        0
    } else {
        touch_count(commits.drop_last(), path, now, window) + (if touches(
            commits.last(),
            path,
            now,
            window,
        ) {
            1nat
        } else {
            0nat
        })
    }
}

/// The authors of the commits that changed `path` within the window.
pub open spec fn authors_of(
    commits: Seq<Commit>,
    path: Seq<char>,
    now: int,
    window: int,
) -> Set<Seq<char>>
    decreases commits.len(),
{
    if commits.len() == 0 {
        Set::empty()
    } else {
        let before = authors_of(commits.drop_last(), path, now, window);
        if touches(commits.last(), path, now, window) {
            before.insert(commits.last().head.unwrap().1)
        } else {
            before
        }
    }
}

/// `stats` are the statistics of `path`.
pub open spec fn are_stats(
    stats: ChurnStats,
    commits: Seq<Commit>,
    path: Seq<char>,
    now: int,
) -> bool {
    &&& stats.commits_30d == touch_count(commits, path, now, WINDOW_30D_SECS as int)
    &&& stats.commits_90d == touch_count(commits, path, now, WINDOW_90D_SECS as int)
    &&& stats.authors_90d == authors_of(commits, path, now, WINDOW_90D_SECS as int).len()
}

/// A table holds the statistics of exactly the paths that changed within
/// ninety days.
pub open spec fn is_churn(table: ChurnTable, commits: Seq<Commit>, now: int) -> bool {
    &&& table.wf()
    &&& forall|k: int|
        0 <= k < table.entries@.len() ==> are_stats(
            (#[trigger] table.entries@[k]).stats,
            commits,
            table.entries@[k].path@,
            now,
        )
    &&& forall|p: Seq<char>|
        touch_count(commits, p, now, WINDOW_90D_SECS as int) > 0 <==> #[trigger] table_paths(
            table.entries@,
        ).contains(p)
}

// ------------------------------------------------------------- gathering

/// One file while a log is read.
#[derive(Debug)]
struct Tally {
    path: String,
    commits_30d: u32,
    commits_90d: u32,
    authors: Vec<String>,
}

spec fn tally_paths(acc: Seq<Tally>) -> Seq<Seq<char>> {
    acc.map_values(|t: Tally| t.path@)
}

spec fn is_tally(t: Tally, commits: Seq<Commit>, now: int) -> bool {
    &&& t.commits_30d == touch_count(commits, t.path@, now, WINDOW_30D_SECS as int)
    &&& t.commits_90d == touch_count(commits, t.path@, now, WINDOW_90D_SECS as int)
    &&& text::texts(t.authors@).no_duplicates()
    &&& text::texts(t.authors@).to_set() == authors_of(
        commits,
        t.path@,
        now,
        WINDOW_90D_SECS as int,
    )
}

spec fn are_tallies(acc: Seq<Tally>, commits: Seq<Commit>, now: int) -> bool {
    &&& text::ascending(tally_paths(acc))
    &&& forall|k: int| 0 <= k < acc.len() ==> is_tally(#[trigger] acc[k], commits, now)
    &&& forall|p: Seq<char>|
        touch_count(commits, p, now, WINDOW_90D_SECS as int) > 0 <==> #[trigger] tally_paths(
            acc,
        ).contains(p)
}

/// Where `path` stands among the tallies, or where it belongs.
fn find_tally(acc: &Vec<Tally>, path: &str) -> (r: (usize, bool))
    requires
        text::ascending(tally_paths(acc@)),
    ensures
        r.0 <= acc@.len(),
        r.1 ==> r.0 < acc@.len() && acc@[r.0 as int].path@ == path@,
        !r.1 ==> !tally_paths(acc@).contains(path@),
        forall|k: int|
            0 <= k < r.0 ==> text::text_le((#[trigger] acc@[k]).path@, path@) && acc@[k].path@
                != path@,
        forall|k: int|
            r.0 <= k < acc@.len() ==> text::text_le(path@, (#[trigger] acc@[k]).path@),
{
    let mut lo: usize = 0;
    let mut hi: usize = acc.len();
    while lo < hi
        invariant
            lo <= hi <= acc@.len(),
            text::ascending(tally_paths(acc@)),
            forall|k: int|
                0 <= k < lo ==> text::text_le((#[trigger] acc@[k]).path@, path@) && acc@[k].path@
                    != path@,
            forall|k: int|
                hi <= k < acc@.len() ==> text::text_le(path@, (#[trigger] acc@[k]).path@)
                    && acc@[k].path@ != path@,
        decreases hi - lo,
    {
        let mid: usize = lo + (hi - lo) / 2;
        let ghost paths = tally_paths(acc@);
        let ghost here = acc@[mid as int].path@;
        assert(paths[mid as int] == here);
        match text::rank(acc[mid].path.as_str(), path) {
            text::Rank::Same => {
                proof {
                    text::lemma_text_le_total(here, path@);
                    assert forall|k: int| 0 <= k < mid implies text::text_le(
                        (#[trigger] acc@[k]).path@,
                        path@,
                    ) && acc@[k].path@ != path@ by {
                        assert(paths[k] == acc@[k].path@);
                    }
                    assert forall|k: int| mid <= k < acc@.len() implies text::text_le(
                        path@,
                        (#[trigger] acc@[k]).path@,
                    ) by {
                        assert(paths[k] == acc@[k].path@);
                    }
                }
                return (mid, true);
            },
            text::Rank::Before => {
                assert forall|k: int| 0 <= k < mid + 1 implies text::text_le(
                    (#[trigger] acc@[k]).path@,
                    path@,
                ) && acc@[k].path@ != path@ by {
                    if k < mid {
                        assert(paths[k] == acc@[k].path@);
                        text::lemma_text_le_transitive(acc@[k].path@, here, path@);
                        if acc@[k].path@ == path@ {
                            text::lemma_text_le_antisymmetric(here, path@);
                        }
                    }
                }
                lo = mid + 1;
            },
            text::Rank::After => {
                proof {
                    text::lemma_text_le_total(here, path@);
                }
                assert forall|k: int| mid <= k < acc@.len() implies text::text_le(
                    path@,
                    (#[trigger] acc@[k]).path@,
                ) && acc@[k].path@ != path@ by {
                    if k > mid {
                        assert(paths[k] == acc@[k].path@);
                        text::lemma_text_le_transitive(path@, here, acc@[k].path@);
                        if acc@[k].path@ == path@ {
                            text::lemma_text_le_antisymmetric(here, path@);
                        }
                    }
                }
                hi = mid;
            },
        }
    }
    proof {
        let paths = tally_paths(acc@);
        if paths.contains(path@) {
            let k = choose|k: int| 0 <= k < paths.len() && paths[k] == path@;
            assert(acc@[k].path@ == path@);
        }
    }
    (lo, false)
}

proof fn lemma_touch_count_bound(commits: Seq<Commit>, path: Seq<char>, now: int, window: int)
    ensures
        touch_count(commits, path, now, window) <= commits.len(),
        touch_count(commits, path, now, WINDOW_30D_SECS as int) <= touch_count(
            commits,
            path,
            now,
            WINDOW_90D_SECS as int,
        ),
        authors_of(commits, path, now, window).finite(),
        authors_of(commits, path, now, window).len() <= touch_count(commits, path, now, window),
    decreases commits.len(),
{
    if commits.len() > 0 {
        lemma_touch_count_bound(commits.drop_last(), path, now, window);
    }
}

spec fn commit_of(head: (int, Seq<char>), files: Set<Seq<char>>) -> Commit {
    Commit { head: Some(head), files }
}

proof fn lemma_last_commit(commits: Seq<Commit>, c: Commit, path: Seq<char>, now: int, window: int)
    ensures
        touch_count(commits.push(c), path, now, window) == touch_count(commits, path, now, window)
            + (if touches(c, path, now, window) {
            1int
        } else {
            0int
        }),
        authors_of(commits.push(c), path, now, window) == (if touches(c, path, now, window) {
            authors_of(commits, path, now, window).insert(c.head.unwrap().1)
        } else {
            authors_of(commits, path, now, window)
        }),
{
    assert(commits.push(c).drop_last() =~= commits);
}

/// Adds one file of a commit within ninety days.
fn touch(
    acc: &mut Vec<Tally>,
    path: &str,
    author: &str,
    in_30d: bool,
    Ghost(commits): Ghost<Seq<Commit>>,
    Ghost(ts): Ghost<int>,
    Ghost(files): Ghost<Set<Seq<char>>>,
    Ghost(now): Ghost<int>,
)
    requires
        are_tallies(old(acc)@, commits.push(commit_of((ts, author@), files)), now),
        now - ts <= WINDOW_90D_SECS,
        in_30d == (now - ts <= WINDOW_30D_SECS),
        !files.contains(path@),
        commits.len() < u32::MAX,
    ensures
        are_tallies(
            final(acc)@,
            commits.push(commit_of((ts, author@), files.insert(path@))),
            now,
        ),
{
    let ghost was = acc@;
    let ghost c0 = commit_of((ts, author@), files);
    let ghost c1 = commit_of((ts, author@), files.insert(path@));
    let ghost before = commits.push(c0);
    let ghost after = commits.push(c1);
    let ghost w30 = WINDOW_30D_SECS as int;
    let ghost w90 = WINDOW_90D_SECS as int;
    proof {
        assert forall|p: Seq<char>| p != path@ implies touch_count(after, p, now, w30)
            == touch_count(before, p, now, w30) && #[trigger] touch_count(after, p, now, w90)
            == touch_count(before, p, now, w90) && authors_of(after, p, now, w90) == authors_of(
            before,
            p,
            now,
            w90,
        ) by {
            lemma_last_commit(commits, c0, p, now, w30);
            lemma_last_commit(commits, c1, p, now, w30);
            lemma_last_commit(commits, c0, p, now, w90);
            lemma_last_commit(commits, c1, p, now, w90);
        }
        lemma_last_commit(commits, c0, path@, now, w30);
        lemma_last_commit(commits, c1, path@, now, w30);
        lemma_last_commit(commits, c0, path@, now, w90);
        lemma_last_commit(commits, c1, path@, now, w90);
        lemma_touch_count_bound(commits, path@, now, w30);
        lemma_touch_count_bound(commits, path@, now, w90);
    }
    let (at, found) = find_tally(acc, path);
    if found {
        let t = &acc[at];
        let mut authors: Vec<String> = Vec::new();
        let mut i: usize = 0;
        while i < t.authors.len()
            invariant
                i <= t.authors@.len(),
                authors@ == t.authors@.take(i as int),
            decreases t.authors.len() - i,
        {
            authors.push(t.authors[i].clone());
            assert(authors@ =~= t.authors@.take(i as int + 1));
            i = i + 1;
        }
        assert(authors@ =~= t.authors@);
        let ghost old_authors = text::texts(authors@);
        if !text::has_string(&authors, author) {
            authors.push(String::from_str(author));
            assert(text::texts(authors@) =~= old_authors.push(author@));
        }
        proof {
            let new_authors = text::texts(authors@);
            assert(new_authors.no_duplicates());
            assert(new_authors.to_set() =~= old_authors.to_set().insert(author@)) by {
                assert forall|x: Seq<char>| new_authors.to_set().contains(x)
                    <==> old_authors.to_set().insert(author@).contains(x) by {
                    if old_authors.contains(x) {
                        let k = choose|k: int| 0 <= k < old_authors.len() && old_authors[k] == x;
                        assert(new_authors[k] == x);
                    }
                    if x == author@ && !old_authors.contains(x) {
                        assert(new_authors[old_authors.len() as int] == x);
                    }
                    if new_authors.contains(x) {
                        let k = choose|k: int| 0 <= k < new_authors.len() && new_authors[k] == x;
                        if k < old_authors.len() {
                            assert(old_authors[k] == x);
                        }
                    }
                }
            }
        }
        let commits_30d: u32 = if in_30d {
            t.commits_30d + 1
        } else {
            t.commits_30d
        };
        let commits_90d: u32 = t.commits_90d + 1;
        let own: String = t.path.clone();
        assert(is_tally(was[at as int], before, now));
        acc.set(at, Tally { path: own, commits_30d, commits_90d, authors });
        proof {
            assert(tally_paths(acc@) =~= tally_paths(was));
            assert forall|k: int| 0 <= k < acc@.len() implies is_tally(
                #[trigger] acc@[k],
                after,
                now,
            ) by {
                assert(is_tally(was[k], before, now));
                if k != at {
                    let x = tally_paths(was);
                    assert(x[k] == was[k].path@ && x[at as int] == path@);
                    assert(was[k].path@ != path@) by {
                        if k < at {
                            assert(text::text_le(x[k], x[at as int]) && x[k] != x[at as int]);
                        } else {
                            assert(text::text_le(x[at as int], x[k]) && x[k] != x[at as int]);
                        }
                    }
                    assert(touch_count(after, was[k].path@, now, w90) == touch_count(
                        before,
                        was[k].path@,
                        now,
                        w90,
                    ));
                }
            }
            assert forall|p: Seq<char>|
                touch_count(after, p, now, w90) > 0 <==> #[trigger] tally_paths(acc@).contains(p) by {
                assert(tally_paths(was).contains(p) <==> touch_count(before, p, now, w90) > 0);
                if p == path@ {
                    assert(tally_paths(acc@)[at as int] == p);
                } else {
                    assert(touch_count(after, p, now, w90) == touch_count(before, p, now, w90));
                }
            }
        }
    } else {
        let mut authors: Vec<String> = Vec::new();
        authors.push(String::from_str(author));
        let commits_30d: u32 = if in_30d {
            1
        } else {
            0
        };
        let t = Tally { path: String::from_str(path), commits_30d, commits_90d: 1, authors };
        proof {
            assert(!tally_paths(was).contains(path@));
            assert(touch_count(before, path@, now, w90) == 0) by {
                assert(touch_count(before, path@, now, w90) > 0 <==> tally_paths(was).contains(
                    path@,
                ));
            }
            lemma_touch_count_bound(before, path@, now, w90);
            lemma_no_authors(before, path@, now, w90);
            assert(text::texts(t.authors@) =~= seq![author@]);
            assert(seq![author@].to_set() =~= Set::empty().insert(author@)) by {
                assert forall|x: Seq<char>| seq![author@].to_set().contains(x) <==> x == author@ by {
                    assert(seq![author@][0] == author@);
                }
            }
            assert(is_tally(t, after, now));
        }
        let ghost fresh = t;
        acc.insert(at, t);
        proof {
            assert(acc@ =~= was.insert(at as int, fresh));
            let x = tally_paths(was);
            let y = tally_paths(acc@);
            assert(y =~= x.insert(at as int, path@));
            assert forall|i: int, j: int| 0 <= i < j < y.len() implies text::text_le(
                #[trigger] y[i],
                #[trigger] y[j],
            ) && y[i] != y[j] by {
                if i < at {
                    assert(y[i] == x[i] && x[i] == was[i].path@);
                    if j < at {
                        assert(y[j] == x[j]);
                    } else if j > at {
                        assert(y[j] == x[j - 1]);
                    }
                } else if i == at {
                    assert(y[j] == x[j - 1] && x[j - 1] == was[j - 1].path@);
                    assert(x.contains(x[j - 1]));
                } else {
                    assert(y[i] == x[i - 1] && y[j] == x[j - 1]);
                }
            }
            assert forall|k: int| 0 <= k < acc@.len() implies is_tally(
                #[trigger] acc@[k],
                after,
                now,
            ) by {
                if k != at {
                    let m = if k < at {
                        k
                    } else {
                        k - 1
                    };
                    assert(acc@[k] == was[m]);
                    assert(is_tally(was[m], before, now));
                    assert(x[m] == was[m].path@);
                    assert(x.contains(x[m]));
                    assert(touch_count(after, was[m].path@, now, w90) == touch_count(
                        before,
                        was[m].path@,
                        now,
                        w90,
                    ));
                }
            }
            assert forall|p: Seq<char>|
                touch_count(after, p, now, w90) > 0 <==> #[trigger] y.contains(p) by {
                assert(x.contains(p) <==> touch_count(before, p, now, w90) > 0);
                if x.contains(p) {
                    let k = choose|k: int| 0 <= k < x.len() && x[k] == p;
                    if k < at {
                        assert(y[k] == p);
                    } else {
                        assert(y[k + 1] == p);
                    }
                }
                if p == path@ {
                    assert(y[at as int] == p);
                } else {
                    assert(touch_count(after, p, now, w90) == touch_count(before, p, now, w90));
                    if y.contains(p) {
                        let k = choose|k: int| 0 <= k < y.len() && y[k] == p;
                        if k < at {
                            assert(x[k] == p);
                        } else {
                            assert(x[k - 1] == p);
                        }
                    }
                }
            }
        }
    }
}

proof fn lemma_no_authors(commits: Seq<Commit>, path: Seq<char>, now: int, window: int)
    requires
        touch_count(commits, path, now, window) == 0,
    ensures
        authors_of(commits, path, now, window) == Set::<Seq<char>>::empty(),
    decreases commits.len(),
{
    if commits.len() > 0 {
        lemma_no_authors(commits.drop_last(), path, now, window);
    }
}

proof fn lemma_idle_commit(acc: Seq<Tally>, commits: Seq<Commit>, c: Commit, now: int)
    requires
        are_tallies(acc, commits, now),
        forall|p: Seq<char>| !touches(c, p, now, WINDOW_90D_SECS as int),
    ensures
        are_tallies(acc, commits.push(c), now),
{
    let w30 = WINDOW_30D_SECS as int;
    let w90 = WINDOW_90D_SECS as int;
    assert forall|k: int| 0 <= k < acc.len() implies is_tally(
        #[trigger] acc[k],
        commits.push(c),
        now,
    ) by {
        let p = acc[k].path@;
        assert(!touches(c, p, now, w90));
        lemma_last_commit(commits, c, p, now, w30);
        lemma_last_commit(commits, c, p, now, w90);
    }
    assert forall|p: Seq<char>|
        touch_count(commits.push(c), p, now, w90) > 0 <==> #[trigger] tally_paths(acc).contains(p) by {
        assert(!touches(c, p, now, w90));
        lemma_last_commit(commits, c, p, now, w90);
        assert(touch_count(commits, p, now, w90) > 0 <==> tally_paths(acc).contains(p));
    }
}

/// Adds a commit to the tallies; one older than ninety days adds nothing.
fn apply_commit(
    acc: &mut Vec<Tally>,
    ts: i64,
    author: &str,
    files: &Vec<String>,
    now: i64,
    Ghost(commits): Ghost<Seq<Commit>>,
)
    requires
        are_tallies(old(acc)@, commits, now as int),
        text::texts(files@).no_duplicates(),
        commits.len() < u32::MAX,
    ensures
        are_tallies(
            final(acc)@,
            commits.push(commit_of((ts as int, author@), text::texts(files@).to_set())),
            now as int,
        ),
{
    let age: i128 = (now as i128) - (ts as i128);
    let ghost all = text::texts(files@);
    if age > WINDOW_90D_SECS as i128 {
        proof {
            lemma_idle_commit(
                acc@,
                commits,
                commit_of((ts as int, author@), all.to_set()),
                now as int,
            );
        }
        return;
    }
    let in_30d = age <= WINDOW_30D_SECS as i128;
    let mut i: usize = 0;
    proof {
        assert(all.take(0).to_set() =~= Set::<Seq<char>>::empty());
        lemma_idle_commit(
            acc@,
            commits,
            commit_of((ts as int, author@), all.take(0).to_set()),
            now as int,
        );
    }
    while i < files.len()
        invariant
            i <= files@.len(),
            all == text::texts(files@),
            all.no_duplicates(),
            commits.len() < u32::MAX,
            age == now - ts,
            age <= WINDOW_90D_SECS,
            in_30d == (age <= WINDOW_30D_SECS),
            are_tallies(
                acc@,
                commits.push(commit_of((ts as int, author@), all.take(i as int).to_set())),
                now as int,
            ),
        decreases files.len() - i,
    {
        let ghost head = all.take(i as int);
        let ghost more = all.take(i as int + 1);
        proof {
            assert(all[i as int] == files@[i as int]@);
            assert(!head.contains(all[i as int])) by {
                if head.contains(all[i as int]) {
                    let k = choose|k: int| 0 <= k < head.len() && head[k] == all[i as int];
                    assert(all[k] == all[i as int]);
                }
            }
            assert(more.to_set() =~= head.to_set().insert(all[i as int])) by {
                assert forall|x: Seq<char>| more.to_set().contains(x) <==> head.to_set().insert(
                    all[i as int],
                ).contains(x) by {
                    if head.contains(x) {
                        let k = choose|k: int| 0 <= k < head.len() && head[k] == x;
                        assert(more[k] == x);
                    }
                    if x == all[i as int] {
                        assert(more[i as int] == x);
                    }
                    if more.contains(x) {
                        let k = choose|k: int| 0 <= k < more.len() && more[k] == x;
                        if k < i {
                            assert(head[k] == x);
                        }
                    }
                }
            }
        }
        touch(
            acc,
            files[i].as_str(),
            author,
            in_30d,
            Ghost(commits),
            Ghost(ts as int),
            Ghost(head.to_set()),
            Ghost(now as int),
        );
        i = i + 1;
    }
    assert(all.take(all.len() as int) =~= all);
}

/// Reads a commit header.
fn parse_header(line: &[char]) -> (r: Option<(i64, String)>)
    requires
        is_header(line@),
    ensures
        match r {
            Some((ts, author)) => header_of(line@) == Some((ts as int, author@)),
            None => header_of(line@) is None,
        },
{
    let body = text::slice_of(line, 1, line.len());
    assert(body@ =~= line@.drop_first());
    let fields = text::split_on(&body, UNIT_SEP);
    let ghost parts = text::rows(fields@);
    if fields.len() < 2 {
        return None;
    }
    assert(parts[0] == fields@[0]@ && parts[1] == fields@[1]@);
    let author = text::trim(&fields[1]);
    match text::parse_i64(&text::trim(&fields[0])) {
        Some(ts) => {
            if author.len() > 0 {
                Some((ts, text::string_of(&author)))
            } else {
                None
            }
        },
        None => None,
    }
}

spec fn open_commit(current: Option<(i64, String)>, files: Seq<String>) -> Commit {
    Commit {
        head: match current {
            Some((ts, author)) => Some((ts as int, author@)),
            None => None,
        },
        files: text::texts(files).to_set(),
    }
}

proof fn lemma_commits_bound(lines: Seq<Seq<char>>)
    ensures
        commits_of(lines).len() <= lines.len(),
    decreases lines.len(),
{
    if lines.len() > 0 {
        lemma_commits_bound(lines.drop_last());
    }
}

proof fn lemma_commits_grow(lines: Seq<Seq<char>>, k: int)
    requires
        0 <= k <= lines.len(),
    ensures
        commits_of(lines.take(k)).len() <= commits_of(lines).len(),
    decreases lines.len(),
{
    if k < lines.len() {
        lemma_commits_grow(lines.drop_last(), k);
        assert(lines.drop_last().take(k) =~= lines.take(k));
    } else {
        assert(lines.take(k) =~= lines);
    }
}

/// Closes the commit that is being read.
fn close_commit(
    acc: &mut Vec<Tally>,
    current: &Option<(i64, String)>,
    files: &Vec<String>,
    now: i64,
    Ghost(commits): Ghost<Seq<Commit>>,
    Ghost(last): Ghost<Commit>,
)
    requires
        are_tallies(old(acc)@, commits, now as int),
        text::texts(files@).no_duplicates(),
        commits.len() < u32::MAX,
        current is Some ==> last == open_commit(*current, files@),
        current is None ==> last.head is None,
    ensures
        are_tallies(final(acc)@, commits.push(last), now as int),
{
    match current {
        Some((ts, author)) => {
            apply_commit(acc, *ts, author.as_str(), files, now, Ghost(commits));
        },
        None => {
            proof {
                lemma_idle_commit(acc@, commits, last, now as int);
            }
        },
    }
}

/// Reads the churn of a log whose commits each begin with a header line, the
/// separator and then time and author, and name one file on each line after
/// it. Ages count from `now`.
pub fn parse_log(raw: &str, now: i64) -> (table: ChurnTable)
    requires
        commits_of(text::lines_of(raw@)).len() <= u32::MAX,
    ensures
        is_churn(table, commits_of(text::lines_of(raw@)), now as int),
{
    let lines = text::split_lines(&text::chars_of(raw));
    let ghost all = text::lines_of(raw@);
    let mut acc: Vec<Tally> = Vec::new();
    let mut current: Option<(i64, String)> = None;
    let mut files: Vec<String> = Vec::new();
    let mut i: usize = 0;
    proof {
        assert(all.take(0) =~= Seq::<Seq<char>>::empty());
        assert(are_tallies(acc@, Seq::<Commit>::empty(), now as int)) by {
            assert(tally_paths(acc@) =~= Seq::<Seq<char>>::empty());
        }
        assert(text::texts(files@) =~= Seq::<Seq<char>>::empty());
    }
    while i < lines.len()
        invariant
            i <= lines@.len(),
            all == text::rows(lines@),
            commits_of(all).len() <= u32::MAX,
            text::texts(files@).no_duplicates(),
            commits_of(all.take(i as int)).len() == 0 ==> current is None && are_tallies(
                acc@,
                Seq::<Commit>::empty(),
                now as int,
            ),
            commits_of(all.take(i as int)).len() > 0 ==> {
                let cs = commits_of(all.take(i as int));
                &&& are_tallies(acc@, cs.drop_last(), now as int)
                &&& current is Some ==> cs.last() == open_commit(current, files@)
                &&& current is None ==> cs.last().head is None
            },
        decreases lines.len() - i,
    {
        let line = &lines[i];
        let ghost cs = commits_of(all.take(i as int));
        proof {
            assert(all.take(i as int + 1).drop_last() =~= all.take(i as int));
            assert(all[i as int] == line@);
            lemma_commits_grow(all, i as int + 1);
        }
        if line.len() > 0 && line[0] == UNIT_SEP {
            let ghost opened = cs.push(Commit { head: header_of(line@), files: Set::empty() });
            proof {
                assert(commits_of(all.take(i as int + 1)) == opened);
                assert(opened.drop_last() =~= cs);
            }
            if i > 0 {
                proof {
                    if cs.len() == 0 {
                        assert(cs =~= Seq::<Commit>::empty());
                    } else {
                        assert(cs =~= cs.drop_last().push(cs.last()));
                    }
                }
            } else {
                assert(cs =~= Seq::<Commit>::empty());
            }
            if current.is_some() {
                close_commit(
                    &mut acc,
                    &current,
                    &files,
                    now,
                    Ghost(cs.drop_last()),
                    Ghost(cs.last()),
                );
            } else {
                proof {
                    if cs.len() > 0 {
                        lemma_idle_commit(acc@, cs.drop_last(), cs.last(), now as int);
                    }
                }
            }
            assert(are_tallies(acc@, cs, now as int));
            files = Vec::new();
            current = parse_header(line);
            proof {
                assert(text::texts(files@) =~= Seq::<Seq<char>>::empty());
                assert(text::texts(files@).to_set() =~= Set::<Seq<char>>::empty());
            }
        } else if current.is_some() {
            let ghost was = text::texts(files@);
            assert(cs.len() > 0);
            if let Some(path) = clean_path(line) {
                if !text::has_string(&files, path.as_str()) {
                    let ghost added = path@;
                    files.push(path);
                    assert(text::texts(files@) =~= was.push(added));
                }
                proof {
                    let now_set = text::texts(files@);
                    let added = cleaned(line@).unwrap();
                    assert(now_set.to_set() =~= was.to_set().insert(added)) by {
                        assert forall|x: Seq<char>| now_set.to_set().contains(x)
                            <==> was.to_set().insert(added).contains(x) by {
                            if was.contains(x) {
                                let k = choose|k: int| 0 <= k < was.len() && was[k] == x;
                                assert(now_set[k] == x);
                            }
                            if x == added && !was.contains(x) {
                                assert(now_set[was.len() as int] == x);
                            }
                            if now_set.contains(x) {
                                let k = choose|k: int| 0 <= k < now_set.len() && now_set[k] == x;
                                if k < was.len() {
                                    assert(was[k] == x);
                                }
                            }
                        }
                    }
                    let next = commits_of(all.take(i as int + 1));
                    assert(next.drop_last() =~= cs.drop_last());
                }
            }
        } else {
            proof {
                let next = commits_of(all.take(i as int + 1));
                if cs.len() > 0 {
                    assert(next.drop_last() =~= cs.drop_last());
                }
            }
        }
        i = i + 1;
    }
    let ghost cs = commits_of(all);
    proof {
        assert(all.take(all.len() as int) =~= all);
        if cs.len() == 0 {
            assert(cs =~= Seq::<Commit>::empty());
        } else {
            assert(cs =~= cs.drop_last().push(cs.last()));
        }
    }
    if current.is_some() {
        close_commit(&mut acc, &current, &files, now, Ghost(cs.drop_last()), Ghost(cs.last()));
    } else {
        proof {
            if cs.len() > 0 {
                lemma_idle_commit(acc@, cs.drop_last(), cs.last(), now as int);
            }
        }
    }
    assert(are_tallies(acc@, cs, now as int));
    let mut entries: Vec<ChurnEntry> = Vec::new();
    let mut k: usize = 0;
    while k < acc.len()
        invariant
            k <= acc@.len(),
            are_tallies(acc@, cs, now as int),
            cs.len() <= u32::MAX,
            entries@.len() == k,
            forall|j: int|
                0 <= j < k ==> (#[trigger] entries@[j]).path@ == acc@[j].path@ && are_stats(
                    entries@[j].stats,
                    cs,
                    entries@[j].path@,
                    now as int,
                ),
        decreases acc.len() - k,
    {
        let t = &acc[k];
        proof {
            let w = WINDOW_90D_SECS as int;
            assert(is_tally(acc@[k as int], cs, now as int));
            text::texts(t.authors@).unique_seq_to_set();
            assert(text::texts(t.authors@).len() == t.authors@.len());
            lemma_touch_count_bound(cs, t.path@, now as int, w);
        }
        entries.push(
            ChurnEntry {
                path: t.path.clone(),
                stats: ChurnStats {
                    commits_30d: t.commits_30d,
                    commits_90d: t.commits_90d,
                    authors_90d: t.authors.len() as u32,
                },
            },
        );
        k = k + 1;
    }
    assert(table_paths(entries@) =~= tally_paths(acc@));
    ChurnTable { entries }
}

/// `e` is an entry of `table`, its path seen from `prefix`.
pub open spec fn is_rebased_entry(
    e: ChurnEntry,
    table: Seq<ChurnEntry>,
    prefix: Seq<char>,
) -> bool {
    exists|m: int|
        0 <= m < table.len() && rebased((#[trigger] table[m]).path@, prefix) == Some(e.path@)
            && table[m].stats == e.stats
}

/// The entry `e`, its path seen from `prefix`, is in `out`.
pub open spec fn holds_rebased(out: Seq<ChurnEntry>, e: ChurnEntry, prefix: Seq<char>) -> bool {
    exists|k: int|
        0 <= k < out.len() && Some((#[trigger] out[k]).path@) == rebased(e.path@, prefix)
            && out[k].stats == e.stats
}

/// The churn of the files below the directory `prefix`, by their paths as seen
/// from there.
pub fn rebase_table(table: &ChurnTable, prefix: &str) -> (out: ChurnTable)
    requires
        table.wf(),
    ensures
        out.wf(),
        forall|k: int|
            0 <= k < out.entries@.len() ==> is_rebased_entry(
                #[trigger] out.entries@[k],
                table.entries@,
                prefix@,
            ),
        forall|m: int|
            0 <= m < table.entries@.len() && rebased(
                (#[trigger] table.entries@[m]).path@,
                prefix@,
            ) is Some ==> holds_rebased(out.entries@, table.entries@[m], prefix@),
{
    let mut entries: Vec<ChurnEntry> = Vec::new();
    let ghost mut from: Seq<int> = Seq::empty();
    let mut i: usize = 0;
    while i < table.entries.len()
        invariant
            i <= table.entries@.len(),
            table.wf(),
            from.len() == entries@.len(),
            forall|k: int|
                0 <= k < from.len() ==> 0 <= #[trigger] from[k] < i && rebased(
                    table.entries@[from[k]].path@,
                    prefix@,
                ) == Some(entries@[k].path@) && table.entries@[from[k]].stats == entries@[k].stats,
            forall|j: int, k: int| 0 <= j < k < from.len() ==> #[trigger] from[j] < #[trigger] from[k],
            forall|m: int|
                0 <= m < i && rebased((#[trigger] table.entries@[m]).path@, prefix@) is Some
                    ==> from.contains(m),
        decreases table.entries.len() - i,
    {
        let ghost was = from;
        let entry = &table.entries[i];
        if let Some(path) = rebase_path(entry.path.as_str(), prefix) {
            entries.push(ChurnEntry { path, stats: entry.stats });
            proof {
                from = from.push(i as int);
            }
        }
        assert forall|m: int|
            0 <= m < i + 1 && rebased((#[trigger] table.entries@[m]).path@, prefix@) is Some implies from.contains(
            m,
        ) by {
            if m < i {
                let k = choose|k: int| 0 <= k < was.len() && was[k] == m;
                assert(from[k] == m);
            } else {
                assert(from[was.len() as int] == m);
            }
        }
        i = i + 1;
    }
    let out = ChurnTable { entries };
    proof {
        let x = table_paths(table.entries@);
        let y = table_paths(out.entries@);
        assert forall|a: int, b: int| 0 <= a < b < y.len() implies text::text_le(
            #[trigger] y[a],
            #[trigger] y[b],
        ) && y[a] != y[b] by {
            assert(from[a] < from[b]);
            let p = table.entries@[from[a]].path@;
            let q = table.entries@[from[b]].path@;
            assert(x[from[a]] == p && x[from[b]] == q);
            lemma_rebased_order(p, q, prefix@);
        }
        assert forall|k: int| 0 <= k < out.entries@.len() implies is_rebased_entry(
            #[trigger] out.entries@[k],
            table.entries@,
            prefix@,
        ) by {
            let m = from[k];
            assert(rebased(table.entries@[m].path@, prefix@) == Some(out.entries@[k].path@));
        }
        assert forall|m: int|
            0 <= m < table.entries@.len() && rebased(
                (#[trigger] table.entries@[m]).path@,
                prefix@,
            ) is Some implies holds_rebased(out.entries@, table.entries@[m], prefix@) by {
            let k = choose|k: int| 0 <= k < from.len() && from[k] == m;
            assert(from[k] == m);
            assert(out.entries@[k].stats == table.entries@[m].stats);
        }
    }
    out
}

/// The churn of the files below a directory, from what the version control
/// system printed: the place of the directory in the repository, and the log.
/// Without either there is no churn.
pub fn compute_churn(prefix: Option<&str>, log: Option<&str>, now: i64) -> (out: ChurnTable)
    requires
        log matches Some(raw) ==> commits_of(text::lines_of(raw@)).len() <= u32::MAX,
    ensures
        out.wf(),
        prefix is None || log is None ==> out.entries@.len() == 0,
        prefix matches Some(dir) ==> log matches Some(raw) ==> is_churn_below(
            out,
            commits_of(text::lines_of(raw@)),
            text::trimmed(dir@),
            now as int,
        ),
{
    match (prefix, log) {
        (Some(dir), Some(raw)) => {
            let own = text::string_of(&text::trim(&text::chars_of(dir)));
            let table = parse_log(raw, now);
            let out = rebase_table(&table, own.as_str());
            proof {
                let commits = commits_of(text::lines_of(raw@));
                let place = text::trimmed(dir@);
                assert forall|k: int| 0 <= k < out.entries@.len() implies has_stats_below(
                    #[trigger] out.entries@[k],
                    commits,
                    place,
                    now as int,
                ) by {
                    assert(is_rebased_entry(out.entries@[k], table.entries@, place));
                    let m = choose|m: int|
                        0 <= m < table.entries@.len() && rebased(
                            (#[trigger] table.entries@[m]).path@,
                            place,
                        ) == Some(out.entries@[k].path@) && table.entries@[m].stats
                            == out.entries@[k].stats;
                    let p = table.entries@[m].path@;
                    assert(table_paths(table.entries@)[m] == p);
                    assert(table_paths(table.entries@).contains(p));
                    assert(are_stats(
                        out.entries@[k].stats,
                        commits,
                        p,
                        now as int,
                    ));
                }
                assert forall|p: Seq<char>|
                    rebased(p, place) is Some && #[trigger] touch_count(
                        commits,
                        p,
                        now as int,
                        WINDOW_90D_SECS as int,
                    ) > 0 implies table_paths(out.entries@).contains(rebased(p, place).unwrap()) by {
                    let x = table_paths(table.entries@);
                    assert(x.contains(p));
                    let m = choose|m: int| 0 <= m < x.len() && x[m] == p;
                    assert(table.entries@[m].path@ == p);
                    assert(holds_rebased(out.entries@, table.entries@[m], place));
                    let k = choose|k: int|
                        0 <= k < out.entries@.len() && Some((#[trigger] out.entries@[k]).path@)
                            == rebased(p, place) && out.entries@[k].stats == table.entries@[m].stats;
                    assert(table_paths(out.entries@)[k] == rebased(p, place).unwrap());
                }
            }
            out
        },
        _ => ChurnTable::new(),
    }
}

/// `e` holds the statistics of a path below the directory `place` that changed, as
/// seen from there.
pub open spec fn has_stats_below(
    e: ChurnEntry,
    commits: Seq<Commit>,
    place: Seq<char>,
    now: int,
) -> bool {
    exists|p: Seq<char>|
        rebased(p, place) == Some(e.path@) && #[trigger] are_stats(e.stats, commits, p, now)
            && e.stats.commits_90d > 0
}

/// A table holds the statistics of exactly the paths below the directory
/// `place` that changed within ninety days, as seen from there.
pub open spec fn is_churn_below(
    table: ChurnTable,
    commits: Seq<Commit>,
    place: Seq<char>,
    now: int,
) -> bool {
    &&& table.wf()
    &&& forall|k: int|
        0 <= k < table.entries@.len() ==> has_stats_below(
            #[trigger] table.entries@[k],
            commits,
            place,
            now,
        )
    &&& forall|p: Seq<char>|
        rebased(p, place) is Some && #[trigger] touch_count(
            commits,
            p,
            now,
            WINDOW_90D_SECS as int,
        ) > 0 ==> table_paths(table.entries@).contains(rebased(p, place).unwrap())
}

proof fn lemma_text_le_common_prefix(p: Seq<char>, a: Seq<char>, b: Seq<char>)
    ensures
        text::text_le(p + a, p + b) == text::text_le(a, b),
    decreases p.len(),
{
    if p.len() == 0 {
        assert(p + a =~= a);
        assert(p + b =~= b);
    } else {
        lemma_text_le_common_prefix(p.drop_first(), a, b);
        assert((p + a).drop_first() =~= p.drop_first() + a);
        assert((p + b).drop_first() =~= p.drop_first() + b);
    }
}

proof fn lemma_rebased_order(p: Seq<char>, q: Seq<char>, prefix: Seq<char>)
    requires
        rebased(p, prefix) is Some,
        rebased(q, prefix) is Some,
        text::text_le(p, q),
        p != q,
    ensures
        text::text_le(rebased(p, prefix).unwrap(), rebased(q, prefix).unwrap()),
        rebased(p, prefix) != rebased(q, prefix),
{
    if prefix.len() > 0 {
        let dir = if prefix.last() == '/' {
            prefix
        } else {
            prefix.push('/')
        };
        let a = p.skip(dir.len() as int);
        let b = q.skip(dir.len() as int);
        assert(p =~= dir + a);
        assert(q =~= dir + b);
        lemma_text_le_common_prefix(dir, a, b);
    }
}

/// Two different paths below a directory stay different when seen from there.
pub proof fn law_rebasing_keeps_paths_apart(p: Seq<char>, q: Seq<char>, prefix: Seq<char>)
    requires
        rebased(p, prefix) is Some,
        rebased(p, prefix) == rebased(q, prefix),
    ensures
        p == q,
{
    if prefix.len() > 0 {
        let dir = if prefix.last() == '/' {
            prefix
        } else {
            prefix.push('/')
        };
        assert(p =~= dir + p.skip(dir.len() as int));
        assert(q =~= dir + q.skip(dir.len() as int));
    }
}

/// A file that changed within thirty days changed within ninety, and had no
/// more authors than commits.
pub proof fn law_windows_nest(stats: ChurnStats, commits: Seq<Commit>, path: Seq<char>, now: int)
    requires
        are_stats(stats, commits, path, now),
    ensures
        stats.commits_30d <= stats.commits_90d,
        stats.authors_90d <= stats.commits_90d,
{
    lemma_touch_count_bound(commits, path, now, WINDOW_90D_SECS as int);
}

// -------------------------------------------------------- version control

/// How long the version control system may take in all, in milliseconds.
pub const GIT_TIMEOUT: u64 = 10_000;

/// The pause between two looks at it, in milliseconds.
pub const POLL_INTERVAL: u64 = 20;

/// What the version control system is asked for to learn the place of a
/// directory in its repository.
pub fn prefix_args() -> (r: Vec<&'static str>)
    ensures
        r@.len() == 2,
        r@[0]@ == "rev-parse"@,
        r@[1]@ == "--show-prefix"@,
{
    vec!["rev-parse", "--show-prefix"]
}

/// What the version control system is asked for to get the log.
pub fn log_args() -> (r: Vec<&'static str>)
    ensures
        r@.len() == 4,
        r@[0]@ == "log"@,
        r@[1]@ == "--since=90.days"@,
        r@[2]@ == "--name-only"@,
        r@[3]@ == "--pretty=format:%x1f%at%x1f%an"@,
{
    vec!["log", "--since=90.days", "--name-only", "--pretty=format:%x1f%at%x1f%an"]
}

/// What a look at a running program showed.
#[derive(Clone, Copy, Debug, PartialEq, Eq, Structural)]
pub enum Sighting {
    /// It has ended, and whether that went well.
    Ended(bool),
    Running,
    /// It could not be looked at.
    Lost,
}

/// What is done about a running program next.
#[derive(Clone, Copy, Debug, PartialEq, Eq, Structural)]
pub enum GitStep {
    /// What it printed is used.
    Read,
    /// What it printed is not used.
    GiveUp,
    /// It is stopped, and what it printed is not used.
    Kill,
    Sleep,
}

/// What is done about a running program next. Its time is up at `deadline`.
pub fn git_step(seen: Sighting, now: u64, deadline: u64) -> (r: GitStep)
    ensures
        r == (match seen {
            Sighting::Ended(well) => if well {
                GitStep::Read
            } else {
                GitStep::GiveUp
            },
            Sighting::Running => if now >= deadline {
                GitStep::Kill
            } else {
                GitStep::Sleep
            },
            Sighting::Lost => GitStep::Kill,
        }),
{
    match seen {
        Sighting::Ended(true) => GitStep::Read,
        Sighting::Ended(false) => GitStep::GiveUp,
        Sighting::Running => {
            if now >= deadline {
                GitStep::Kill
            } else {
                GitStep::Sleep
            }
        },
        Sighting::Lost => GitStep::Kill,
    }
}

} // verus!
