//! How often files change.

use crate::churn;
use crate::churn::{ChurnEntry, ChurnStats, ChurnTable, GitStep, Sighting};
use crate::laws;
use crate::text;
use vstd::prelude::*;

verus! {

/// `rest` is the path `path` as seen from the directory `place`, which may or may
/// not be written with a slash at its end.
pub open spec fn lies_below(path: Seq<char>, place: Seq<char>, rest: Seq<char>) -> bool {
    if place.len() == 0 {
        path == rest
    } else if place.last() == '/' {
        path == place + rest && rest.len() > 0
    } else {
        path == place + seq!['/'] + rest && rest.len() > 0
    }
}

proof fn lemma_rebased(path: Seq<char>, place: Seq<char>, rest: Seq<char>)
    ensures
        lies_below(path, place, rest) <==> churn::rebased(path, place) == Some(rest),
{
    if place.len() > 0 {
        let dir = if place.last() == '/' {
            place
        } else {
            place + seq!['/']
        };
        assert(place.push('/') =~= place + seq!['/']);
        if lies_below(path, place, rest) {
            assert(path.take(dir.len() as int) =~= dir);
            assert(path.skip(dir.len() as int) =~= rest);
        }
        if dir.is_prefix_of(path) && path.skip(dir.len() as int) == rest {
            assert(path =~= dir + rest);
        }
    }
}

/// A path is seen from a directory as what follows the directory and a slash in
/// it; a path that does not go on below the directory is not seen from there.
pub proof fn law_paths_are_seen_from_a_directory(
    path: &str,
    place: &str,
    r: Option<String>,
    rest: Seq<char>,
)
    requires
        call_ensures(churn::rebase_path, (path, place), r),
    ensures
        lies_below(path@, place@, rest) <==> (r matches Some(t) && t@ == rest),
{
    lemma_rebased(path@, place@, rest);
}

/// Every character is white space.
pub open spec fn is_blank(s: Seq<char>) -> bool {
    forall|k: int| 0 <= k < s.len() ==> text::is_white_space(#[trigger] s[k])
}

/// White space stands neither first nor last.
pub open spec fn is_bare(s: Seq<char>) -> bool {
    s.len() > 0 && !text::is_white_space(s[0]) && !text::is_white_space(s.last())
}

pub(crate) proof fn lemma_trimmed(a: Seq<char>, s: Seq<char>, b: Seq<char>)
    requires
        is_blank(a),
        is_blank(b),
        is_bare(s),
    ensures
        text::trimmed(a + s + b) == s,
    decreases a.len() + b.len(),
{
    let whole = a + s + b;
    if a.len() > 0 {
        assert(whole[0] == a[0]);
        assert(whole.drop_first() =~= a.drop_first() + s + b);
        assert forall|k: int| 0 <= k < a.drop_first().len() implies text::is_white_space(
            #[trigger] a.drop_first()[k],
        ) by {
            assert(a.drop_first()[k] == a[k + 1]);
        }
        lemma_trimmed(a.drop_first(), s, b);
    } else {
        assert(whole =~= s + b);
        assert(whole[0] == s[0]);
        assert(text::trimmed_start(whole) == whole);
        if b.len() > 0 {
            assert(whole.last() == b.last());
            assert(text::is_white_space(b[b.len() - 1]));
            assert(whole.drop_last() =~= a + s + b.drop_last());
            lemma_trimmed(a, s, b.drop_last());
            assert(whole.drop_last()[0] == s[0]);
            assert(text::trimmed_start(whole.drop_last()) == whole.drop_last());
        } else {
            assert(whole =~= s);
        }
    }
}

/// A line of a log names what stands on it between white space, without the quotes
/// round it if there are any.
pub proof fn law_lines_name_paths(
    line: &[char],
    r: Option<String>,
    a: Seq<char>,
    name: Seq<char>,
    b: Seq<char>,
)
    requires
        call_ensures(churn::clean_path, (line,), r),
        is_blank(a),
        is_blank(b),
        is_bare(name),
        !name.contains('"'),
        !name.contains('\\'),
        !name.contains('\u{1f}'),
        line@ == a + name + b || line@ == a + (seq!['"'] + name + seq!['"']) + b,
    ensures
        r matches Some(path) && path@ == name,
{
    if line@ == a + name + b {
        lemma_trimmed(a, name, b);
        assert(name.contains(name[0]));
    } else {
        let quoted = seq!['"'] + name + seq!['"'];
        assert(is_bare(quoted));
        lemma_trimmed(a, quoted, b);
        assert(quoted.subrange(1, quoted.len() - 1) =~= name);
        assert forall|k: int| 0 <= k < quoted.len() implies #[trigger] quoted[k] != '\u{1f}' by {
            if 0 < k < quoted.len() - 1 {
                assert(quoted[k] == name[k - 1]);
                assert(name.contains(name[k - 1]));
            }
        }
        assert(!quoted.contains('\u{1f}'));
    }
}

/// A path that a line names stands on it, and holds no quote and no separator. A
/// blank line names none.
pub proof fn law_named_paths_stand_on_their_lines(line: &[char], r: Option<String>)
    requires
        call_ensures(churn::clean_path, (line,), r),
    ensures
        r matches Some(path) ==> !path@.contains('"') && !path@.contains('\u{1f}') && (path@
            == text::trimmed(line@) || seq!['"'] + path@ + seq!['"'] == text::trimmed(line@)),
        is_blank(line@) ==> r is None,
        line@.contains('\u{1f}') && !text::is_white_space('\u{1f}') ==> r is None,
{
    let t = text::trimmed(line@);
    let (from, to) = laws::text::law_trimming_takes_white_space_off_the_ends(line@);
    if let Some(path) = r {
        if t.len() >= 2 && t[0] == '"' && t.last() == '"' {
            assert(seq!['"'] + path@ + seq!['"'] =~= t);
            if path@.contains('\u{1f}') {
                let k = choose|k: int| 0 <= k < path@.len() && path@[k] == '\u{1f}';
                assert(t[k + 1] == '\u{1f}');
                assert(t.contains('\u{1f}'));
            }
        }
    }
    if is_blank(line@) && t.len() > 0 {
        assert(text::is_white_space(line@[from]));
    }
    if line@.contains('\u{1f}') && !text::is_white_space('\u{1f}') {
        let k = choose|k: int| 0 <= k < line@.len() && line@[k] == '\u{1f}';
        assert(from <= k < to);
        assert(t[k - from] == '\u{1f}');
        assert(t.contains('\u{1f}'));
    }
}

/// A header holds the time and the author behind a separator each; what follows
/// behind a third is not read. One without both is no use.
pub proof fn law_headers_hold_time_and_author(
    time: Seq<char>,
    author: Seq<char>,
    rest: Seq<char>,
)
    requires
        !time.contains('\u{1f}'),
        !author.contains('\u{1f}'),
        rest.len() == 0 || rest[0] == '\u{1f}',
    ensures
        churn::is_header(seq!['\u{1f}'] + time),
        churn::header_of(seq!['\u{1f}'] + time) is None,
        churn::is_header(seq!['\u{1f}'] + time + seq!['\u{1f}'] + author + rest),
        churn::header_of(seq!['\u{1f}'] + time + seq!['\u{1f}'] + author + rest) == (
        match text::signed_value(text::trimmed(time)) {
            Some(ts) if -0x8000_0000_0000_0000 <= ts <= 0x7fff_ffff_ffff_ffff && !is_blank(
                author,
            ) => Some((ts, text::trimmed(author))),
            _ => None,
        }),
{
    let sep = '\u{1f}';
    let short = seq![sep] + time;
    let line = seq![sep] + time + seq![sep] + author + rest;
    assert(short.drop_first() =~= time);
    laws::text::law_texts_are_cut_everywhere(time, Seq::empty(), sep);
    laws::text::law_texts_are_cut_everywhere(author, Seq::empty(), sep);
    let tail = author + rest;
    assert(line.drop_first() =~= time.push(sep) + tail);
    laws::text::law_texts_are_cut_everywhere(time, tail, sep);
    text::lemma_pieces_nonempty(tail, sep);
    if rest.len() > 0 {
        assert(tail =~= author.push(sep) + rest.drop_first());
        laws::text::law_texts_are_cut_everywhere(author, rest.drop_first(), sep);
    } else {
        assert(tail =~= author);
    }
    assert(text::pieces(tail, sep)[0] == author);
    let fields = text::pieces(line.drop_first(), sep);
    assert(fields[0] == time);
    assert(fields[1] == author);
    let (from, to) = laws::text::law_trimming_takes_white_space_off_the_ends(author);
    if is_blank(author) && from < to {
        assert(text::is_white_space(author[from]));
    }
}

// ---------------------------------------------------------------- counting

/// A table says this of a path; of a path that it does not hold, that nothing
/// happened to it.
pub open spec fn says(entries: Seq<ChurnEntry>, path: Seq<char>, stats: ChurnStats) -> bool {
    ||| exists|k: int|
        0 <= k < entries.len() && (#[trigger] entries[k]).path@ == path && entries[k].stats
            == stats
    ||| {
        &&& forall|k: int| 0 <= k < entries.len() ==> (#[trigger] entries[k]).path@ != path
        &&& stats.commits_30d == 0 && stats.commits_90d == 0 && stats.authors_90d == 0
    }
}

/// A line among these names the path.
pub open spec fn named_on(lines: Seq<Seq<char>>, path: Seq<char>) -> bool {
    exists|k: int| 0 <= k < lines.len() && churn::cleaned(#[trigger] lines[k]) == Some(path)
}

/// The header of a commit was written no longer than so many days ago.
pub open spec fn in_days(header: Seq<char>, now: int, days: int) -> bool {
    churn::header_of(header) matches Some((ts, author)) && now <= ts + days * 24 * 60 * 60
}

proof fn lemma_commit(before: Seq<Seq<char>>, header: Seq<char>, files: Seq<Seq<char>>)
    requires
        churn::is_header(header),
        forall|k: int| 0 <= k < files.len() ==> !churn::is_header(#[trigger] files[k]),
    ensures
        ({
            let after = churn::commits_of(before.push(header) + files);
            &&& after.len() == churn::commits_of(before).len() + 1
            &&& after.drop_last() == churn::commits_of(before)
            &&& after.last().head == churn::header_of(header)
            &&& forall|p: Seq<char>| #[trigger]
                after.last().files.contains(p) <==> named_on(files, p)
        }),
    decreases files.len(),
{
    let lines = before.push(header) + files;
    let after = churn::commits_of(lines);
    if files.len() == 0 {
        assert(lines =~= before.push(header));
        assert(lines.drop_last() =~= before);
        assert(after.drop_last() =~= churn::commits_of(before));
    } else {
        let shorter = files.drop_last();
        assert forall|k: int| 0 <= k < shorter.len() implies !churn::is_header(
            #[trigger] shorter[k],
        ) by {
            assert(shorter[k] == files[k]);
        }
        lemma_commit(before, header, shorter);
        assert(lines.drop_last() =~= before.push(header) + shorter);
        assert(lines.last() == files[files.len() - 1]);
        let was = churn::commits_of(before.push(header) + shorter);
        assert(after.drop_last() =~= was.drop_last());
        assert forall|p: Seq<char>| #[trigger]
            after.last().files.contains(p) <==> named_on(files, p) by {
            assert(was.last().files.contains(p) <==> named_on(shorter, p));
            if named_on(shorter, p) {
                let k = choose|k: int|
                    0 <= k < shorter.len() && churn::cleaned(#[trigger] shorter[k]) == Some(p);
                assert(files[k] == shorter[k]);
            }
            if named_on(files, p) {
                let k = choose|k: int|
                    0 <= k < files.len() && churn::cleaned(#[trigger] files[k]) == Some(p);
                if k < shorter.len() {
                    assert(shorter[k] == files[k]);
                }
            }
            if churn::cleaned(files.last()) == Some(p) {
                assert(churn::cleaned(files[files.len() - 1]) == Some(p));
            }
        }
    }
}

proof fn lemma_says(table: ChurnTable, commits: Seq<churn::Commit>, now: int, path: Seq<char>, s: ChurnStats)
    requires
        churn::is_churn(table, commits, now),
        says(table.entries@, path, s),
    ensures
        churn::are_stats(s, commits, path, now),
{
    if exists|k: int|
        0 <= k < table.entries@.len() && (#[trigger] table.entries@[k]).path@ == path
            && table.entries@[k].stats == s {
    } else {
        let paths = churn::table_paths(table.entries@);
        assert(!paths.contains(path)) by {
            if paths.contains(path) {
                let k = choose|k: int| 0 <= k < paths.len() && paths[k] == path;
                assert(table.entries@[k].path@ == path);
            }
        }
        assert(churn::touch_count(commits, path, now, churn::WINDOW_90D_SECS as int) == 0);
        lemma_untouched(commits, path, now);
    }
}

proof fn lemma_untouched(commits: Seq<churn::Commit>, path: Seq<char>, now: int)
    requires
        churn::touch_count(commits, path, now, churn::WINDOW_90D_SECS as int) == 0,
    ensures
        churn::touch_count(commits, path, now, churn::WINDOW_30D_SECS as int) == 0,
        churn::authors_of(commits, path, now, churn::WINDOW_90D_SECS as int)
            == Set::<Seq<char>>::empty(),
    decreases commits.len(),
{
    if commits.len() > 0 {
        lemma_untouched(commits.drop_last(), path, now);
    }
}

/// A commit at the end of a log adds one to the counts of each path that a line of
/// it names, to that of thirty days and to that of ninety if it is no older, and
/// changes nothing else. A log without commits says nothing.
pub proof fn law_commits_count_once_for_each_path(
    log: &str,
    longer: &str,
    now: i64,
    before: ChurnTable,
    after: ChurnTable,
    header: Seq<char>,
    files: Seq<Seq<char>>,
    path: Seq<char>,
    s: ChurnStats,
    t: ChurnStats,
)
    requires
        call_ensures(churn::parse_log, (log, now), before),
        call_ensures(churn::parse_log, (longer, now), after),
        text::lines_of(longer@) == text::lines_of(log@) + seq![header] + files,
        header.len() > 0 && header[0] == '\u{1f}',
        forall|k: int|
            0 <= k < files.len() ==> (#[trigger] files[k]).len() == 0 || files[k][0] != '\u{1f}',
        says(before.entries@, path, s),
        says(after.entries@, path, t),
    ensures
        t.commits_30d == s.commits_30d + (if named_on(files, path) && in_days(
            header,
            now as int,
            30,
        ) {
            1int
        } else {
            0int
        }),
        t.commits_90d == s.commits_90d + (if named_on(files, path) && in_days(
            header,
            now as int,
            90,
        ) {
            1int
        } else {
            0int
        }),
        log@.len() == 0 ==> s.commits_30d == 0 && s.commits_90d == 0 && s.authors_90d == 0,
{
    let lines = text::lines_of(log@);
    assert(lines + seq![header] + files =~= lines.push(header) + files);
    lemma_commit(lines, header, files);
    let a = churn::commits_of(lines);
    let b = churn::commits_of(lines.push(header) + files);
    lemma_says(before, a, now as int, path, s);
    lemma_says(after, b, now as int, path, t);
    assert(b.last().files.contains(path) <==> named_on(files, path));
    if log@.len() == 0 {
        laws::text::law_line_feeds_part_lines(log@, log@);
    }
}

/// The number of authors of a path is that of the different authors of the commits
/// within ninety days that name it.
pub proof fn law_authors_count_once_for_each_path(
    log: &str,
    now: i64,
    table: ChurnTable,
    path: Seq<char>,
    s: ChurnStats,
) -> (authors: Set<Seq<char>>)
    requires
        call_ensures(churn::parse_log, (log, now), table),
        says(table.entries@, path, s),
    ensures
        s.authors_90d == authors.len(),
        authors.finite(),
        forall|author: Seq<char>| #[trigger]
            authors.contains(author) <==> wrote(
                churn::commits_of(text::lines_of(log@)),
                path,
                now as int,
                author,
            ),
{
    let commits = churn::commits_of(text::lines_of(log@));
    lemma_says(table, commits, now as int, path, s);
    lemma_authors(commits, path, now as int);
    churn::authors_of(commits, path, now as int, churn::WINDOW_90D_SECS as int)
}

/// The author has a commit within ninety days that changed the path.
pub open spec fn wrote(
    commits: Seq<churn::Commit>,
    path: Seq<char>,
    now: int,
    author: Seq<char>,
) -> bool {
    exists|k: int|
        0 <= k < commits.len() && (#[trigger] commits[k]).files.contains(path)
            && (commits[k].head matches Some((ts, who)) && who == author && now <= ts + 90 * 24
            * 60 * 60)
}

proof fn lemma_authors(commits: Seq<churn::Commit>, path: Seq<char>, now: int)
    ensures
        ({
            let authors = churn::authors_of(commits, path, now, churn::WINDOW_90D_SECS as int);
            &&& authors.finite()
            &&& forall|author: Seq<char>| #[trigger]
                authors.contains(author) <==> wrote(commits, path, now, author)
        }),
    decreases commits.len(),
{
    if commits.len() > 0 {
        let shorter = commits.drop_last();
        lemma_authors(shorter, path, now);
        let authors = churn::authors_of(commits, path, now, churn::WINDOW_90D_SECS as int);
        let fewer = churn::authors_of(shorter, path, now, churn::WINDOW_90D_SECS as int);
        assert forall|author: Seq<char>| #[trigger]
            authors.contains(author) <==> wrote(commits, path, now, author) by {
            assert(fewer.contains(author) <==> wrote(shorter, path, now, author));
            if wrote(shorter, path, now, author) {
                let k = choose|k: int|
                    0 <= k < shorter.len() && (#[trigger] shorter[k]).files.contains(path) && (
                    shorter[k].head matches Some((ts, who)) && who == author && now <= ts + 90
                        * 24 * 60 * 60);
                assert(commits[k] == shorter[k]);
            }
            if wrote(commits, path, now, author) {
                let k = choose|k: int|
                    0 <= k < commits.len() && (#[trigger] commits[k]).files.contains(path) && (
                    commits[k].head matches Some((ts, who)) && who == author && now <= ts + 90
                        * 24 * 60 * 60);
                if k < shorter.len() {
                    assert(shorter[k] == commits[k]);
                }
            }
            if churn::touches(commits.last(), path, now, churn::WINDOW_90D_SECS as int)
                && commits.last().head.unwrap().1 == author {
                assert(commits[commits.len() - 1].files.contains(path));
            }
        }
    }
}

/// A table holds the paths that changed within ninety days and no others, each
/// once.
pub proof fn law_tables_hold_what_changed(log: &str, now: i64, table: ChurnTable, i: int, j: int)
    requires
        call_ensures(churn::parse_log, (log, now), table),
        0 <= i <= j < table.entries@.len(),
    ensures
        table.entries@[i].stats.commits_90d > 0,
        i < j ==> table.entries@[i].path@ != table.entries@[j].path@ && text::text_le(
            table.entries@[i].path@,
            table.entries@[j].path@,
        ),
{
    let paths = churn::table_paths(table.entries@);
    assert(paths[i] == table.entries@[i].path@);
    assert(paths[j] == table.entries@[j].path@);
    assert(paths.contains(paths[i]));
}

/// What is computed for a directory is what the log says of the paths below it, as
/// seen from there, and no more. The place of the directory is read without white
/// space around it.
pub proof fn law_churn_is_seen_from_the_directory(
    place: &str,
    log: &str,
    now: i64,
    table: ChurnTable,
    out: ChurnTable,
    k: int,
) -> (m: int)
    requires
        call_ensures(churn::parse_log, (log, now), table),
        call_ensures(churn::compute_churn, (Some(place), Some(log), now), out),
        0 <= k < out.entries@.len(),
    ensures
        0 <= m < table.entries@.len(),
        lies_below(table.entries@[m].path@, text::trimmed(place@), out.entries@[k].path@),
        table.entries@[m].stats == out.entries@[k].stats,
{
    let commits = churn::commits_of(text::lines_of(log@));
    let dir = text::trimmed(place@);
    let e = out.entries@[k];
    assert(churn::has_stats_below(e, commits, dir, now as int));
    let p = choose|p: Seq<char>|
        churn::rebased(p, dir) == Some(e.path@) && #[trigger] churn::are_stats(
            e.stats,
            commits,
            p,
            now as int,
        ) && e.stats.commits_90d > 0;
    lemma_rebased(p, dir, e.path@);
    let paths = churn::table_paths(table.entries@);
    assert(paths.contains(p));
    let m = choose|m: int| 0 <= m < paths.len() && paths[m] == p;
    assert(table.entries@[m].path@ == p);
    m
}

/// Every path below the directory that the log has is in what is computed for it.
pub proof fn law_churn_below_the_directory_is_seen(
    place: &str,
    log: &str,
    now: i64,
    table: ChurnTable,
    out: ChurnTable,
    m: int,
    rest: Seq<char>,
)
    requires
        call_ensures(churn::parse_log, (log, now), table),
        call_ensures(churn::compute_churn, (Some(place), Some(log), now), out),
        0 <= m < table.entries@.len(),
        lies_below(table.entries@[m].path@, text::trimmed(place@), rest),
    ensures
        exists|k: int|
            0 <= k < out.entries@.len() && (#[trigger] out.entries@[k]).path@ == rest
                && out.entries@[k].stats == table.entries@[m].stats,
{
    let commits = churn::commits_of(text::lines_of(log@));
    let dir = text::trimmed(place@);
    let e = table.entries@[m];
    lemma_rebased(e.path@, dir, rest);
    law_tables_hold_what_changed(log, now, table, m, m);
    assert(churn::touch_count(commits, e.path@, now as int, churn::WINDOW_90D_SECS as int) > 0);
    let paths = churn::table_paths(out.entries@);
    assert(paths.contains(rest));
    let k = choose|k: int| 0 <= k < paths.len() && paths[k] == rest;
    let f = out.entries@[k];
    assert(f.path@ == rest);
    assert(churn::has_stats_below(f, commits, dir, now as int));
    let p = choose|p: Seq<char>|
        churn::rebased(p, dir) == Some(f.path@) && #[trigger] churn::are_stats(
            f.stats,
            commits,
            p,
            now as int,
        ) && f.stats.commits_90d > 0;
    churn::law_rebasing_keeps_paths_apart(p, e.path@, dir);
}

/// What the version control system prints is read only once it has ended well; one
/// that is out of time, or that cannot be seen, is stopped.
pub proof fn law_only_what_ended_well_is_read(seen: Sighting, now: u64, deadline: u64, r: GitStep)
    requires
        call_ensures(churn::git_step, (seen, now, deadline), r),
    ensures
        r == GitStep::Read <==> seen == Sighting::Ended(true),
        r == GitStep::Sleep <==> seen == Sighting::Running && now < deadline,
        r == GitStep::GiveUp <==> seen == Sighting::Ended(false),
{
}

} // verus!
