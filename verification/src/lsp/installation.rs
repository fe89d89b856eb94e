//! One installation, step by step: what is to be done next, given what came of
//! the last step.

use super::installer;
use super::installer::{InstallError, InstallSpec};
use crate::paths;
use crate::text;
use vstd::prelude::*;
use vstd::string::*;

verus! {

/// How far an installation has come: what is waited for.
#[derive(Clone, Copy, Debug, PartialEq, Eq, Structural)]
pub enum Phase {
    /// Whether the server is installed.
    Start,
    /// The directory that everything goes into.
    Making,
    /// The lock.
    Locking,
    /// Whether someone else has installed the server meanwhile.
    Looking,
    /// The download.
    Fetching,
    /// The download, unpacked.
    Unpacking,
    /// The old version, replaced.
    Replacing,
    /// The mark that the version is complete.
    Marking,
    /// Whether the program can be run.
    Checking,
    /// Nothing.
    Over,
}

/// What is to be done next.
#[derive(Debug)]
pub enum Action {
    /// Find out whether the program can be run and the mark is there.
    Look { binary: String, marker: String },
    MakeDir(String),
    /// Take the lock, and keep it until the end.
    Lock(String),
    Fetch(String),
    /// Unpack the download to a new place.
    Unpack(Vec<u8>),
    /// Put what was unpacked in the place of the version.
    Replace(String),
    /// Write the mark.
    Mark { path: String, text: String },
    /// Find out whether the program can be run.
    Check(String),
    /// The program, or why it was not installed.
    Done(Result<String, InstallError>),
}

/// How unpacking went.
#[derive(Debug)]
pub enum Unpacked {
    Whole,
    /// There was no place to unpack to.
    NoPlace(String),
    Failed(String),
}

/// What came of an action.
#[derive(Debug)]
pub enum Event {
    Installed(bool),
    Made(Result<(), String>),
    Locked(Result<(), String>),
    Fetched(Result<Vec<u8>, String>),
    Unpacked(Unpacked),
    Replaced(Result<(), String>),
    Marked(Result<(), String>),
    Runs(bool),
}

/// An installation.
#[derive(Debug)]
pub struct Installation {
    pub spec: InstallSpec,
    /// Where servers are kept.
    pub cache_root: String,
    pub offline: bool,
    pub mirror_github: Option<String>,
    pub phase: Phase,
}

/// The event is one that the installation waits for.
pub open spec fn fits(phase: Phase, event: Event) -> bool {
    match (phase, event) {
        (Phase::Start, Event::Installed(_)) => true,
        (Phase::Making, Event::Made(_)) => true,
        (Phase::Locking, Event::Locked(_)) => true,
        (Phase::Looking, Event::Installed(_)) => true,
        (Phase::Fetching, Event::Fetched(Ok(bytes))) => bytes@.len()
            <= installer::MAX_DIGEST_BYTES,
        (Phase::Fetching, Event::Fetched(Err(_))) => true,
        (Phase::Unpacking, Event::Unpacked(_)) => true,
        (Phase::Replacing, Event::Replaced(_)) => true,
        (Phase::Marking, Event::Marked(_)) => true,
        (Phase::Checking, Event::Runs(_)) => true,
        _ => false,
    }
}

/// The two installations are of the same thing.
pub open spec fn same_work(a: Installation, b: Installation) -> bool {
    a.spec == b.spec && a.cache_root == b.cache_root && a.offline == b.offline && a.mirror_github
        == b.mirror_github
}

/// The action ends the installation with a program.
pub open spec fn succeeds(action: Action, binary: Seq<char>) -> bool {
    action matches Action::Done(Ok(path)) && path@ == binary
}

/// The text of a mirror.
pub open spec fn mirror_text(i: Installation) -> Option<Seq<char>> {
    match i.mirror_github {
        Some(m) => Some(m@),
        None => None,
    }
}

/// The message where a program is missing after all.
pub open spec fn not_runnable_text(binary: Seq<char>) -> Seq<char> {
    "binary missing or not executable after extract: "@ + binary
}

/// `action` and `phase` follow on `event`.
pub open spec fn follows(i: Installation, event: Event, action: Action, phase: Phase) -> bool {
    let name = i.spec.name@;
    let root = i.cache_root@;
    let binary = installer::binary_path_of(i.spec, root);
    match (i.phase, event) {
        (Phase::Start, Event::Installed(there)) => if there {
            succeeds(action, binary) && phase == Phase::Over
        } else if i.offline {
            (action matches Action::Done(Err(InstallError::Offline(n))) && n@ == name) && phase
                == Phase::Over
        } else if text::trimmed(i.spec.sha256@).len() == 0 {
            (action matches Action::Done(Err(InstallError::MissingChecksum(n))) && n@ == name)
                && phase == Phase::Over
        } else {
            (action matches Action::MakeDir(dir) && dir@ == installer::holder_of(i.spec, root))
                && phase == Phase::Making
        },
        (Phase::Making, Event::Made(made)) => match made {
            Ok(_) => (action matches Action::Lock(path) && path@ == installer::lock_path_of(
                i.spec,
                root,
            )) && phase == Phase::Locking,
            Err(e) => (action matches Action::Done(Err(InstallError::Io(n, why))) && n@ == name
                && why@ == e@) && phase == Phase::Over,
        },
        (Phase::Locking, Event::Locked(locked)) => match locked {
            Ok(_) => (action matches Action::Look { binary: b, marker: m } && b@ == binary && m@
                == installer::marker_path_of(i.spec, root)) && phase == Phase::Looking,
            Err(e) => (action matches Action::Done(Err(InstallError::Lock(n, why))) && n@ == name
                && why@ == e@) && phase == Phase::Over,
        },
        (Phase::Looking, Event::Installed(there)) => if there {
            succeeds(action, binary) && phase == Phase::Over
        } else {
            (action matches Action::Fetch(url) && url@ == installer::mirrored(
                i.spec.url@,
                mirror_text(i),
            )) && phase == Phase::Fetching
        },
        (Phase::Fetching, Event::Fetched(fetched)) => match fetched {
            Ok(bytes) => if installer::actual_sum(bytes@) == installer::expected_sum(i.spec) {
                action == Action::Unpack(bytes) && phase == Phase::Unpacking
            } else {
                (action matches Action::Done(
                    Err(InstallError::ChecksumMismatch { name: n, expected, actual }),
                ) && n@ == name && expected@ == installer::expected_sum(i.spec) && actual@
                    == installer::actual_sum(bytes@)) && phase == Phase::Over
            },
            Err(e) => (action matches Action::Done(Err(InstallError::Download(n, why))) && n@
                == name && why@ == e@) && phase == Phase::Over,
        },
        (Phase::Unpacking, Event::Unpacked(unpacked)) => match unpacked {
            Unpacked::Whole => (action matches Action::Replace(dir) && dir@
                == installer::version_dir_of(i.spec, root)) && phase == Phase::Replacing,
            Unpacked::NoPlace(e) => (action matches Action::Done(Err(InstallError::Io(n, why)))
                && n@ == name && why@ == e@) && phase == Phase::Over,
            Unpacked::Failed(e) => (action matches Action::Done(Err(InstallError::Extract(n, why)))
                && n@ == name && why@ == e@) && phase == Phase::Over,
        },
        (Phase::Replacing, Event::Replaced(replaced)) => match replaced {
            Ok(_) => (action matches Action::Mark { path, text } && path@
                == installer::marker_path_of(i.spec, root) && text@ == installer::marker_text_of(
                i.spec,
            )) && phase == Phase::Marking,
            Err(e) => (action matches Action::Done(Err(InstallError::Io(n, why))) && n@ == name
                && why@ == e@) && phase == Phase::Over,
        },
        (Phase::Marking, Event::Marked(marked)) => match marked {
            Ok(_) => (action matches Action::Check(b) && b@ == binary) && phase == Phase::Checking,
            Err(e) => (action matches Action::Done(Err(InstallError::Io(n, why))) && n@ == name
                && why@ == e@) && phase == Phase::Over,
        },
        (Phase::Checking, Event::Runs(runs)) => if runs {
            succeeds(action, binary) && phase == Phase::Over
        } else {
            (action matches Action::Done(Err(InstallError::Extract(n, why))) && n@ == name && why@
                == not_runnable_text(binary)) && phase == Phase::Over
        },
        _ => false,
    }
}

impl Installation {
    /// Starts an installation. What would not stay where it belongs is refused.
    pub fn start(
        spec: InstallSpec,
        cache_root: String,
        offline: bool,
        mirror_github: Option<String>,
    ) -> (r: (Installation, Action))
        ensures
            r.0.spec == spec,
            r.0.cache_root == cache_root,
            r.0.offline == offline,
            r.0.mirror_github == mirror_github,
            match installer::fault_of(spec) {
                Some(fault) => r.0.phase == Phase::Over && (r.1 matches Action::Done(
                    Err(InstallError::InvalidSpec(name, why)),
                ) && name@ == spec.name@ && why@ == fault),
                None => r.0.phase == Phase::Start && (r.1 matches Action::Look { binary, marker }
                    && binary@ == installer::binary_path_of(spec, cache_root@) && marker@
                    == installer::marker_path_of(spec, cache_root@)),
            },
    {
        match installer::validate_spec(&spec) {
            Err(err) => (
                Installation { spec, cache_root, offline, mirror_github, phase: Phase::Over },
                Action::Done(Err(err)),
            ),
            Ok(()) => {
                let action = Action::Look {
                    binary: spec.binary_path(cache_root.as_str()),
                    marker: spec.marker_path(cache_root.as_str()),
                };
                (
                    Installation { spec, cache_root, offline, mirror_github, phase: Phase::Start },
                    action,
                )
            },
        }
    }

    fn fail(&mut self, err: InstallError) -> (r: Action)
        ensures
            r == Action::Done(Err(err)),
            final(self).phase == Phase::Over,
            same_work(*final(self), *old(self)),
    {
        self.phase = Phase::Over;
        Action::Done(Err(err))
    }

    /// Goes on with an installation, given what came of the last action.
    pub fn step(&mut self, event: Event) -> (action: Action)
        requires
            fits(old(self).phase, event),
        ensures
            follows(*old(self), event, action, final(self).phase),
            same_work(*final(self), *old(self)),
    {
        let name = self.spec.name.clone();
        let binary = self.spec.binary_path(self.cache_root.as_str());
        match event {
            Event::Installed(there) => {
                if there {
                    self.phase = Phase::Over;
                    return Action::Done(Ok(binary));
                }
                match self.phase {
                    Phase::Start => {
                        if self.offline {
                            return self.fail(InstallError::Offline(name));
                        }
                        if text::trim(&text::chars_of(self.spec.sha256.as_str())).len() == 0 {
                            return self.fail(InstallError::MissingChecksum(name));
                        }
                        self.phase = Phase::Making;
                        Action::MakeDir(self.spec.holder(self.cache_root.as_str()))
                    },
                    _ => {
                        self.phase = Phase::Fetching;
                        let mirror = match &self.mirror_github {
                            Some(m) => Some(m.as_str()),
                            None => None,
                        };
                        Action::Fetch(installer::rewrite_mirror(self.spec.url.as_str(), mirror))
                    },
                }
            },
            Event::Made(Ok(())) => {
                self.phase = Phase::Locking;
                Action::Lock(self.spec.lock_path(self.cache_root.as_str()))
            },
            Event::Made(Err(e)) => self.fail(InstallError::Io(name, e)),
            Event::Locked(Ok(())) => {
                self.phase = Phase::Looking;
                Action::Look { binary, marker: self.spec.marker_path(self.cache_root.as_str()) }
            },
            Event::Locked(Err(e)) => self.fail(InstallError::Lock(name, e)),
            Event::Fetched(Ok(bytes)) => match installer::verify_download(&self.spec, &bytes) {
                Ok(()) => {
                    self.phase = Phase::Unpacking;
                    Action::Unpack(bytes)
                },
                Err(err) => self.fail(err),
            },
            Event::Fetched(Err(e)) => self.fail(InstallError::Download(name, e)),
            Event::Unpacked(Unpacked::Whole) => {
                self.phase = Phase::Replacing;
                Action::Replace(self.spec.version_dir(self.cache_root.as_str()))
            },
            Event::Unpacked(Unpacked::NoPlace(e)) => self.fail(InstallError::Io(name, e)),
            Event::Unpacked(Unpacked::Failed(e)) => self.fail(InstallError::Extract(name, e)),
            Event::Replaced(Ok(())) => {
                self.phase = Phase::Marking;
                Action::Mark {
                    path: self.spec.marker_path(self.cache_root.as_str()),
                    text: self.spec.marker_text(),
                }
            },
            Event::Replaced(Err(e)) => self.fail(InstallError::Io(name, e)),
            Event::Marked(Ok(())) => {
                self.phase = Phase::Checking;
                Action::Check(binary)
            },
            Event::Marked(Err(e)) => self.fail(InstallError::Io(name, e)),
            Event::Runs(true) => {
                self.phase = Phase::Over;
                Action::Done(Ok(binary))
            },
            Event::Runs(false) => {
                let why = String::from_str(
                    "binary missing or not executable after extract: ",
                ).concat(binary.as_str());
                self.fail(InstallError::Extract(name, why))
            },
        }
    }
}

// ----------------------------------------------------------------- archives

/// `base` with parts put below it, one after the other.
pub open spec fn all_below(base: Seq<char>, parts: Seq<Seq<char>>) -> Seq<char>
    decreases parts.len(),
{
    if parts.len() == 0 {
        base
    } else {
        paths::below(all_below(base, parts.drop_last()), parts.last())
    }
}

/// Where an entry of an archive goes: below the destination. One that would go
/// elsewhere is refused.
pub fn safe_join(base: &str, rel: &str) -> (r: Result<String, String>)
    ensures
        ({
            let parts = paths::parts_of(rel@);
            if paths::is_absolute(rel@) {
                r matches Err(e) && e@ == "archive path is absolute: "@ + rel@
            } else if paths::climbs(parts) {
                r matches Err(e) && e@ == "archive path escapes destination: "@ + rel@
            } else {
                r matches Ok(p) && p@ == all_below(base@, parts)
            }
        }),
{
    let chars = text::chars_of(rel);
    if chars.len() > 0 && chars[0] == '/' {
        return Err(String::from_str("archive path is absolute: ").concat(rel));
    }
    let parts = paths::components(&chars);
    let ghost all = text::rows(parts@);
    assert(all.skip(0) =~= all);
    if paths::has_parent(&parts, 0) {
        return Err(String::from_str("archive path escapes destination: ").concat(rel));
    }
    let mut out = text::string_of(&text::chars_of(base));
    let mut i: usize = 0;
    assert(all.take(0) =~= Seq::<Seq<char>>::empty());
    while i < parts.len()
        invariant
            i <= parts@.len(),
            all == text::rows(parts@),
            out@ == all_below(base@, all.take(i as int)),
        decreases parts.len() - i,
    {
        assert(all.take(i as int + 1).drop_last() =~= all.take(i as int));
        let part = text::string_of(&parts[i]);
        out = paths::join(out.as_str(), part.as_str());
        i = i + 1;
    }
    assert(all.take(parts@.len() as int) =~= all);
    Ok(out)
}

/// What is done about an entry of an archive.
#[derive(Debug, PartialEq, Eq)]
pub enum Place {
    /// It has no name that can be used.
    Skip,
    MakeDir(String),
    Write(String),
    Refuse(String),
}

/// `r` is what is done about an entry of this name, with `base` as the destination.
pub open spec fn is_place(
    r: Place,
    base: Seq<char>,
    name: Option<Seq<char>>,
    is_dir: bool,
) -> bool {
    match name {
        None => r is Skip,
        Some(rel) => {
            let parts = paths::parts_of(rel);
            if paths::is_absolute(rel) {
                r matches Place::Refuse(e) && e@ == "archive path is absolute: "@ + rel
            } else if paths::climbs(parts) {
                r matches Place::Refuse(e) && e@ == "archive path escapes destination: "@ + rel
            } else if is_dir {
                r matches Place::MakeDir(p) && p@ == all_below(base, parts)
            } else {
                r matches Place::Write(p) && p@ == all_below(base, parts)
            }
        },
    }
}

/// What is done about an entry of an archive: it is made below the destination,
/// unless it has no name, or one that leads elsewhere.
pub fn place_entry(base: &str, name: Option<&str>, is_dir: bool) -> (r: Place)
    ensures
        is_place(
            r,
            base@,
            match name {
                Some(rel) => Some(rel@),
                None => None,
            },
            is_dir,
        ),
{
    match name {
        None => Place::Skip,
        Some(rel) => match safe_join(base, rel) {
            Err(why) => Place::Refuse(why),
            Ok(path) => {
                if is_dir {
                    Place::MakeDir(path)
                } else {
                    Place::Write(path)
                }
            },
        },
    }
}

/// Whether unpacking came to a program, given whether it is a plain file now.
pub fn unpacked_program(binary_relative: &str, is_file: bool) -> (r: Result<(), String>)
    ensures
        if is_file {
            r is Ok
        } else {
            r matches Err(e) && e@ == "archive did not contain expected binary "@
                + binary_relative@
        },
{
    if is_file {
        Ok(())
    } else {
        Err(String::from_str("archive did not contain expected binary ").concat(binary_relative))
    }
}

/// The permissions of a program that was unpacked: where nobody may run it,
/// everybody may.
pub fn executable_mode(mode: u32) -> (r: u32)
    ensures
        r == (if mode & 0o111 == 0 {
            mode | 0o755
        } else {
            mode
        }),
{
    if mode & 0o111 == 0 {
        mode | 0o755
    } else {
        mode
    }
}

/// Whether a file can be run, by whether it is a plain file and by its
/// permissions.
pub fn is_runnable(is_file: bool, mode: u32) -> (r: bool)
    ensures
        r == (is_file && mode & 0o111 != 0),
{
    is_file && mode & 0o111 != 0
}

// -------------------------------------------------------------------- locks

/// What came of trying to take a lock.
#[derive(Debug)]
pub enum Attempt {
    Taken,
    /// Someone else holds it.
    Exists,
    Failed(String),
}

/// What is done about a lock next.
#[derive(Debug)]
pub enum LockStep {
    Held,
    /// The lock was left behind: it is removed, and taken again.
    Break,
    Sleep,
    Fail(String),
}

/// What is done about a lock next. `elapsed` is how long it has been waited for
/// and `age` how long ago it was taken, where that is known, in milliseconds.
pub fn lock_step(
    attempt: Attempt,
    path: &str,
    elapsed: u64,
    timeout: u64,
    age: Option<u64>,
) -> (r: LockStep)
    ensures
        match attempt {
            Attempt::Taken => r is Held,
            Attempt::Failed(e) => r == LockStep::Fail(e),
            Attempt::Exists => if elapsed >= timeout {
                r matches LockStep::Fail(e) && e@ == "timed out waiting for install lock "@ + path@
            } else if age matches Some(a) && a > timeout {
                r is Break
            } else {
                r is Sleep
            },
        },
{
    match attempt {
        Attempt::Taken => LockStep::Held,
        Attempt::Failed(e) => LockStep::Fail(e),
        Attempt::Exists => {
            if elapsed >= timeout {
                return LockStep::Fail(
                    String::from_str("timed out waiting for install lock ").concat(path),
                );
            }
            match age {
                Some(a) if a > timeout => LockStep::Break,
                _ => LockStep::Sleep,
            }
        },
    }
}

/// How long a download may take, in seconds: a minute, unless it is said.
pub fn fetch_timeout(secs: u64) -> (r: u64)
    ensures
        r == (if secs == 0 {
            60
        } else {
            secs
        }),
{
    if secs == 0 {
        60
    } else {
        secs
    }
}

// -------------------------------------------------------------------- cache

/// A directory of a version.
#[derive(Debug)]
pub struct VersionDir {
    pub name: String,
    /// Whether its program can be run.
    pub runnable: bool,
}

/// The version can be used.
pub open spec fn is_usable(v: VersionDir) -> bool {
    v.runnable && !(v.name@.len() > 0 && v.name@[0] == '.')
}

/// The last usable version by name, the first of several.
pub open spec fn newest(versions: Seq<VersionDir>) -> Option<Seq<char>>
    decreases versions.len(),
{
    if versions.len() == 0 {
        None
    } else {
        let before = newest(versions.drop_last());
        let v = versions.last();
        if is_usable(v) {
            match before {
                Some(b) => if text::text_le(v.name@, b) {
                    Some(b)
                } else {
                    Some(v.name@)
                },
                None => Some(v.name@),
            }
        } else {
            before
        }
    }
}

/// The program of the newest version that is kept: the one whose name comes last.
pub fn find_cached_binary(
    cache_root: &str,
    server_name: &str,
    binary_relative: &str,
    versions: &Vec<VersionDir>,
) -> (r: Option<String>)
    ensures
        match newest(versions@) {
            Some(v) => r matches Some(p) && p@ == paths::below(
                paths::below(paths::below(cache_root@, server_name@), v),
                binary_relative@,
            ),
            None => r is None,
        },
{
    let mut best: Option<usize> = None;
    let mut i: usize = 0;
    assert(versions@.take(0) =~= Seq::<VersionDir>::empty());
    while i < versions.len()
        invariant
            i <= versions@.len(),
            match best {
                Some(b) => b < versions@.len() && newest(versions@.take(i as int)) == Some(
                    versions@[b as int].name@,
                ),
                None => newest(versions@.take(i as int)) is None,
            },
        decreases versions.len() - i,
    {
        assert(versions@.take(i as int + 1).drop_last() =~= versions@.take(i as int));
        let name = text::chars_of(versions[i].name.as_str());
        if versions[i].runnable && !(name.len() > 0 && name[0] == '.') {
            match best {
                Some(b) => {
                    if !text::at_most(versions[i].name.as_str(), versions[b].name.as_str()) {
                        best = Some(i);
                    }
                },
                None => {
                    best = Some(i);
                },
            }
        }
        i = i + 1;
    }
    assert(versions@.take(versions@.len() as int) =~= versions@);
    match best {
        Some(b) => {
            let own = paths::join(cache_root, server_name);
            let dir = paths::join(own.as_str(), versions[b].name.as_str());
            Some(paths::join(dir.as_str(), binary_relative))
        },
        None => None,
    }
}

// --------------------------------------------------------------------- laws

/// Nothing is fetched or unpacked that should not be: a download is unpacked only
/// if it has the checksum that was asked for, and nothing is fetched offline or
/// without a checksum.
pub proof fn law_only_verified_downloads_are_unpacked(
    i: Installation,
    event: Event,
    action: Action,
    phase: Phase,
)
    requires
        follows(i, event, action, phase),
    ensures
        action matches Action::Unpack(bytes) ==> event == Event::Fetched(Ok(bytes))
            && installer::actual_sum(bytes@) == installer::expected_sum(i.spec),
        action is MakeDir ==> !i.offline && installer::expected_sum(i.spec).len() > 0,
        action is Fetch ==> i.phase == Phase::Looking,
        phase == Phase::Making ==> i.phase == Phase::Start && action is MakeDir,
        phase == Phase::Locking ==> i.phase == Phase::Making,
        phase == Phase::Looking ==> i.phase == Phase::Locking,
        phase == Phase::Over <==> action is Done,
{
}

/// How far an installation has come.
pub open spec fn progress_of(phase: Phase) -> int {
    match phase {
        Phase::Start => 0,
        Phase::Making => 1,
        Phase::Locking => 2,
        Phase::Looking => 3,
        Phase::Fetching => 4,
        Phase::Unpacking => 5,
        Phase::Replacing => 6,
        Phase::Marking => 7,
        Phase::Checking => 8,
        Phase::Over => 9,
    }
}

/// Every step brings an installation on, so that it ends; it is over exactly when
/// it says what it came to.
pub proof fn law_installations_end(i: Installation, event: Event, action: Action, phase: Phase)
    requires
        follows(i, event, action, phase),
    ensures
        progress_of(i.phase) < progress_of(phase) <= 9,
        action is Done <==> phase == Phase::Over,
{
}

/// A program is handed out only where it was found to be there and marked, or to
/// run after it was unpacked.
pub proof fn law_only_programs_that_run_are_handed_out(
    i: Installation,
    event: Event,
    action: Action,
    phase: Phase,
)
    requires
        follows(i, event, action, phase),
    ensures
        (action matches Action::Done(Ok(_))) <==> (event == Event::Installed(true) || event
            == Event::Runs(true)),
        action matches Action::Done(Ok(path)) ==> path@ == installer::binary_path_of(
            i.spec,
            i.cache_root@,
        ),
{
}

/// What is kept of one version of a server.
pub ghost struct Shelf {
    /// Its program can be run.
    pub runs: bool,
    /// The mark is there.
    pub marked: bool,
    /// The download that was unpacked last.
    pub staged: Seq<u8>,
    /// The download that stands in the place of the version.
    pub source: Seq<u8>,
}

/// The event is what comes of the action on a file system that does as it is told,
/// and says what is so. Until the lock is held, someone else may change the shelf.
pub open spec fn answers(action: Action, event: Event, before: Shelf, after: Shelf) -> bool {
    match (action, event) {
        (Action::Look { .. }, Event::Installed(there)) => there == (before.runs && before.marked)
            && after == before,
        (Action::MakeDir(_), Event::Made(_)) => true,
        (Action::Lock(_), Event::Locked(_)) => true,
        (Action::Fetch(_), Event::Fetched(_)) => after == before,
        (Action::Unpack(bytes), Event::Unpacked(unpacked)) => after == (Shelf {
            staged: after.staged,
            ..before
        }) && (unpacked is Whole ==> after.staged == bytes@),
        (Action::Replace(_), Event::Replaced(replaced)) => replaced is Ok ==> after.source
            == before.staged,
        (Action::Mark { .. }, Event::Marked(marked)) => after.source == before.source && (marked is Ok
            ==> after.marked),
        (Action::Check(_), Event::Runs(runs)) => runs == before.runs && after == before,
        _ => false,
    }
}

/// An installation from its start to its end: what it waited for, what it did,
/// what came of it, and what was kept all the while.
pub ghost struct Run {
    pub work: Installation,
    pub phases: Seq<Phase>,
    pub actions: Seq<Action>,
    pub events: Seq<Event>,
    pub shelves: Seq<Shelf>,
}

impl Run {
    /// The installation while it waits for the `k`th event.
    pub open spec fn at(self, k: int) -> Installation {
        Installation { phase: self.phases[k], ..self.work }
    }

    /// The installation starts, goes on as its steps say, and comes to its end.
    pub open spec fn wf(self) -> bool {
        let n = self.events.len();
        &&& self.phases.len() == n + 1
        &&& self.actions.len() == n + 1
        &&& self.shelves.len() == n + 1
        &&& self.phases[0] == Phase::Start
        &&& self.actions[0] is Look
        &&& self.phases[n as int] == Phase::Over
        &&& forall|k: int|
            0 <= k < n ==> {
                &&& fits(self.phases[k], #[trigger] self.events[k])
                &&& follows(
                    self.at(k),
                    self.events[k],
                    self.actions[k + 1],
                    self.phases[k + 1],
                )
                &&& answers(
                    self.actions[k],
                    self.events[k],
                    self.shelves[k],
                    self.shelves[k + 1],
                )
            }
    }

    /// The program that was handed out, if there was one.
    pub open spec fn program(self) -> Option<Seq<char>> {
        match self.actions.last() {
            Action::Done(Ok(path)) => Some(path@),
            _ => None,
        }
    }
}

/// The action that is taken where an event is waited for.
spec fn awaits(phase: Phase, action: Action) -> bool {
    match phase {
        Phase::Start | Phase::Looking => action is Look,
        Phase::Making => action is MakeDir,
        Phase::Locking => action is Lock,
        Phase::Fetching => action is Fetch,
        Phase::Unpacking => action is Unpack,
        Phase::Replacing => action is Replace,
        Phase::Marking => action is Mark,
        Phase::Checking => action is Check,
        Phase::Over => action is Done,
    }
}

proof fn lemma_awaits(run: Run, k: int)
    requires
        run.wf(),
        0 <= k <= run.events.len(),
    ensures
        awaits(run.phases[k], run.actions[k]),
{
    if k > 0 {
        assert(fits(run.phases[k - 1], run.events[k - 1]));
    }
}

proof fn lemma_run_goes_on(run: Run, j: int, k: int)
    requires
        run.wf(),
        0 <= j < k <= run.events.len(),
    ensures
        progress_of(run.phases[j]) < progress_of(run.phases[k]),
    decreases k,
{
    assert(fits(run.phases[k - 1], run.events[k - 1]));
    law_installations_end(run.at(k - 1), run.events[k - 1], run.actions[k], run.phases[k]);
    if j < k - 1 {
        lemma_run_goes_on(run, j, k - 1);
    }
}

/// What a whole installation comes to. A program that is handed out is the one of
/// the version; it can be run and is marked, and whatever was put in its place on
/// the way had the checksum that was asked for. A download with another checksum
/// ends the installation: nothing is unpacked, replaced or marked, and the version
/// stays as it was found under the lock.
pub proof fn law_installations_are_whole(run: Run)
    requires
        run.wf(),
    ensures
        run.program() matches Some(path) ==> {
            &&& path == installer::binary_path_of(run.work.spec, run.work.cache_root@)
            &&& run.shelves.last().runs && run.shelves.last().marked
            &&& forall|k: int|
                0 <= k < run.actions.len() && (#[trigger] run.actions[k]) is Replace
                    ==> installer::actual_sum(run.shelves.last().source)
                    == installer::expected_sum(run.work.spec)
        },
        forall|k: int|
            #![trigger run.events[k]]
            0 <= k < run.events.len() && (run.events[k] matches Event::Fetched(Ok(bytes))
                && installer::actual_sum(bytes@) != installer::expected_sum(run.work.spec)) ==> {
                &&& run.actions.last() matches Action::Done(
                    Err(InstallError::ChecksumMismatch { .. }),
                )
                &&& forall|j: int|
                    0 <= j < run.actions.len() ==> !((#[trigger] run.actions[j]) is Unpack
                        || run.actions[j] is Replace || run.actions[j] is Mark)
                &&& forall|j: int|
                    0 <= j < run.phases.len() && #[trigger] run.phases[j] == Phase::Looking
                        ==> run.shelves.last() == run.shelves[j]
            },
        forall|k: int|
            0 <= k < run.actions.len() && (#[trigger] run.actions[k]) is Fetch
                ==> !run.work.offline && installer::expected_sum(run.work.spec).len() > 0,
{
    let n = run.events.len() as int;
    assert(n > 0);
    lemma_awaits(run, n);
    lemma_awaits(run, n - 1);
    assert(fits(run.phases[n - 1], run.events[n - 1]));
    if run.program() is Some {
        if run.events[n - 1] is Runs {
            lemma_checked(run, n - 1);
        }
        assert forall|k: int|
            0 <= k < run.actions.len() && (
            #[trigger] run.actions[k]) is Replace implies installer::actual_sum(
            run.shelves.last().source,
        ) == installer::expected_sum(run.work.spec) by {
            lemma_awaits(run, k);
            assert(run.phases[k] == Phase::Replacing);
            if k < n - 1 {
                lemma_run_goes_on(run, k, n - 1);
            }
            assert(run.phases[n - 1] == Phase::Checking);
        }
    }
    assert forall|k: int|
        #![trigger run.events[k]]
        0 <= k < run.events.len() && (run.events[k] matches Event::Fetched(Ok(bytes))
            && installer::actual_sum(bytes@) != installer::expected_sum(run.work.spec)) implies {
        &&& run.actions.last() matches Action::Done(Err(InstallError::ChecksumMismatch { .. }))
        &&& forall|j: int|
            0 <= j < run.actions.len() ==> !((#[trigger] run.actions[j]) is Unpack
                || run.actions[j] is Replace || run.actions[j] is Mark)
        &&& forall|j: int|
            0 <= j < run.phases.len() && #[trigger] run.phases[j] == Phase::Looking
                ==> run.shelves.last() == run.shelves[j]
    } by {
        assert(fits(run.phases[k], run.events[k]));
        assert(run.phases[k] == Phase::Fetching);
        assert(run.phases[k + 1] == Phase::Over);
        if k + 1 < n {
            assert(fits(run.phases[k + 1], run.events[k + 1]));
        }
        assert(k == n - 1);
        assert(fits(run.phases[k - 1], run.events[k - 1]));
        assert(run.phases[k - 1] == Phase::Looking);
        lemma_awaits(run, k);
        lemma_awaits(run, k - 1);
        assert forall|j: int| 0 <= j < run.actions.len() implies !((
        #[trigger] run.actions[j]) is Unpack || run.actions[j] is Replace
            || run.actions[j] is Mark) by {
            lemma_awaits(run, j);
            if j < k {
                lemma_run_goes_on(run, j, k);
            }
        }
        assert forall|j: int|
            0 <= j < run.phases.len() && #[trigger] run.phases[j]
                == Phase::Looking implies run.shelves.last() == run.shelves[j] by {
            if j < k - 1 {
                lemma_run_goes_on(run, j, k - 1);
            } else if j > k - 1 {
                lemma_run_goes_on(run, k - 1, j);
            }
        }
    }
    assert forall|k: int|
        0 <= k < run.actions.len() && (
        #[trigger] run.actions[k]) is Fetch implies !run.work.offline && installer::expected_sum(
        run.work.spec,
    ).len() > 0 by {
        lemma_awaits(run, k);
        assert(fits(run.phases[k - 1], run.events[k - 1]));
        assert(fits(run.phases[k - 2], run.events[k - 2]));
        assert(fits(run.phases[k - 3], run.events[k - 3]));
        assert(fits(run.phases[k - 4], run.events[k - 4]));
        assert(run.phases[k - 4] == Phase::Start);
        lemma_awaits(run, k - 3);
        law_only_verified_downloads_are_unpacked(
            run.at(k - 4),
            run.events[k - 4],
            run.actions[k - 3],
            run.phases[k - 3],
        );
    }
}

/// Where the program is looked at last, what stands there was unpacked from a
/// download that has the checksum, and it was marked.
proof fn lemma_checked(run: Run, k: int)
    requires
        run.wf(),
        0 <= k < run.events.len(),
        run.phases[k] == Phase::Checking,
    ensures
        run.shelves[k].marked,
        installer::actual_sum(run.shelves[k].source) == installer::expected_sum(run.work.spec),
{
    assert(fits(run.phases[k - 1], run.events[k - 1]));
    assert(fits(run.phases[k - 2], run.events[k - 2]));
    assert(fits(run.phases[k - 3], run.events[k - 3]));
    assert(fits(run.phases[k - 4], run.events[k - 4]));
    lemma_awaits(run, k - 1);
    lemma_awaits(run, k - 2);
    lemma_awaits(run, k - 3);
    lemma_awaits(run, k - 4);
    assert(run.phases[k - 1] == Phase::Marking);
    assert(run.phases[k - 2] == Phase::Replacing);
    assert(run.phases[k - 3] == Phase::Unpacking);
    assert(run.phases[k - 4] == Phase::Fetching);
}

/// A server that was installed stays installed: the next run on what the last one
/// left looks, finds it and hands out the same program. It makes no directory,
/// takes no lock and fetches nothing, offline or not.
pub proof fn law_installed_servers_are_not_fetched_again(first: Run, second: Run)
    requires
        first.wf(),
        second.wf(),
        first.work.spec == second.work.spec,
        first.work.cache_root == second.work.cache_root,
        first.program() is Some,
        second.shelves[0] == first.shelves.last(),
    ensures
        second.program() == first.program(),
        second.events.len() == 1,
        second.actions[0] is Look,
        second.actions[1] is Done,
        second.shelves.last() == first.shelves.last(),
{
    law_installations_are_whole(first);
    law_installations_are_whole(second);
    assert(second.events.len() > 0);
    assert(fits(second.phases[0], second.events[0]));
    assert(second.phases[1] == Phase::Over);
    if second.events.len() > 1 {
        assert(fits(second.phases[1], second.events[1]));
    }
}

/// The newest version is the last one by name of those that can be used.
pub proof fn law_newest_is_last(versions: Seq<VersionDir>, k: int)
    requires
        0 <= k < versions.len(),
        is_usable(versions[k]),
    ensures
        newest(versions) matches Some(n) && text::text_le(versions[k].name@, n),
    decreases versions.len(),
{
    let v = versions.last();
    if k < versions.len() - 1 {
        law_newest_is_last(versions.drop_last(), k);
        let b = newest(versions.drop_last()).unwrap();
        if is_usable(v) && !text::text_le(v.name@, b) {
            text::lemma_text_le_total(v.name@, b);
            text::lemma_text_le_transitive(versions[k].name@, b, v.name@);
        }
    } else {
        text::lemma_text_le_total(v.name@, v.name@);
    }
}

proof fn lemma_all_below(base: Seq<char>, parts: Seq<Seq<char>>)
    requires
        forall|k: int| 0 <= k < parts.len() ==> paths::is_part(#[trigger] parts[k]),
    ensures
        paths::parts_of(all_below(base, parts)) == paths::parts_of(base) + parts,
    decreases parts.len(),
{
    if parts.len() == 0 {
        assert(paths::parts_of(base) + parts =~= paths::parts_of(base));
    } else {
        let front = parts.drop_last();
        let last = parts.last();
        assert(paths::is_part(parts[parts.len() - 1]));
        assert forall|k: int| 0 <= k < front.len() implies paths::is_part(#[trigger] front[k]) by {
            assert(front[k] == parts[k]);
        }
        lemma_all_below(base, front);
        assert(last[0] != '/') by {
            assert(last.contains(last[0]));
        }
        paths::lemma_parts_below(all_below(base, front), last);
        paths::lemma_single_part(last);
        assert((paths::parts_of(base) + front) + seq![last] =~= paths::parts_of(base) + parts);
    }
}

/// What is unpacked stays below the destination: the parts of its path are those
/// of the destination and then those of its name in the archive, and none of
/// these leads up.
pub proof fn law_unpacked_files_stay_inside(base: Seq<char>, rel: Seq<char>)
    requires
        !paths::is_absolute(rel),
        !paths::climbs(paths::parts_of(rel)),
    ensures
        paths::parts_of(all_below(base, paths::parts_of(rel))) == paths::parts_of(base)
            + paths::parts_of(rel),
        forall|k: int|
            0 <= k < paths::parts_of(rel).len() ==> (#[trigger] paths::parts_of(rel)[k]) != seq![
                '.',
                '.',
            ],
{
    let parts = paths::parts_of(rel);
    assert forall|k: int| 0 <= k < parts.len() implies paths::is_part(#[trigger] parts[k]) by {
        paths::lemma_parts_are_parts(rel, k);
    }
    lemma_all_below(base, parts);
}

} // verus!
