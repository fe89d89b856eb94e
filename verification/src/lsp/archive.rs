//! Archives in memory: what is to be written to disk for each entry.
//!
//! Reading an archive is the work of `zip`, or of `flate2` and `tar`. Where its
//! entries go is decided here.

use super::installation;
use super::installation::Place;
use super::wire;
use crate::paths;
use crate::text;
use std::io::{Cursor, Read};
use vstd::prelude::*;
use vstd::string::*;

verus! {

/// Bytes in memory that are read like a file.
#[verifier::external_type_specification]
#[verifier::external_body]
#[verifier::reject_recursive_types(T)]
pub struct ExCursor<T>(std::io::Cursor<T>);

/// Archives of `zip`.
#[verifier::external_type_specification]
#[verifier::external_body]
#[verifier::reject_recursive_types(R)]
pub struct ExZipArchive<R>(zip::ZipArchive<R>);

/// An entry of an archive.
#[derive(Debug)]
pub struct ZipEntry {
    pub name: String,
    pub is_dir: bool,
    /// The permissions, where the archive gives them.
    pub mode: Option<u32>,
    /// The contents, or why they cannot be read.
    pub data: Result<Vec<u8>, String>,
}

/// An entry, as texts.
pub ghost struct EntryText {
    pub name: Seq<char>,
    pub is_dir: bool,
    pub mode: Option<u32>,
    pub data: Result<Seq<u8>, Seq<char>>,
}

pub open spec fn entry_text(e: ZipEntry) -> EntryText {
    EntryText {
        name: e.name@,
        is_dir: e.is_dir,
        mode: e.mode,
        data: match e.data {
            Ok(bytes) => Ok(bytes@),
            Err(why) => Err(why@),
        },
    }
}

/// The entries of an archive, each of them or why it cannot be opened.
pub uninterp spec fn zip_entries(archive: zip::ZipArchive<Cursor<Vec<u8>>>) -> Seq<
    Result<EntryText, Seq<char>>,
>;

/// The entries of the archive that bytes hold, or why they hold none.
pub uninterp spec fn zip_read(bytes: Seq<u8>) -> Result<
    Seq<Result<EntryText, Seq<char>>>,
    Seq<char>,
>;

/// `zip::ZipArchive::new` on bytes in memory: whether they hold an archive, and
/// which entries it has, depends on the bytes alone.
#[verifier::external_body]
fn open_zip(bytes: Vec<u8>) -> (r: Result<zip::ZipArchive<Cursor<Vec<u8>>>, String>)
    ensures
        zip_read(bytes@) == (match r {
            Ok(archive) => Ok(zip_entries(archive)),
            Err(why) => Err(why@),
        }),
{
    zip::ZipArchive::new(Cursor::new(bytes)).map_err(|e| e.to_string())
}

/// `zip::ZipArchive::len`: how many entries there are.
#[verifier::external_body]
fn zip_len(archive: &zip::ZipArchive<Cursor<Vec<u8>>>) -> (r: usize)
    ensures
        r == zip_entries(*archive).len(),
{
    archive.len()
}

/// `zip::ZipArchive::by_index`, with the entry that it opens read to its end: the
/// entry in that place. Opening one moves the place in the bytes that is read from
/// next, and changes no entry.
#[verifier::external_body]
fn zip_entry(
    archive: &mut zip::ZipArchive<Cursor<Vec<u8>>>,
    i: usize,
) -> (r: Result<ZipEntry, String>)
    requires
        i < zip_entries(*old(archive)).len(),
    ensures
        zip_entries(*final(archive)) == zip_entries(*old(archive)),
        zip_entries(*old(archive))[i as int] == (match r {
            Ok(entry) => Ok(entry_text(entry)),
            Err(why) => Err(why@),
        }),
{
    let mut file = archive.by_index(i).map_err(|e| e.to_string())?;
    let mut bytes: Vec<u8> = Vec::new();
    let data = file.read_to_end(&mut bytes).map(|_| bytes).map_err(|e| e.to_string());
    let (name, is_dir, mode) = (file.name().to_string(), file.is_dir(), file.unix_mode());
    Ok(ZipEntry { name, is_dir, mode, data })
}

/// What is to be done for an entry.
#[derive(Debug)]
pub enum Chore {
    /// Nothing: its name is of no use.
    Skip,
    MakeDir(String),
    Write { path: String, data: Vec<u8>, mode: Option<u32> },
    /// Stop: the archive cannot be unpacked.
    Fail(String),
}

/// How deep the parts lead, unless they lead up from where they start.
pub open spec fn depth_of(parts: Seq<Seq<char>>) -> Option<nat>
    decreases parts.len(),
{
    if parts.len() == 0 {
        Some(0)
    } else {
        match depth_of(parts.drop_last()) {
            Some(d) => if parts.last() != seq!['.', '.'] {
                Some(d + 1)
            } else if d > 0 {
                Some((d - 1) as nat)
            } else {
                None
            },
            None => None,
        }
    }
}

/// A name that can be used: it is relative, leads nowhere above where it starts,
/// and holds no zero.
pub open spec fn is_enclosed(name: Seq<char>) -> bool {
    !name.contains('\0') && !paths::is_absolute(name) && depth_of(paths::parts_of(name)) is Some
}

/// What is to be done for an entry, with `base` as the destination.
pub open spec fn is_chore(c: Chore, entry: Result<EntryText, Seq<char>>, base: Seq<char>) -> bool {
    match entry {
        Err(why) => c matches Chore::Fail(w) && w@ == why,
        Ok(e) => {
            let parts = paths::parts_of(e.name);
            if !is_enclosed(e.name) {
                c is Skip
            } else if paths::climbs(parts) {
                c matches Chore::Fail(w) && w@ == "archive path escapes destination: "@ + e.name
            } else if e.is_dir {
                c matches Chore::MakeDir(path) && path@ == installation::all_below(base, parts)
            } else {
                match e.data {
                    Ok(bytes) => c matches Chore::Write { path, data, mode } && path@
                        == installation::all_below(base, parts) && data@ == bytes && mode == e.mode,
                    Err(why) => c matches Chore::Fail(w) && w@ == why,
                }
            }
        },
    }
}

/// Whether a name of an entry can be used.
pub fn name_is_enclosed(name: &str) -> (r: bool)
    ensures
        r == is_enclosed(name@),
{
    let chars = text::chars_of(name);
    let mut i: usize = 0;
    while i < chars.len()
        invariant
            i <= chars@.len(),
            chars@ == name@,
            forall|k: int| 0 <= k < i ==> chars@[k] != '\0',
        decreases chars.len() - i,
    {
        if chars[i] == '\0' {
            return false;
        }
        i = i + 1;
    }
    if chars.len() > 0 && chars[0] == '/' {
        return false;
    }
    let parts = paths::components(&chars);
    let ghost all = text::rows(parts@);
    let mut depth: usize = 0;
    let mut k: usize = 0;
    assert(all.take(0) =~= Seq::<Seq<char>>::empty());
    while k < parts.len()
        invariant
            k <= parts@.len(),
            depth <= k,
            all == text::rows(parts@),
            all == paths::parts_of(name@),
            depth_of(all.take(k as int)) == Some(depth as nat),
        decreases parts.len() - k,
    {
        assert(all.take(k as int + 1).drop_last() =~= all.take(k as int));
        if !paths::is_parent(&parts[k]) {
            depth = depth + 1;
        } else if depth > 0 {
            depth = depth - 1;
        } else {
            proof {
                lemma_no_depth(all, k as int + 1);
            }
            return false;
        }
        k = k + 1;
    }
    assert(all.take(parts@.len() as int) =~= all);
    true
}

proof fn lemma_no_depth(parts: Seq<Seq<char>>, n: int)
    requires
        0 <= n <= parts.len(),
        depth_of(parts.take(n)) is None,
    ensures
        depth_of(parts) is None,
    decreases parts.len() - n,
{
    if n == parts.len() {
        assert(parts.take(n) =~= parts);
    } else {
        assert(parts.take(n + 1).drop_last() =~= parts.take(n));
        lemma_no_depth(parts, n + 1);
    }
}

/// What is to be done for an entry, with `base` as the destination.
pub fn chore_of(entry: Result<ZipEntry, String>, base: &str) -> (r: Chore)
    ensures
        is_chore(
            r,
            match entry {
                Ok(e) => Ok(entry_text(e)),
                Err(why) => Err(why@),
            },
            base@,
        ),
{
    let entry = match entry {
        Ok(entry) => entry,
        Err(why) => {
            return Chore::Fail(why);
        },
    };
    if !name_is_enclosed(entry.name.as_str()) {
        return Chore::Skip;
    }
    match installation::place_entry(base, Some(entry.name.as_str()), entry.is_dir) {
        Place::Skip => Chore::Skip,
        Place::Refuse(why) => Chore::Fail(why),
        Place::MakeDir(path) => Chore::MakeDir(path),
        Place::Write(path) => match entry.data {
            Ok(data) => Chore::Write { path, data, mode: entry.mode },
            Err(why) => Chore::Fail(why),
        },
    }
}

/// An archive that is unpacked entry by entry.
pub struct ZipUnpacking {
    archive: zip::ZipArchive<Cursor<Vec<u8>>>,
    next: usize,
}

impl ZipUnpacking {
    /// The entries of the archive.
    pub closed spec fn entries(self) -> Seq<Result<EntryText, Seq<char>>> {
        zip_entries(self.archive)
    }

    /// How many of them are done.
    pub closed spec fn done(self) -> nat {
        self.next as nat
    }

    pub open spec fn wf(self) -> bool {
        self.done() <= self.entries().len()
    }

    /// Opens the archive that bytes hold.
    pub fn open(bytes: Vec<u8>) -> (r: Result<ZipUnpacking, String>)
        ensures
            match zip_read(bytes@) {
                Ok(entries) => r matches Ok(z) && z.wf() && z.entries() == entries && z.done() == 0,
                Err(why) => r matches Err(w) && w@ == why,
            },
    {
        match open_zip(bytes) {
            Ok(archive) => Ok(ZipUnpacking { archive, next: 0 }),
            Err(why) => Err(why),
        }
    }

    /// What is to be done for the next entry, with `base` as the destination. There
    /// is none after the last.
    pub fn advance(&mut self, base: &str) -> (r: Option<Chore>)
        requires
            old(self).wf(),
        ensures
            final(self).wf(),
            final(self).entries() == old(self).entries(),
            if old(self).done() < old(self).entries().len() {
                final(self).done() == old(self).done() + 1 && (r matches Some(c) && is_chore(
                    c,
                    old(self).entries()[old(self).done() as int],
                    base@,
                ))
            } else {
                final(self).done() == old(self).done() && r is None
            },
    {
        if self.next >= zip_len(&self.archive) {
            return None;
        }
        let entry = zip_entry(&mut self.archive, self.next);
        self.next = self.next + 1;
        Some(chore_of(entry, base))
    }
}

// ------------------------------------------------------------------- tar

/// The heads of entries, or why one of them cannot be read, as texts.
pub open spec fn head_texts(heads: Seq<Result<(Vec<u8>, bool), String>>) -> Seq<
    Result<(Seq<u8>, bool), Seq<char>>,
> {
    heads.map_values(
        |head: Result<(Vec<u8>, bool), String>|
            match head {
                Ok((name, is_dir)) => Ok((name@, is_dir)),
                Err(why) => Err(why@),
            },
    )
}

/// The entries of the packed `.tar.gz` archive that bytes hold: of each its name
/// and whether it is a directory, or why it cannot be read.
pub uninterp spec fn tar_read(bytes: Seq<u8>) -> Seq<Result<(Seq<u8>, bool), Seq<char>>>;

/// `tar::Archive::entries` on what `flate2::read::GzDecoder` unpacks of bytes in
/// memory: which entries it walks over, up to the end or to what cannot be read,
/// depends on the bytes alone.
#[verifier::external_body]
fn tar_heads(bytes: &[u8]) -> (r: Vec<Result<(Vec<u8>, bool), String>>)
    ensures
        head_texts(r@) == tar_read(bytes@),
{
    let mut archive = tar::Archive::new(flate2::read::GzDecoder::new(bytes));
    match archive.entries() {
        Err(e) => vec![Err(e.to_string())],
        Ok(entries) => entries.map(
            |entry|
                match entry {
                    Ok(e) => Ok((e.path_bytes().into_owned(), e.header().entry_type().is_dir())),
                    Err(e) => Err(e.to_string()),
                },
        ).collect(),
    }
}

/// `r` is what is done about an entry, with `base` as the destination: one that
/// cannot be read is refused with the reason.
pub open spec fn is_tar_place(
    r: Place,
    entry: Result<(Seq<u8>, bool), Seq<char>>,
    base: Seq<char>,
) -> bool {
    match entry {
        Err(why) => r matches Place::Refuse(w) && w@ == why,
        Ok((name, is_dir)) => installation::is_place(
            r,
            base,
            Some(wire::lossy_text(name)),
            is_dir,
        ),
    }
}

/// What is done about an entry, with `base` as the destination.
pub fn tar_place(entry: &Result<(Vec<u8>, bool), String>, base: &str) -> (r: Place)
    ensures
        is_tar_place(
            r,
            match entry {
                Ok((name, is_dir)) => Ok((name@, *is_dir)),
                Err(why) => Err(why@),
            },
            base@,
        ),
{
    match entry {
        Err(why) => Place::Refuse(why.clone()),
        Ok((name, is_dir)) => {
            let shown = wire::lossy(name);
            installation::place_entry(base, Some(shown.as_str()), *is_dir)
        },
    }
}

/// A `.tar.gz` archive that is unpacked entry by entry.
#[derive(Debug)]
pub struct TarUnpacking {
    heads: Vec<Result<(Vec<u8>, bool), String>>,
    next: usize,
}

impl TarUnpacking {
    /// The entries of the archive.
    pub closed spec fn entries(self) -> Seq<Result<(Seq<u8>, bool), Seq<char>>> {
        head_texts(self.heads@)
    }

    /// How many of them are done.
    pub closed spec fn done(self) -> nat {
        self.next as nat
    }

    pub open spec fn wf(self) -> bool {
        self.done() <= self.entries().len()
    }

    /// Reads which entries the archive that bytes hold has.
    pub fn open(bytes: &[u8]) -> (r: TarUnpacking)
        ensures
            r.wf(),
            r.entries() == tar_read(bytes@),
            r.done() == 0,
    {
        TarUnpacking { heads: tar_heads(bytes), next: 0 }
    }

    /// What is done about the next entry, with `base` as the destination. There is
    /// none after the last.
    pub fn advance(&mut self, base: &str) -> (r: Option<Place>)
        requires
            old(self).wf(),
        ensures
            final(self).wf(),
            final(self).entries() == old(self).entries(),
            if old(self).done() < old(self).entries().len() {
                final(self).done() == old(self).done() + 1 && (r matches Some(p) && is_tar_place(
                    p,
                    old(self).entries()[old(self).done() as int],
                    base@,
                ))
            } else {
                final(self).done() == old(self).done() && r is None
            },
    {
        if self.next >= self.heads.len() {
            return None;
        }
        let place = tar_place(&self.heads[self.next], base);
        self.next = self.next + 1;
        Some(place)
    }
}

// ------------------------------------------------------------------ laws

/// Whatever an archive holds, what is made of it stays below the destination: the
/// parts of each path that is made or written are those of the destination and
/// then others that do not lead up.
pub proof fn law_zip_archives_stay_inside(
    entry: Result<EntryText, Seq<char>>,
    base: Seq<char>,
    chore: Chore,
    path: Seq<char>,
)
    requires
        is_chore(chore, entry, base),
        chore matches Chore::MakeDir(p) ==> path == p@,
        chore matches Chore::Write { path: p, .. } ==> path == p@,
        chore is MakeDir || chore is Write,
    ensures
        paths::parts_of(base).is_prefix_of(paths::parts_of(path)),
        !paths::climbs(paths::parts_of(path).skip(paths::parts_of(base).len() as int)),
{
    let parts = paths::parts_of(entry->Ok_0.name);
    installation::law_unpacked_files_stay_inside(base, entry->Ok_0.name);
    assert((paths::parts_of(base) + parts).skip(paths::parts_of(base).len() as int) =~= parts);
}

/// The same of an entry of a `.tar.gz` archive.
pub proof fn law_tar_archives_stay_inside(
    entry: Result<(Seq<u8>, bool), Seq<char>>,
    base: Seq<char>,
    place: Place,
    path: Seq<char>,
)
    requires
        is_tar_place(place, entry, base),
        place matches Place::MakeDir(p) ==> path == p@,
        place matches Place::Write(p) ==> path == p@,
        place is MakeDir || place is Write,
    ensures
        paths::parts_of(base).is_prefix_of(paths::parts_of(path)),
        !paths::climbs(paths::parts_of(path).skip(paths::parts_of(base).len() as int)),
{
    let name = wire::lossy_text(entry->Ok_0.0);
    let parts = paths::parts_of(name);
    installation::law_unpacked_files_stay_inside(base, name);
    assert((paths::parts_of(base) + parts).skip(paths::parts_of(base).len() as int) =~= parts);
}

} // verus!
