use astrolabe_core::lsp::archive::{
    chore_of, name_is_enclosed, tar_place, Chore, TarUnpacking, ZipEntry, ZipUnpacking,
};
use astrolabe_core::lsp::installation::Place;
use flate2::write::GzEncoder;
use flate2::Compression;
use std::io::{Cursor, Write};

fn zip_of(entries: &[(&str, &[u8])]) -> Vec<u8> {
    zip_with(zip::CompressionMethod::Deflated, entries)
}

fn zip_with(method: zip::CompressionMethod, entries: &[(&str, &[u8])]) -> Vec<u8> {
    let mut writer = zip::ZipWriter::new(Cursor::new(Vec::new()));
    for (name, data) in entries {
        let options = zip::write::SimpleFileOptions::default()
            .compression_method(method)
            .unix_permissions(0o750);
        if name.ends_with('/') {
            writer.add_directory(*name, options).expect("directory");
        } else {
            writer.start_file(*name, options).expect("file");
            writer.write_all(data).expect("data");
        }
    }
    writer.finish().expect("archive").into_inner()
}

fn chores(bytes: Vec<u8>) -> Vec<String> {
    let mut archive = ZipUnpacking::open(bytes).expect("archive");
    let mut out = Vec::new();
    while let Some(chore) = archive.advance("/dest") {
        out.push(match chore {
            Chore::Skip => "skip".to_string(),
            Chore::MakeDir(path) => format!("dir {path}"),
            Chore::Write { path, data, mode } => format!(
                "write {path} {} {:o}",
                String::from_utf8(data).expect("text"),
                mode.expect("mode") & 0o777
            ),
            Chore::Fail(why) => format!("fail {why}"),
        });
    }
    out
}

#[test]
fn zip_entries_are_unpacked_in_their_order() {
    let bytes = zip_of(&[("bin/", b""), ("bin/server", b"program"), ("./a//b", b"")]);
    assert_eq!(
        chores(bytes),
        vec![
            "dir /dest/bin",
            "write /dest/bin/server program 750",
            "write /dest/a/b  750",
        ]
    );
}

#[test]
fn zip_entries_that_lead_elsewhere_are_not_unpacked() {
    let bytes = zip_of(&[("../up", b"x"), ("/etc/x", b"x"), ("a/../b", b"x"), ("ok", b"x")]);
    assert_eq!(
        chores(bytes),
        vec![
            "skip",
            "skip",
            "fail archive path escapes destination: a/../b",
            "write /dest/ok x 750",
        ]
    );
}

#[test]
fn bytes_that_are_no_archive_are_refused() {
    assert!(ZipUnpacking::open(b"not a zip".to_vec()).is_err());
    assert!(chores(zip_of(&[])).is_empty());
}

#[test]
fn contents_that_cannot_be_read_fail() {
    let mut bytes = zip_with(zip::CompressionMethod::Stored, &[("a", b"contents")]);
    let at = bytes
        .windows(8)
        .position(|w| w == b"contents")
        .expect("the contents");
    bytes[at] = b'C';
    let got = chores(bytes);
    assert_eq!(got.len(), 1);
    assert!(got[0].starts_with("fail "), "{got:?}");

    let entry = |name: &str, is_dir: bool| ZipEntry {
        name: name.into(),
        is_dir,
        mode: None,
        data: Err("torn".into()),
    };
    assert!(matches!(chore_of(Ok(entry("a", false)), "/d"), Chore::Fail(w) if w == "torn"));
    assert!(matches!(chore_of(Ok(entry("a/", true)), "/d"), Chore::MakeDir(p) if p == "/d/a"));
    assert!(matches!(chore_of(Ok(entry("..", false)), "/d"), Chore::Skip));
    assert!(matches!(chore_of(Err("locked".into()), "/d"), Chore::Fail(w) if w == "locked"));
}

#[test]
fn names_that_stay_inside_can_be_used() {
    for name in ["a", "a/b", "./a", "a/../b", "a/b/../../c", ""] {
        assert!(name_is_enclosed(name), "{name}");
    }
    for name in ["/a", "..", "../a", "a/../../b", "a\0b"] {
        assert!(!name_is_enclosed(name), "{name}");
    }
}

/// Names are put into the headers as they are, so that bad ones can be.
fn targz_of(entries: &[(&str, &[u8])]) -> Vec<u8> {
    let mut tar = tar::Builder::new(GzEncoder::new(Vec::new(), Compression::default()));
    for (name, data) in entries {
        let mut header = tar::Header::new_gnu();
        header.as_mut_bytes()[..name.len()].copy_from_slice(name.as_bytes());
        header.set_size(data.len() as u64);
        header.set_mode(0o755);
        if name.ends_with('/') {
            header.set_entry_type(tar::EntryType::Directory);
        }
        header.set_cksum();
        tar.append(&header, *data).expect("entry");
    }
    tar.into_inner().expect("archive").finish().expect("bytes")
}

fn places(bytes: &[u8]) -> Vec<Place> {
    let mut archive = TarUnpacking::open(bytes);
    let mut out = Vec::new();
    while let Some(place) = archive.advance("/dest") {
        out.push(place);
    }
    out
}

#[test]
fn tar_entries_find_their_places_in_their_order() {
    let bytes = targz_of(&[("bin/", b""), ("bin/server", b"program"), ("./a//b", b"x")]);
    assert_eq!(
        places(&bytes),
        vec![
            Place::MakeDir("/dest/bin".into()),
            Place::Write("/dest/bin/server".into()),
            Place::Write("/dest/a/b".into()),
        ]
    );
    assert!(places(&targz_of(&[])).is_empty());
}

#[test]
fn tar_entries_that_lead_elsewhere_are_refused() {
    let bytes = targz_of(&[("../up", b"x"), ("/etc/x", b"x"), ("ok", b"x")]);
    assert_eq!(
        places(&bytes),
        vec![
            Place::Refuse("archive path escapes destination: ../up".into()),
            Place::Refuse("archive path is absolute: /etc/x".into()),
            Place::Write("/dest/ok".into()),
        ]
    );
}

#[test]
fn tar_archives_that_cannot_be_read_are_refused() {
    assert!(matches!(places(b"no gzip")[..], [Place::Refuse(_)]));
    let whole = targz_of(&[("a", b"x"), ("b", b"y")]);
    let torn = places(&whole[..whole.len() / 2]);
    assert!(matches!(torn.last(), Some(Place::Refuse(_))), "{torn:?}");
    assert_eq!(
        tar_place(&Err("torn".into()), "/d"),
        Place::Refuse("torn".into())
    );
    assert_eq!(
        tar_place(&Ok((b"a/".to_vec(), true)), "/d"),
        Place::MakeDir("/d/a".into())
    );
}
