use tolearn_core::archive::{
    contained, entry_path, kind, place, root, ArchiveError, Entry, Format, Limits, Tally,
};

#[test]
fn entries_are_placed_under_the_directory() {
    assert_eq!(place("/tmp/x", "a/b.txt"), Ok("/tmp/x/a/b.txt".to_string()));
    assert_eq!(place("/tmp/x/", "./a"), Ok("/tmp/x/a".to_string()));
    assert_eq!(place("x", "a//b/"), Ok("x/a/b".to_string()));
    assert_eq!(place("", "a"), Ok("a".to_string()));
}

#[test]
fn entries_that_lead_out_are_refused() {
    let escaping = |entry: &str| ArchiveError::Escaping { entry: entry.to_string() };
    assert_eq!(place("x", "../a"), Err(escaping("../a")));
    assert_eq!(place("x", "a/../../b"), Err(escaping("a/../../b")));
    assert_eq!(place("x", "/etc/passwd"), Err(escaping("/etc/passwd")));
    assert_eq!(place("x", "."), Err(escaping(".")));
    assert_eq!(place("x", ""), Err(escaping("")));
}

#[test]
fn containment_goes_by_components() {
    assert!(contained("/a/b", "/a/b/c"));
    assert!(contained("/a/b/", "/a/b"));
    assert!(!contained("/a/b", "/a/bc"));
    assert!(!contained("/a/b/c", "/a/b"));
}

#[test]
fn the_shallowest_bundle_is_the_root() {
    let found = vec!["/x/a/b".to_string(), "/x/c".to_string()];
    assert_eq!(root(&found), Ok("/x/c".to_string()));
}

#[test]
fn no_bundle_or_several() {
    assert_eq!(root(&[]), Err(ArchiveError::NoBundle));
    let found = vec!["/x/a".to_string(), "/x/b".to_string(), "/x/a/c".to_string()];
    assert_eq!(root(&found), Err(ArchiveError::ManyBundles));
}

#[test]
fn formats_by_magic_bytes() {
    assert_eq!(kind(&[0x50, 0x4b, 3, 4]), Ok(Format::Zip));
    assert_eq!(kind(&[0x1f, 0x8b]), Ok(Format::Gzip));
    assert_eq!(kind(&[0x50]), Err(ArchiveError::UnknownFormat));
    assert_eq!(kind(&[0, 0]), Err(ArchiveError::UnknownFormat));
}

#[test]
fn default_limits() {
    let limits = Limits::default();
    assert_eq!(limits.entries, 10_000);
    assert_eq!(limits.bytes, 256 << 20);
    assert_eq!(limits.ratio, 200);
}

#[test]
fn too_many_entries() {
    let limits = Limits { entries: 2, bytes: 100, ratio: 2 };
    let mut tally = Tally::new(&limits, 10);
    assert_eq!(tally.entry(), Ok(()));
    assert_eq!(tally.entry(), Ok(()));
    assert_eq!(tally.entry(), Err(ArchiveError::TooMany { entries: 2 }));
}

#[test]
fn too_dense_then_too_big() {
    let limits = Limits { entries: 2, bytes: 100, ratio: 2 };
    let mut tally = Tally::new(&limits, 10);
    assert_eq!(tally.grow(20), Ok(()));
    assert_eq!(tally.grow(5), Ok(()));
    assert_eq!(tally.grow(10), Err(ArchiveError::TooDense { ratio: 2 }));
    let mut loose = Tally::new(&limits, 0);
    assert_eq!(loose.grow(100), Ok(()));
    assert_eq!(loose.grow(1), Err(ArchiveError::TooBig { bytes: 100 }));
}

#[test]
fn entries_by_kind() {
    let limits = Limits::default();
    let mut tally = Tally::new(&limits, 10);
    assert_eq!(
        entry_path(Entry::Link, "l", "x", &mut tally),
        Err(ArchiveError::Link { entry: "l".to_string() })
    );
    assert_eq!(
        entry_path(Entry::Other, "fifo", "x", &mut tally),
        Err(ArchiveError::Link { entry: "fifo".to_string() })
    );
    assert_eq!(entry_path(Entry::Directory, "d/", "x", &mut tally), Ok(None));
    assert_eq!(tally.entries, 0);
    assert_eq!(entry_path(Entry::File, "a", "x", &mut tally), Ok(Some("x/a".to_string())));
    assert_eq!(tally.entries, 1);
}

#[test]
fn archive_errors_have_codes_and_messages() {
    assert_eq!(ArchiveError::UnknownFormat.code(), "archive.unknown-format");
    assert_eq!(ArchiveError::TooDense { ratio: 3 }.code(), "archive.too-dense");
    assert_eq!(
        ArchiveError::TooMany { entries: 5 }.message(),
        "the archive holds more than 5 entries"
    );
    assert_eq!(
        ArchiveError::Unreadable { path: "/a".to_string(), kind: "entity not found".to_string() }
            .message(),
        "`/a` cannot be read: entity not found"
    );
    assert_eq!(
        ArchiveError::Escaping { entry: "../x".to_string() }.message(),
        "`../x` leads out of the directory it is unpacked into"
    );
    assert_eq!(ArchiveError::NoBundle.message(), "the archive holds no `roadmap.yaml`");
    assert_eq!(ArchiveError::ManyBundles.code(), "archive.many-bundles");
    assert_eq!(ArchiveError::Damaged { reason: "eof".to_string() }.message(), "the archive is damaged: eof");
    assert_eq!(ArchiveError::TooBig { bytes: 7 }.message(), "unpacked, the archive is over 7 bytes");
}

#[test]
fn a_tally_counts_every_call() {
    let limits = tolearn_core::archive::Limits { entries: 2, bytes: 100, ratio: 10 };
    let mut tally = tolearn_core::archive::Tally::new(&limits, 5);
    assert_eq!(tally.grow(30), Ok(()));
    assert_eq!(tally.entry(), Ok(()));
    assert_eq!(tally.grow(30), Err(tolearn_core::archive::ArchiveError::TooDense { ratio: 10 }));
    assert_eq!(tally.grow(50), Err(tolearn_core::archive::ArchiveError::TooBig { bytes: 100 }));
    assert_eq!(tally.entry(), Ok(()));
    assert_eq!(tally.entry(), Err(tolearn_core::archive::ArchiveError::TooMany { entries: 2 }));
    assert_eq!((tally.entries, tally.bytes), (3, 110));
}
