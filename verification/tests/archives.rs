use flate2::read::GzDecoder;
use flate2::write::GzEncoder;
use flate2::Compression;
use instar::install::{InstallAction, Installer};
use instar::plan::{plan_install, ArchiveListing, EntryHeader, Step};
use instar::error::InstallError;
use tar::{Archive, Builder, EntryType, Header};

/// A gzip-compressed tar stream with the given entries; a path that ends
/// with `/` is a directory.
fn archive(entries: &[(&str, &[u8])]) -> Vec<u8> {
    let mut builder = Builder::new(GzEncoder::new(Vec::new(), Compression::default()));
    for (path, content) in entries {
        let mut header = Header::new_gnu();
        if path.ends_with('/') {
            header.set_entry_type(EntryType::Directory);
            header.set_mode(0o755);
        } else {
            header.set_entry_type(EntryType::Regular);
            header.set_mode(0o644);
        }
        header.set_size(content.len() as u64);
        builder.append_data(&mut header, path, *content).unwrap();
    }
    builder.into_inner().unwrap().finish().unwrap()
}

/// The entries of the stream, read as the command line reads them.
fn listing(bytes: &[u8]) -> ArchiveListing {
    let mut archive = Archive::new(GzDecoder::new(bytes));
    let mut listing = ArchiveListing { entries: Vec::new(), intact: true };
    let entries = match archive.entries() {
        Ok(entries) => entries,
        Err(_) => {
            listing.intact = false;
            return listing;
        }
    };
    for entry in entries {
        match entry {
            Ok(entry) => listing.entries.push(EntryHeader {
                path: entry.path_bytes().into_owned(),
                is_dir: entry.header().entry_type().is_dir(),
            }),
            Err(_) => {
                listing.intact = false;
                break;
            }
        }
    }
    listing
}

#[test]
fn real_archive_is_planned_entry_by_entry() {
    let bytes = archive(&[
        ("foo-1.0/", b""),
        ("foo-1.0/bin/", b""),
        ("foo-1.0/bin/foo", b"#!/bin/sh\necho foo\n"),
        ("foo-1.0/README", b"read me"),
    ]);
    let listing = listing(&bytes);
    assert!(listing.intact);
    assert_eq!(listing.entries.len(), 4);
    let plan = plan_install(&listing, b"foo-1.0", b"/opt");
    assert_eq!(
        plan.steps,
        vec![
            Step { entry: 1, is_dir: true, dest: b"/opt/bin".to_vec() },
            Step { entry: 2, is_dir: false, dest: b"/opt/bin/foo".to_vec() },
        ]
    );
    assert_eq!(plan.end, Ok(()));
}

#[test]
fn real_archive_installs_the_category_file_only() {
    let bytes = archive(&[("foo-1.0/bin/foo", b"binary"), ("foo-1.0/README", b"read me")]);
    let listing = listing(&bytes);
    let mut installer = Installer::begin(b"foo-1.0.tar.gz", Some(&listing), b"/opt");
    let mut manifest = Vec::new();
    let mut written = Vec::new();
    loop {
        let answer = match installer.pending() {
            InstallAction::CheckManifest => false,
            InstallAction::Extract { entry, dest } => {
                manifest.extend(instar::manifest::record(&dest));
                written.push((entry, dest));
                true
            }
            InstallAction::Finish(result) => {
                assert_eq!(result, Ok(()));
                break;
            }
            _ => true,
        };
        installer = installer.advance(answer);
    }
    assert_eq!(manifest, b"/opt/bin/foo\n".to_vec());
    assert_eq!(written, vec![(0, b"/opt/bin/foo".to_vec())]);
}

#[test]
fn cut_archive_is_listed_as_far_as_it_goes() {
    let big = vec![7u8; 20_000];
    let noise: Vec<u8> = (0..60_000u32).map(|i| (i.wrapping_mul(2654435761) >> 13) as u8).collect();
    let bytes = archive(&[("p/bin/a", &big), ("p/bin/b", &noise), ("p/bin/c", b"c")]);
    let cut = &bytes[..bytes.len() / 2];
    let listing = listing(cut);
    assert!(!listing.intact);
    assert!(listing.entries.len() < 3);
    let plan = plan_install(&listing, b"p", b"/opt");
    assert_eq!(plan.end, Err(InstallError::ArchiveFormatError));
    assert_eq!(plan.steps.len(), listing.entries.len());
}

#[test]
fn bytes_that_are_no_archive_give_a_broken_listing() {
    let listing = listing(b"this is not a gzip stream");
    assert!(!listing.intact);
    assert!(listing.entries.is_empty());
    let plan = plan_install(&listing, b"p", b"/opt");
    assert_eq!(plan.steps, vec![]);
    assert_eq!(plan.end, Err(InstallError::ArchiveFormatError));
}
