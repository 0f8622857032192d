use instar::error::InstallError;
use instar::install::{InstallAction, Installer};
use instar::plan::{plan_install, ArchiveListing, EntryHeader, Step};

fn file(path: &str) -> EntryHeader {
    EntryHeader { path: path.as_bytes().to_vec(), is_dir: false }
}

fn dir(path: &str) -> EntryHeader {
    EntryHeader { path: path.as_bytes().to_vec(), is_dir: true }
}

fn step(entry: usize, is_dir: bool, dest: &str) -> Step {
    Step { entry, is_dir, dest: dest.as_bytes().to_vec() }
}

/// Answers each request with `true`, but a manifest check with `false`, and
/// returns the requests in their order, the last being the end.
fn run_unhindered(mut installer: Installer) -> Vec<InstallAction> {
    let mut seen = Vec::new();
    for _ in 0..1000 {
        let action = installer.pending();
        let answer = !matches!(action, InstallAction::CheckManifest);
        let done = matches!(action, InstallAction::Finish(_));
        seen.push(action);
        if done {
            return seen;
        }
        installer = installer.advance(answer);
    }
    panic!("the install did not end");
}

#[test]
fn plan_has_a_step_for_each_entry_in_a_category() {
    let listing = ArchiveListing {
        entries: vec![
            dir("foo-1.0/"),
            dir("foo-1.0/bin/"),
            file("foo-1.0/bin/foo"),
            file("foo-1.0/README"),
            dir("foo-1.0/share/man/"),
            file("foo-1.0/share/man/foo.1"),
            file("foo-1.0/Makefile"),
        ],
        intact: true,
    };
    let plan = plan_install(&listing, b"foo-1.0", b"/opt");
    assert_eq!(
        plan.steps,
        vec![
            step(1, true, "/opt/bin"),
            step(2, false, "/opt/bin/foo"),
            step(4, true, "/opt/share/man"),
            step(5, false, "/opt/share/man/foo.1"),
        ]
    );
    assert_eq!(plan.end, Ok(()));
}

#[test]
fn plan_of_an_empty_archive_is_empty() {
    let listing = ArchiveListing { entries: vec![], intact: true };
    let plan = plan_install(&listing, b"foo", b"/opt");
    assert_eq!(plan.steps, vec![]);
    assert_eq!(plan.end, Ok(()));
}

#[test]
fn plan_of_a_broken_archive_ends_with_a_format_error() {
    let listing = ArchiveListing { entries: vec![file("foo/bin/a"), file("foo/x")], intact: false };
    let plan = plan_install(&listing, b"foo", b"/opt");
    assert_eq!(plan.steps, vec![step(0, false, "/opt/bin/a")]);
    assert_eq!(plan.end, Err(InstallError::ArchiveFormatError));
}

#[test]
fn plan_stops_at_an_unresolved_file() {
    let listing = ArchiveListing {
        entries: vec![
            file("foo/bin/a"),
            EntryHeader { path: b"foo/bin/\xfe".to_vec(), is_dir: false },
            file("foo/bin/b"),
        ],
        intact: true,
    };
    let plan = plan_install(&listing, b"foo", b"/opt");
    assert_eq!(plan.steps, vec![step(0, false, "/opt/bin/a")]);
    assert_eq!(plan.end, Err(InstallError::ExtractError(b"/opt/bin/\xfe".to_vec())));
}

#[test]
fn plan_stops_at_an_unresolved_directory() {
    let listing = ArchiveListing {
        entries: vec![EntryHeader { path: b"foo/lib/\xfe/".to_vec(), is_dir: true }, file("foo/bin/b")],
        intact: false,
    };
    let plan = plan_install(&listing, b"foo", b"/opt");
    assert_eq!(plan.steps, vec![]);
    assert_eq!(plan.end, Err(InstallError::DirectoryCreateError(b"/opt/lib/\xfe".to_vec())));
}

#[test]
fn manifest_has_a_line_for_each_file_of_a_categorized_archive() {
    let listing = ArchiveListing {
        entries: vec![
            dir("p/bin/"),
            file("p/bin/a"),
            file("p/bin/b"),
            dir("p/etc/p/"),
            file("p/etc/p/conf"),
            file("p/lib/libp.so"),
        ],
        intact: true,
    };
    let actions = run_unhindered(Installer::begin(b"p.tar.gz", Some(&listing), b"/opt"));
    let recorded: Vec<Vec<u8>> = actions
        .iter()
        .filter_map(|a| match a {
            InstallAction::Extract { dest, .. } => Some(dest.clone()),
            _ => None,
        })
        .collect();
    let files = listing.entries.iter().filter(|e| !e.is_dir).count();
    assert_eq!(recorded.len(), files);
    assert_eq!(
        recorded,
        vec![
            b"/opt/bin/a".to_vec(),
            b"/opt/bin/b".to_vec(),
            b"/opt/etc/p/conf".to_vec(),
            b"/opt/lib/libp.so".to_vec(),
        ]
    );
    assert!(recorded.iter().all(|p| p[0] == b'/'));
    assert_eq!(actions.last(), Some(&InstallAction::Finish(Ok(()))));
}

#[test]
fn unhindered_install_asks_for_everything_in_order() {
    let listing = ArchiveListing {
        entries: vec![file("p/NEWS"), dir("p/share/p/"), file("p/share/p/data")],
        intact: true,
    };
    let actions = run_unhindered(Installer::begin(b"/dl/p.tar.gz", Some(&listing), b"/opt"));
    assert_eq!(
        actions,
        vec![
            InstallAction::EnsurePackagesDir,
            InstallAction::CheckManifest,
            InstallAction::CreateManifest,
            InstallAction::MakeDir { dest: b"/opt/share/p".to_vec() },
            InstallAction::Extract { entry: 2, dest: b"/opt/share/p/data".to_vec() },
            InstallAction::Finish(Ok(())),
        ]
    );
}

#[test]
fn entries_outside_the_categories_are_never_asked_for() {
    let listing = ArchiveListing {
        entries: vec![file("p/README"), dir("p/src/"), file("p/src/main.c"), file("p/bin/p")],
        intact: true,
    };
    let actions = run_unhindered(Installer::begin(b"p.tar.gz", Some(&listing), b"/opt"));
    for action in &actions {
        match action {
            InstallAction::Extract { entry, dest } => {
                assert_eq!(*entry, 3);
                assert_eq!(dest, &b"/opt/bin/p".to_vec());
            }
            InstallAction::MakeDir { .. } => panic!("no directory is in a category"),
            _ => {}
        }
    }
}

#[test]
fn archive_that_cannot_be_opened_ends_the_install() {
    let installer = Installer::begin(b"foo.tar.gz", None, b"/opt");
    assert_eq!(installer.pending(), InstallAction::Finish(Err(InstallError::ArchiveOpenError)));
    assert!(installer.is_finished());
    assert_eq!(installer.package(), b"".to_vec());
}

#[test]
fn archive_with_another_suffix_ends_the_install() {
    let listing = ArchiveListing { entries: vec![file("foo/bin/foo")], intact: true };
    let installer = Installer::begin(b"foo.zip", Some(&listing), b"/opt");
    assert_eq!(installer.pending(), InstallAction::Finish(Err(InstallError::InvalidArchiveName)));
}

#[test]
fn missing_archive_is_reported_before_a_wrong_name() {
    let installer = Installer::begin(b"foo.zip", None, b"/opt");
    assert_eq!(installer.pending(), InstallAction::Finish(Err(InstallError::ArchiveOpenError)));
}

#[test]
fn packages_dir_that_cannot_be_created_ends_the_install() {
    let listing = ArchiveListing { entries: vec![file("foo/bin/foo")], intact: true };
    let installer = Installer::begin(b"foo.tar.gz", Some(&listing), b"/opt");
    assert_eq!(installer.pending(), InstallAction::EnsurePackagesDir);
    let installer = installer.advance(false);
    assert_eq!(
        installer.pending(),
        InstallAction::Finish(Err(InstallError::ManifestDirCreateError))
    );
}

#[test]
fn manifest_that_cannot_be_created_ends_the_install() {
    let listing = ArchiveListing { entries: vec![file("foo/bin/foo")], intact: true };
    let installer = Installer::begin(b"foo.tar.gz", Some(&listing), b"/opt");
    let installer = installer.advance(true).advance(false);
    assert_eq!(installer.pending(), InstallAction::CreateManifest);
    let installer = installer.advance(false);
    assert_eq!(installer.pending(), InstallAction::Finish(Err(InstallError::ManifestCreateError)));
}

#[test]
fn directory_that_cannot_be_created_ends_the_install() {
    let listing =
        ArchiveListing { entries: vec![dir("foo/bin/"), file("foo/bin/foo")], intact: true };
    let installer = Installer::begin(b"foo.tar.gz", Some(&listing), b"/opt");
    let installer = installer.advance(true).advance(false).advance(true);
    assert_eq!(installer.pending(), InstallAction::MakeDir { dest: b"/opt/bin".to_vec() });
    let installer = installer.advance(false);
    assert_eq!(
        installer.pending(),
        InstallAction::Finish(Err(InstallError::DirectoryCreateError(b"/opt/bin".to_vec())))
    );
}

#[test]
fn file_that_cannot_be_written_ends_the_install() {
    let listing =
        ArchiveListing { entries: vec![file("foo/bin/a"), file("foo/bin/b")], intact: true };
    let installer = Installer::begin(b"foo.tar.gz", Some(&listing), b"/opt");
    let installer = installer.advance(true).advance(false).advance(true).advance(true);
    assert_eq!(
        installer.pending(),
        InstallAction::Extract { entry: 1, dest: b"/opt/bin/b".to_vec() }
    );
    let installer = installer.advance(false);
    assert_eq!(
        installer.pending(),
        InstallAction::Finish(Err(InstallError::ExtractError(b"/opt/bin/b".to_vec())))
    );
}

#[test]
fn broken_archive_ends_the_install_after_what_could_be_read() {
    let listing = ArchiveListing { entries: vec![file("foo/bin/a")], intact: false };
    let actions = run_unhindered(Installer::begin(b"foo.tar.gz", Some(&listing), b"/opt"));
    assert_eq!(
        actions,
        vec![
            InstallAction::EnsurePackagesDir,
            InstallAction::CheckManifest,
            InstallAction::CreateManifest,
            InstallAction::Extract { entry: 0, dest: b"/opt/bin/a".to_vec() },
            InstallAction::Finish(Err(InstallError::ArchiveFormatError)),
        ]
    );
}

#[test]
fn archive_without_categorized_entries_installs_nothing() {
    let listing = ArchiveListing { entries: vec![file("foo/README")], intact: true };
    let actions = run_unhindered(Installer::begin(b"foo.tar.gz", Some(&listing), b"/opt"));
    assert_eq!(
        actions,
        vec![
            InstallAction::EnsurePackagesDir,
            InstallAction::CheckManifest,
            InstallAction::CreateManifest,
            InstallAction::Finish(Ok(())),
        ]
    );
}

#[test]
fn finished_install_stays_finished() {
    let listing = ArchiveListing { entries: vec![file("foo/bin/a")], intact: true };
    let installer = Installer::begin(b"foo.tar.gz", Some(&listing), b"/opt").advance(false);
    let installer = installer.advance(true).advance(false).advance(true);
    assert_eq!(
        installer.pending(),
        InstallAction::Finish(Err(InstallError::ManifestDirCreateError))
    );
}

#[test]
fn relative_root_ends_the_install_at_the_first_entry_in_a_category() {
    let listing = ArchiveListing { entries: vec![file("foo/README"), file("foo/bin/a")], intact: true };
    let actions = run_unhindered(Installer::begin(b"foo.tar.gz", Some(&listing), b"local"));
    assert_eq!(
        actions,
        vec![
            InstallAction::EnsurePackagesDir,
            InstallAction::CheckManifest,
            InstallAction::CreateManifest,
            InstallAction::Finish(Err(InstallError::ExtractError(b"local/bin/a".to_vec()))),
        ]
    );
}
