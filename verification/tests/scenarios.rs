use instar::error::{InstallError, RemoveError};
use instar::install::{InstallAction, Installer};
use instar::plan::{ArchiveListing, EntryHeader};
use instar::remove::{RemoveAction, Remover};

fn file(path: &str) -> EntryHeader {
    EntryHeader { path: path.as_bytes().to_vec(), is_dir: false }
}

fn dir(path: &str) -> EntryHeader {
    EntryHeader { path: path.as_bytes().to_vec(), is_dir: true }
}

fn listing(entries: Vec<EntryHeader>) -> ArchiveListing {
    ArchiveListing { entries, intact: true }
}

#[test]
fn install_places_category_files_and_skips_the_rest() {
    let archive = listing(vec![file("foo-1.0/bin/foo"), file("foo-1.0/README")]);
    let mut installer = Installer::begin(b"foo-1.0.tar.gz", Some(&archive), b"/opt");
    assert_eq!(installer.package(), b"foo-1.0".to_vec());

    assert_eq!(installer.pending(), InstallAction::EnsurePackagesDir);
    installer = installer.advance(true);
    assert_eq!(installer.pending(), InstallAction::CheckManifest);
    installer = installer.advance(false);
    assert_eq!(installer.pending(), InstallAction::CreateManifest);
    installer = installer.advance(true);
    assert_eq!(
        installer.pending(),
        InstallAction::Extract { entry: 0, dest: b"/opt/bin/foo".to_vec() }
    );
    installer = installer.advance(true);
    assert_eq!(installer.pending(), InstallAction::Finish(Ok(())));
    assert!(installer.is_finished());
}

#[test]
fn remove_prunes_up_to_the_category_root() {
    let mut remover = Remover::begin(Some(b"/opt/bin/tools/sub/foo\n"));
    assert_eq!(
        remover.pending(),
        RemoveAction::IsDirectory { path: b"/opt/bin/tools/sub/foo".to_vec() }
    );
    remover = remover.advance(false);
    assert_eq!(
        remover.pending(),
        RemoveAction::DeleteFile { path: b"/opt/bin/tools/sub/foo".to_vec() }
    );
    remover = remover.advance(true);
    assert_eq!(remover.pending(), RemoveAction::IsEmpty { dir: b"/opt/bin/tools/sub".to_vec() });
    remover = remover.advance(true);
    assert_eq!(remover.pending(), RemoveAction::RemoveDir { dir: b"/opt/bin/tools/sub".to_vec() });
    remover = remover.advance(true);
    assert_eq!(remover.pending(), RemoveAction::IsEmpty { dir: b"/opt/bin/tools".to_vec() });
    remover = remover.advance(true);
    assert_eq!(remover.pending(), RemoveAction::RemoveDir { dir: b"/opt/bin/tools".to_vec() });
    remover = remover.advance(true);
    assert_eq!(remover.pending(), RemoveAction::DeleteManifest);
    remover = remover.advance(true);
    assert_eq!(remover.pending(), RemoveAction::Finish(Ok(())));
}

#[test]
fn install_of_an_installed_package_is_refused() {
    let archive = listing(vec![dir("foo-1.0/bin/"), file("foo-1.0/bin/foo")]);
    let mut installer = Installer::begin(b"/tmp/foo-1.0.tar.gz", Some(&archive), b"/opt");
    installer = installer.advance(true);
    assert_eq!(installer.pending(), InstallAction::CheckManifest);
    installer = installer.advance(true);
    assert_eq!(installer.pending(), InstallAction::Finish(Err(InstallError::AlreadyInstalled)));
    installer = installer.advance(true);
    assert_eq!(installer.pending(), InstallAction::Finish(Err(InstallError::AlreadyInstalled)));
}

#[test]
fn remove_of_a_missing_package_is_refused() {
    let mut remover = Remover::begin(None);
    assert_eq!(remover.pending(), RemoveAction::Finish(Err(RemoveError::NotInstalled)));
    remover = remover.advance(true);
    assert_eq!(remover.pending(), RemoveAction::Finish(Err(RemoveError::NotInstalled)));
    assert!(remover.is_finished());
}
