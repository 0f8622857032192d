use instar::error::{InstallError, RemoveError};
use instar::install::{InstallAction, Installer};
use instar::manifest::{parse, record};
use instar::path::{parent, split};
use instar::plan::{ArchiveListing, EntryHeader};
use instar::remove::{RemoveAction, Remover};
use std::collections::BTreeSet;

/// A filesystem in memory: the files and directories that exist, each by
/// the components of its path, and the manifest.
#[derive(Clone, Debug, PartialEq, Eq)]
struct Disk {
    files: BTreeSet<Vec<Vec<u8>>>,
    dirs: BTreeSet<Vec<Vec<u8>>>,
    manifest: Option<Vec<u8>>,
}

impl Disk {
    fn with_dirs(dirs: &[&str]) -> Disk {
        let mut disk = Disk { files: BTreeSet::new(), dirs: BTreeSet::new(), manifest: None };
        for dir in dirs {
            disk.make_dirs(&split(dir.as_bytes()));
        }
        disk
    }

    fn make_dirs(&mut self, key: &[Vec<u8>]) -> bool {
        for n in 1..=key.len() {
            if self.files.contains(&key[..n]) {
                return false;
            }
        }
        for n in 1..=key.len() {
            self.dirs.insert(key[..n].to_vec());
        }
        true
    }

    fn write_file(&mut self, path: &[u8]) -> bool {
        let key = split(path);
        if key.is_empty() || self.dirs.contains(&key) || !self.make_dirs(&key[..key.len() - 1]) {
            return false;
        }
        self.files.insert(key);
        true
    }

    fn is_empty(&self, dir: &[u8]) -> bool {
        let key = split(dir);
        let inside = |c: &&Vec<Vec<u8>>| c.len() == key.len() + 1 && c[..key.len()] == key[..];
        self.files.iter().find(inside).is_none() && self.dirs.iter().find(inside).is_none()
    }

    fn has_file(&self, path: &str) -> bool {
        self.files.contains(&split(path.as_bytes()))
    }

    fn has_dir(&self, path: &str) -> bool {
        self.dirs.contains(&split(path.as_bytes()))
    }
}

fn install(disk: &mut Disk, archive: &str, listing: &ArchiveListing, root: &str) -> Result<(), InstallError> {
    let mut installer = Installer::begin(archive.as_bytes(), Some(listing), root.as_bytes());
    for _ in 0..10_000 {
        let answer = match installer.pending() {
            InstallAction::EnsurePackagesDir => true,
            InstallAction::CheckManifest => disk.manifest.is_some(),
            InstallAction::CreateManifest => {
                disk.manifest = Some(Vec::new());
                true
            }
            InstallAction::MakeDir { dest } => disk.make_dirs(&split(&dest)),
            InstallAction::Extract { dest, .. } => {
                disk.manifest.as_mut().unwrap().extend(record(&dest));
                disk.write_file(&dest)
            }
            InstallAction::Finish(result) => return result,
        };
        installer = installer.advance(answer);
    }
    panic!("the install did not end");
}

fn remove(disk: &mut Disk) -> Result<(), RemoveError> {
    let manifest = disk.manifest.clone();
    let mut remover = Remover::begin(manifest.as_deref());
    for _ in 0..10_000 {
        let answer = match remover.pending() {
            RemoveAction::IsDirectory { path } => disk.dirs.contains(&split(&path)),
            RemoveAction::DeleteFile { path } => disk.files.remove(&split(&path)),
            RemoveAction::IsEmpty { dir } => disk.is_empty(&dir),
            RemoveAction::RemoveDir { dir } => disk.is_empty(&dir) && disk.dirs.remove(&split(&dir)),
            RemoveAction::DeleteManifest => disk.manifest.take().is_some(),
            RemoveAction::Finish(result) => return result,
        };
        remover = remover.advance(answer);
    }
    panic!("the removal did not end");
}

fn file(path: &str) -> EntryHeader {
    EntryHeader { path: path.as_bytes().to_vec(), is_dir: false }
}

fn dir(path: &str) -> EntryHeader {
    EntryHeader { path: path.as_bytes().to_vec(), is_dir: true }
}

fn sample() -> ArchiveListing {
    ArchiveListing {
        entries: vec![
            dir("foo-1.0/"),
            file("foo-1.0/README"),
            dir("foo-1.0/bin/"),
            file("foo-1.0/bin/foo"),
            file("foo-1.0/bin/tools/sub/helper"),
            dir("foo-1.0/share/foo/"),
            file("foo-1.0/share/foo/data/a.dat"),
            file("foo-1.0/share/foo/data/b.dat"),
            file("foo-1.0/share/man/man1/foo.1"),
            file("foo-1.0/src/main.c"),
        ],
        intact: true,
    }
}

fn roots() -> Disk {
    Disk::with_dirs(&["/opt/bin", "/opt/etc", "/opt/include", "/opt/lib", "/opt/share"])
}

#[test]
fn install_writes_the_files_and_records_them() {
    let mut disk = roots();
    assert_eq!(install(&mut disk, "foo-1.0.tar.gz", &sample(), "/opt"), Ok(()));
    let recorded = parse(disk.manifest.as_ref().unwrap());
    assert_eq!(recorded.len(), 5);
    for line in &recorded {
        assert_eq!(line[0], b'/');
        assert!(disk.files.contains(&split(line)));
    }
    assert_eq!(disk.files.len(), 5);
    assert!(disk.has_file("/opt/bin/foo"));
    assert!(disk.has_file("/opt/share/man/man1/foo.1"));
    assert!(!disk.has_file("/opt/README"));
    assert!(!disk.has_dir("/opt/src"));
}

#[test]
fn install_then_remove_leaves_the_tree_as_it_was() {
    let before = roots();
    let mut disk = before.clone();
    assert_eq!(install(&mut disk, "foo-1.0.tar.gz", &sample(), "/opt"), Ok(()));
    assert_ne!(disk, before);
    assert_eq!(remove(&mut disk), Ok(()));
    assert_eq!(disk, before);
}

#[test]
fn install_then_remove_keeps_what_others_own() {
    let mut before = roots();
    assert!(before.write_file(b"/opt/share/man/man1/bar.1"));
    assert!(before.write_file(b"/opt/bin/bar"));
    let mut disk = before.clone();
    assert_eq!(install(&mut disk, "foo-1.0.tar.gz", &sample(), "/opt"), Ok(()));
    assert_eq!(remove(&mut disk), Ok(()));
    assert_eq!(disk, before);
    assert!(disk.has_file("/opt/share/man/man1/bar.1"));
}

#[test]
fn remove_keeps_an_empty_category_root() {
    let mut disk = roots();
    let listing = ArchiveListing { entries: vec![file("p/bin/tools/sub/foo")], intact: true };
    assert_eq!(install(&mut disk, "p.tar.gz", &listing, "/opt"), Ok(()));
    assert!(disk.has_dir("/opt/bin/tools/sub"));
    assert_eq!(remove(&mut disk), Ok(()));
    assert!(!disk.has_dir("/opt/bin/tools/sub"));
    assert!(!disk.has_dir("/opt/bin/tools"));
    assert!(disk.has_dir("/opt/bin"));
    assert!(disk.is_empty(b"/opt/bin"));
}

#[test]
fn remove_leaves_a_directory_that_no_file_was_put_in() {
    let before = roots();
    let mut disk = before.clone();
    let listing = ArchiveListing { entries: vec![dir("p/share/doc/p/"), file("p/bin/p")], intact: true };
    assert_eq!(install(&mut disk, "p.tar.gz", &listing, "/opt"), Ok(()));
    assert_eq!(remove(&mut disk), Ok(()));
    assert!(disk.has_dir("/opt/share/doc/p"));
    assert_ne!(disk, before);
}

#[test]
fn remove_leaves_a_directory_named_like_a_category() {
    let mut disk = roots();
    let listing = ArchiveListing { entries: vec![file("p/share/p/bin/run")], intact: true };
    assert_eq!(install(&mut disk, "p.tar.gz", &listing, "/opt"), Ok(()));
    assert_eq!(remove(&mut disk), Ok(()));
    assert!(!disk.has_file("/opt/share/p/bin/run"));
    assert!(disk.has_dir("/opt/share/p/bin"));
}

#[test]
fn second_install_changes_nothing() {
    let mut disk = roots();
    assert_eq!(install(&mut disk, "foo-1.0.tar.gz", &sample(), "/opt"), Ok(()));
    let installed = disk.clone();
    assert_eq!(
        install(&mut disk, "foo-1.0.tar.gz", &sample(), "/opt"),
        Err(InstallError::AlreadyInstalled)
    );
    assert_eq!(disk, installed);
}

#[test]
fn remove_without_manifest_changes_nothing() {
    let before = roots();
    let mut disk = before.clone();
    assert_eq!(remove(&mut disk), Err(RemoveError::NotInstalled));
    assert_eq!(disk, before);
}

#[test]
fn file_listed_twice_fails_the_removal() {
    let mut disk = roots();
    let listing = ArchiveListing { entries: vec![file("p/bin/p"), file("p/bin/p")], intact: true };
    assert_eq!(install(&mut disk, "p.tar.gz", &listing, "/opt"), Ok(()));
    assert_eq!(remove(&mut disk), Err(RemoveError::FileDeleteError(b"/opt/bin/p".to_vec())));
    assert!(disk.manifest.is_some());
}

#[test]
fn failed_install_keeps_what_was_done() {
    let mut disk = roots();
    assert!(disk.write_file(b"/opt/lib/p"));
    let listing = ArchiveListing {
        entries: vec![file("p/bin/p"), file("p/lib/p/plugin.so"), file("p/lib/q")],
        intact: true,
    };
    assert_eq!(
        install(&mut disk, "p.tar.gz", &listing, "/opt"),
        Err(InstallError::ExtractError(b"/opt/lib/p/plugin.so".to_vec()))
    );
    assert!(disk.has_file("/opt/bin/p"));
    assert!(!disk.has_file("/opt/lib/q"));
    assert_eq!(
        parse(disk.manifest.as_ref().unwrap()),
        vec![b"/opt/bin/p".to_vec(), b"/opt/lib/p/plugin.so".to_vec()]
    );
}

#[test]
fn parent_takes_one_step_up_until_the_root() {
    let mut path = b"/opt/bin/tools/sub/foo".to_vec();
    let mut seen = Vec::new();
    while let Some(up) = parent(&path) {
        seen.push(up.clone());
        path = up;
    }
    assert_eq!(
        seen,
        vec![
            b"/opt/bin/tools/sub".to_vec(),
            b"/opt/bin/tools".to_vec(),
            b"/opt/bin".to_vec(),
            b"/opt".to_vec(),
            b"/".to_vec(),
        ]
    );
}
