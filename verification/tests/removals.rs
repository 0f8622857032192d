use instar::error::RemoveError;
use instar::manifest::{parse, record, render};
use instar::remove::{may_prune, RemoveAction, Remover};

fn is_dir(path: &str) -> RemoveAction {
    RemoveAction::IsDirectory { path: path.as_bytes().to_vec() }
}

fn delete(path: &str) -> RemoveAction {
    RemoveAction::DeleteFile { path: path.as_bytes().to_vec() }
}

fn is_empty(dir: &str) -> RemoveAction {
    RemoveAction::IsEmpty { dir: dir.as_bytes().to_vec() }
}

fn remove_dir(dir: &str) -> RemoveAction {
    RemoveAction::RemoveDir { dir: dir.as_bytes().to_vec() }
}

/// Feeds the answers to the remover and returns what it asked for, the
/// request that follows the last answer included.
fn asked(manifest: &[u8], answers: &[bool]) -> Vec<RemoveAction> {
    let mut remover = Remover::begin(Some(manifest));
    let mut seen = vec![remover.pending()];
    for answer in answers {
        remover = remover.advance(*answer);
        seen.push(remover.pending());
    }
    seen
}

#[test]
fn removal_deletes_each_file_and_then_the_manifest() {
    let seen = asked(b"/opt/bin/a\n/opt/bin/b\n", &[false, true, false, true, true]);
    assert_eq!(
        seen,
        vec![
            is_dir("/opt/bin/a"),
            delete("/opt/bin/a"),
            is_dir("/opt/bin/b"),
            delete("/opt/bin/b"),
            RemoveAction::DeleteManifest,
            RemoveAction::Finish(Ok(())),
        ]
    );
}

#[test]
fn removal_passes_over_a_line_that_names_a_directory() {
    let seen = asked(b"/opt/share/doc\n/opt/bin/a\n", &[true, false, true, true]);
    assert_eq!(
        seen,
        vec![
            is_dir("/opt/share/doc"),
            is_dir("/opt/bin/a"),
            delete("/opt/bin/a"),
            RemoveAction::DeleteManifest,
            RemoveAction::Finish(Ok(())),
        ]
    );
}

#[test]
fn removal_stops_climbing_at_a_directory_that_is_not_empty() {
    let seen = asked(b"/opt/share/doc/foo/README\n", &[false, true, true, true, false, true]);
    assert_eq!(
        seen,
        vec![
            is_dir("/opt/share/doc/foo/README"),
            delete("/opt/share/doc/foo/README"),
            is_empty("/opt/share/doc/foo"),
            remove_dir("/opt/share/doc/foo"),
            is_empty("/opt/share/doc"),
            RemoveAction::DeleteManifest,
            RemoveAction::Finish(Ok(())),
        ]
    );
}

#[test]
fn removal_never_asks_about_a_category_root() {
    for category in ["bin", "etc", "include", "lib", "share"] {
        let manifest = format!("/opt/{}/x\n", category);
        let seen = asked(manifest.as_bytes(), &[false, true, true]);
        assert_eq!(seen[2], RemoveAction::DeleteManifest);
        assert_eq!(seen[3], RemoveAction::Finish(Ok(())));
    }
}

#[test]
fn removal_stops_at_a_category_name_anywhere_in_the_path() {
    let seen = asked(b"/opt/share/foo/bin/x\n", &[false, true]);
    assert_eq!(seen[2], RemoveAction::DeleteManifest);
}

#[test]
fn removal_climbs_to_the_root_and_stops_there() {
    let seen = asked(b"/a/b\n", &[false, true, true, true]);
    assert_eq!(
        seen,
        vec![
            is_dir("/a/b"),
            delete("/a/b"),
            is_empty("/a"),
            remove_dir("/a"),
            RemoveAction::DeleteManifest,
        ]
    );
}

#[test]
fn file_that_cannot_be_deleted_ends_the_removal() {
    let seen = asked(b"/opt/bin/a\n/opt/bin/b\n", &[false, false, true]);
    let failed = RemoveAction::Finish(Err(RemoveError::FileDeleteError(b"/opt/bin/a".to_vec())));
    assert_eq!(seen[2], failed);
    assert_eq!(seen[3], failed);
}

#[test]
fn directory_that_cannot_be_removed_ends_the_removal() {
    let seen = asked(b"/opt/lib/foo/x.so\n", &[false, true, true, false]);
    assert_eq!(seen[3], remove_dir("/opt/lib/foo"));
    assert_eq!(
        seen[4],
        RemoveAction::Finish(Err(RemoveError::FileDeleteError(b"/opt/lib/foo".to_vec())))
    );
}

#[test]
fn manifest_that_cannot_be_deleted_ends_the_removal() {
    let seen = asked(b"/opt/bin/a\n", &[false, true, false]);
    assert_eq!(seen[2], RemoveAction::DeleteManifest);
    assert_eq!(seen[3], RemoveAction::Finish(Err(RemoveError::ManifestDeleteError)));
}

#[test]
fn empty_manifest_is_deleted_at_once() {
    let seen = asked(b"", &[true]);
    assert_eq!(seen, vec![RemoveAction::DeleteManifest, RemoveAction::Finish(Ok(()))]);
}

#[test]
fn empty_line_is_treated_as_a_path() {
    let seen = asked(b"\n", &[false, false]);
    assert_eq!(seen[0], is_dir(""));
    assert_eq!(seen[1], delete(""));
    assert_eq!(seen[2], RemoveAction::Finish(Err(RemoveError::FileDeleteError(b"".to_vec()))));
}

#[test]
fn relative_line_climbs_to_the_empty_path_and_stops() {
    let seen = asked(b"a/b\n", &[false, true, true, true]);
    assert_eq!(
        seen,
        vec![is_dir("a/b"), delete("a/b"), is_empty("a"), remove_dir("a"), RemoveAction::DeleteManifest]
    );
}

#[test]
fn may_prune_refuses_categories_and_paths_without_a_name() {
    assert!(may_prune(b"/opt/bin/tools"));
    assert!(may_prune(b"/opt"));
    assert!(may_prune(b"/opt/binx"));
    assert!(!may_prune(b"/opt/bin"));
    assert!(!may_prune(b"/opt/etc/"));
    assert!(!may_prune(b"include"));
    assert!(!may_prune(b"/opt/lib"));
    assert!(!may_prune(b"/x/share"));
    assert!(!may_prune(b"/"));
    assert!(!may_prune(b""));
    assert!(!may_prune(b"/opt/.."));
}

#[test]
fn record_is_the_path_and_a_newline() {
    assert_eq!(record(b"/opt/bin/foo"), b"/opt/bin/foo\n".to_vec());
    assert_eq!(record(b""), b"\n".to_vec());
}

#[test]
fn render_puts_each_path_on_a_line() {
    let paths = vec![b"/opt/bin/a".to_vec(), b"/opt/lib/b".to_vec()];
    assert_eq!(render(&paths), b"/opt/bin/a\n/opt/lib/b\n".to_vec());
    assert_eq!(render(&vec![]), b"".to_vec());
}

#[test]
fn parse_reads_back_what_render_wrote() {
    let paths = vec![b"/opt/bin/a".to_vec(), b"".to_vec(), b"/opt/share/x y/\xc3\xa9".to_vec()];
    assert_eq!(parse(&render(&paths)), paths);
}

#[test]
fn parse_takes_a_last_line_without_newline_and_drops_returns() {
    assert_eq!(parse(b"/a\r\n/b"), vec![b"/a".to_vec(), b"/b".to_vec()]);
    assert_eq!(parse(b"/a\n\n/b\n"), vec![b"/a".to_vec(), b"".to_vec(), b"/b".to_vec()]);
    assert_eq!(parse(b"/a\r"), vec![b"/a\r".to_vec()]);
    assert_eq!(parse(b""), Vec::<Vec<u8>>::new());
}

#[test]
fn path_that_ends_with_a_return_is_not_read_back() {
    let paths = vec![b"/opt/bin/a\r".to_vec()];
    assert_eq!(parse(&render(&paths)), vec![b"/opt/bin/a".to_vec()]);
}
