use instar::category::Category;
use instar::error::InstallError;
use instar::mapper::{map_entry, Mapping};
use instar::package::package_name;

fn dest(path: &str) -> Mapping {
    Mapping::Dest(path.as_bytes().to_vec())
}

#[test]
fn entry_under_the_package_directory_goes_under_the_root() {
    assert_eq!(map_entry(b"foo-1.0/bin/foo", b"foo-1.0", b"/opt"), dest("/opt/bin/foo"));
    assert_eq!(
        map_entry(b"foo-1.0/share/doc/foo/README", b"foo-1.0", b"/opt"),
        dest("/opt/share/doc/foo/README")
    );
}

#[test]
fn entry_without_the_package_directory_is_taken_as_it_is() {
    assert_eq!(map_entry(b"bin/foo", b"foo-1.0", b"/opt"), dest("/opt/bin/foo"));
    assert_eq!(map_entry(b"lib/libfoo.so", b"foo-1.0", b"/usr/local"), dest("/usr/local/lib/libfoo.so"));
}

#[test]
fn each_category_is_accepted() {
    for name in ["bin", "etc", "include", "lib", "share"] {
        let entry = format!("pkg/{}/x", name);
        let want = format!("/opt/{}/x", name);
        assert_eq!(map_entry(entry.as_bytes(), b"pkg", b"/opt"), dest(&want));
    }
}

#[test]
fn entry_outside_the_categories_is_skipped() {
    assert_eq!(map_entry(b"foo-1.0/README", b"foo-1.0", b"/opt"), Mapping::Skip);
    assert_eq!(map_entry(b"foo-1.0/src/bin/foo", b"foo-1.0", b"/opt"), Mapping::Skip);
    assert_eq!(map_entry(b"foo-1.0/binary/foo", b"foo-1.0", b"/opt"), Mapping::Skip);
    assert_eq!(map_entry(b"foo-1.0/Bin/foo", b"foo-1.0", b"/opt"), Mapping::Skip);
    assert_eq!(map_entry(b"foo-1.0/", b"foo-1.0", b"/opt"), Mapping::Skip);
    assert_eq!(map_entry(b"", b"foo-1.0", b"/opt"), Mapping::Skip);
}

#[test]
fn the_package_directory_is_taken_off_once() {
    assert_eq!(map_entry(b"bin/bin/foo", b"bin", b"/opt"), dest("/opt/bin/foo"));
    assert_eq!(map_entry(b"foo/foo/bin/x", b"foo", b"/opt"), Mapping::Skip);
}

#[test]
fn entry_that_begins_with_a_dot_or_at_the_root_is_skipped() {
    assert_eq!(map_entry(b"./bin/foo", b"foo-1.0", b"/opt"), Mapping::Skip);
    assert_eq!(map_entry(b"/bin/foo", b"foo-1.0", b"/opt"), Mapping::Skip);
    assert_eq!(map_entry(b"../bin/foo", b"foo-1.0", b"/opt"), Mapping::Skip);
}

#[test]
fn bare_category_directory_maps_to_the_category_root() {
    assert_eq!(map_entry(b"foo-1.0/bin/", b"foo-1.0", b"/opt"), dest("/opt/bin"));
    assert_eq!(map_entry(b"foo-1.0/share", b"foo-1.0", b"/opt"), dest("/opt/share"));
}

#[test]
fn separators_and_dots_in_the_entry_are_tidied() {
    assert_eq!(map_entry(b"foo-1.0//bin/./foo", b"foo-1.0", b"/opt"), dest("/opt/bin/foo"));
    assert_eq!(map_entry(b"foo-1.0/bin/sub/", b"foo-1.0", b"/opt"), dest("/opt/bin/sub"));
}

#[test]
fn dotdot_in_the_entry_is_resolved() {
    assert_eq!(map_entry(b"foo-1.0/bin/../etc/x", b"foo-1.0", b"/opt"), dest("/opt/etc/x"));
    assert_eq!(map_entry(b"bin/a/b/../../c", b"foo-1.0", b"/opt"), dest("/opt/bin/c"));
    assert_eq!(map_entry(b"bin/../../../../x", b"foo-1.0", b"/opt"), dest("/x"));
}

#[test]
fn dots_in_the_root_are_resolved() {
    assert_eq!(map_entry(b"bin/foo", b"p", b"/opt/./local/../pkg"), dest("/opt/pkg/bin/foo"));
    assert_eq!(map_entry(b"bin/foo", b"p", b"/opt/"), dest("/opt/bin/foo"));
    assert_eq!(map_entry(b"bin/foo", b"p", b"/"), dest("/bin/foo"));
    assert_eq!(map_entry(b"bin/foo", b"p", b"//opt//x/"), dest("/opt/x/bin/foo"));
}

#[test]
fn path_that_is_not_text_is_left_unresolved() {
    assert_eq!(
        map_entry(b"foo-1.0/bin/\xff", b"foo-1.0", b"/opt"),
        Mapping::Unresolved(b"/opt/bin/\xff".to_vec())
    );
    assert_eq!(map_entry(b"foo-1.0/doc/\xff", b"foo-1.0", b"/opt"), Mapping::Skip);
}

#[test]
fn category_names_are_the_five() {
    assert_eq!(Category::Bin.name(), b"bin");
    assert_eq!(Category::Etc.name(), b"etc");
    assert_eq!(Category::Include.name(), b"include");
    assert_eq!(Category::Lib.name(), b"lib");
    assert_eq!(Category::Share.name(), b"share");
}

#[test]
fn category_from_name_knows_the_five_only() {
    assert_eq!(Category::from_name(b"bin"), Some(Category::Bin));
    assert_eq!(Category::from_name(b"etc"), Some(Category::Etc));
    assert_eq!(Category::from_name(b"include"), Some(Category::Include));
    assert_eq!(Category::from_name(b"lib"), Some(Category::Lib));
    assert_eq!(Category::from_name(b"share"), Some(Category::Share));
    assert_eq!(Category::from_name(b"sbin"), None);
    assert_eq!(Category::from_name(b"BIN"), None);
    assert_eq!(Category::from_name(b""), None);
    assert_eq!(Category::from_name(b"lib64"), None);
    assert_eq!(Category::from_name(b"li"), None);
}

#[test]
fn package_name_is_the_file_name_without_the_suffix() {
    assert_eq!(package_name(b"foo-1.0.tar.gz"), Ok(b"foo-1.0".to_vec()));
    assert_eq!(package_name(b"/home/me/dl/foo-1.0.tar.gz"), Ok(b"foo-1.0".to_vec()));
    assert_eq!(package_name(b"../x.tar.gz"), Ok(b"x".to_vec()));
    assert_eq!(package_name(b"a.tar.gz.tar.gz"), Ok(b"a.tar.gz".to_vec()));
    assert_eq!(package_name(b".tar.gz"), Ok(b"".to_vec()));
}

#[test]
fn package_name_needs_the_exact_suffix() {
    assert_eq!(package_name(b"foo.tgz"), Err(InstallError::InvalidArchiveName));
    assert_eq!(package_name(b"foo.tar"), Err(InstallError::InvalidArchiveName));
    assert_eq!(package_name(b"foo.TAR.GZ"), Err(InstallError::InvalidArchiveName));
    assert_eq!(package_name(b"foo.tar.gz.old"), Err(InstallError::InvalidArchiveName));
    assert_eq!(package_name(b"tar.gz"), Err(InstallError::InvalidArchiveName));
    assert_eq!(package_name(b"foo.tar.gz/sub"), Err(InstallError::InvalidArchiveName));
}

#[test]
fn package_name_needs_a_file_name() {
    assert_eq!(package_name(b""), Err(InstallError::InvalidArchiveName));
    assert_eq!(package_name(b"/"), Err(InstallError::InvalidArchiveName));
    assert_eq!(package_name(b"/tmp/.."), Err(InstallError::InvalidArchiveName));
}

#[test]
fn relative_root_leaves_the_entry_unresolved() {
    assert_eq!(
        map_entry(b"foo-1.0/bin/foo", b"foo-1.0", b"opt"),
        Mapping::Unresolved(b"opt/bin/foo".to_vec())
    );
    assert_eq!(
        map_entry(b"foo-1.0/bin/foo", b"foo-1.0", b""),
        Mapping::Unresolved(b"bin/foo".to_vec())
    );
    assert_eq!(map_entry(b"foo-1.0/README", b"foo-1.0", b"opt"), Mapping::Skip);
}
