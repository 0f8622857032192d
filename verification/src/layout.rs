//! Where the package manager keeps its own files.

use crate::path::{join, join_spec};
use crate::text::{ascii, ascii_bytes};
use vstd::prelude::*;
use vstd::string::*;

verus! {

/// The directory of the package manager's own files: `.config/instar/` in
/// the home directory.
pub open spec fn config_dir_spec(home: Seq<u8>) -> Seq<u8> {
    join_spec(home, ascii(".config/instar/"@))
}

/// The configuration file: `instar.cfg` in the directory of the package
/// manager's own files.
pub open spec fn config_file_spec(config_dir: Seq<u8>) -> Seq<u8> {
    join_spec(config_dir, ascii("instar.cfg"@))
}

/// The directory of the manifests: `packages` in the directory of the
/// package manager's own files.
pub open spec fn packages_dir_spec(config_dir: Seq<u8>) -> Seq<u8> {
    join_spec(config_dir, ascii("packages"@))
}

/// The manifest of a package: the file with the package's name in the
/// directory of the manifests.
pub open spec fn manifest_path_spec(packages_dir: Seq<u8>, package: Seq<u8>) -> Seq<u8> {
    join_spec(packages_dir, package)
}

/// The directory of the package manager's own files.
pub fn config_dir(home: &[u8]) -> (dir: Vec<u8>)
    ensures
        dir@ == config_dir_spec(home@),
{
    proof {
        reveal_strlit(".config/instar/");
    }
    join(home, ascii_bytes(".config/instar/"))
}

/// The configuration file.
pub fn config_file(config_dir: &[u8]) -> (file: Vec<u8>)
    ensures
        file@ == config_file_spec(config_dir@),
{
    proof {
        reveal_strlit("instar.cfg");
    }
    join(config_dir, ascii_bytes("instar.cfg"))
}

/// The directory of the manifests.
pub fn packages_dir(config_dir: &[u8]) -> (dir: Vec<u8>)
    ensures
        dir@ == packages_dir_spec(config_dir@),
{
    proof {
        reveal_strlit("packages");
    }
    join(config_dir, ascii_bytes("packages"))
}

/// The manifest of a package.
pub fn manifest_path(packages_dir: &[u8], package: &[u8]) -> (file: Vec<u8>)
    ensures
        file@ == manifest_path_spec(packages_dir@, package@),
{
    join(packages_dir, package)
}

} // verus!
