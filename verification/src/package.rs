//! The name under which an archive is installed.

use crate::bytes::{copy_range, ends_with, has_suffix};
use crate::error::{InstallError, InstallErrorView};
use crate::path::{file_name, file_name_spec};
use crate::text::{ascii, ascii_bytes};
use vstd::prelude::*;
use vstd::string::*;

verus! {

/// The suffix `.tar.gz` that the file name of an archive ends with.
pub open spec fn archive_suffix() -> Seq<u8> {
    ascii(".tar.gz"@)
}

/// The package name that an archive's path gives: its file name without the
/// suffix `.tar.gz`. `None` where the path has no file name or the file name
/// does not end so.
pub open spec fn package_name_spec(archive: Seq<u8>) -> Option<Seq<u8>> {
    match file_name_spec(archive) {
        Some(name) => if has_suffix(name, archive_suffix()) {
            Some(name.take(name.len() - archive_suffix().len()))
        } else {
            None
        },
        None => None,
    }
}

/// The name under which the archive at `archive_path` is installed: the
/// path's file name without `.tar.gz`. Any other file name is refused with
/// `InvalidArchiveName`.
pub fn package_name(archive_path: &[u8]) -> (r: Result<Vec<u8>, InstallError>)
    ensures
        match r {
            Ok(name) => package_name_spec(archive_path@) == Some(name@),
            Err(e) => e@ == InstallErrorView::InvalidArchiveName && package_name_spec(
                archive_path@,
            ) is None,
        },
{
    proof {
        reveal_strlit(".tar.gz");
    }
    let suffix = ascii_bytes(".tar.gz");
    match file_name(archive_path) {
        Some(name) => {
            if ends_with(name.as_slice(), suffix) {
                let stem = copy_range(name.as_slice(), 0, name.len() - 7);
                assert(stem@ =~= name@.take(name.len() - 7));
                Ok(stem)
            } else {
                Err(InstallError::InvalidArchiveName)
            }
        },
        None => Err(InstallError::InvalidArchiveName),
    }
}

} // verus!
