//! Making a path absolute and free of `.` and `..`.

use crate::bytes::opt_view;
use crate::path::{is_absolute, is_settled};
use vstd::prelude::*;

verus! {

/// What resolving the dots of an absolute path gives: the path with `.`
/// dropped and each `..` taken together with the component before it, or
/// `None` where the path is not valid UTF-8 and so cannot be handed over as
/// text.
pub uninterp spec fn absolutized(path: Seq<u8>) -> Option<Seq<u8>>;

/// Resolves the dots of an absolute path with
/// `path_absolutize::Absolutize::absolutize_from`. The result is the one named
/// by [`absolutized`]. It begins at the root, as the path handed in does,
/// and it is the path handed in where that holds no dots and is written with
/// one separator between its components and none at its end. The working
/// directory that the call takes is never read for a path that begins at
/// the root, so the root is passed for it.
#[verifier::external_body]
pub(crate) fn absolutize(path: &[u8]) -> (r: Option<Vec<u8>>)
    requires
        is_absolute(path@),
    ensures
        opt_view(r) == absolutized(path@),
        r matches Some(v) ==> is_absolute(v@) && (is_settled(path@) ==> v@ == path@),
{
    let text = std::str::from_utf8(path).ok()?;
    let resolved = path_absolutize::Absolutize::absolutize_from(std::path::Path::new(text), "/");
    Some(resolved.ok()?.to_str()?.as_bytes().to_vec())
}

} // verus!
