//! The manifest of a package: the paths of the files that the package
//! owns, one on each line.

use crate::bytes::{copy_range, lemma_span_end_at, views};
use crate::text::{lines, lines_from, lines_spec, NEWLINE, without_return};
use vstd::prelude::*;

verus! {

/// The line that records a path: the path and a newline.
pub open spec fn record_spec(path: Seq<u8>) -> Seq<u8> {
    path.push(NEWLINE)
}

/// The manifest that holds the first `k` of the given paths.
pub open spec fn manifest_text(paths: Seq<Seq<u8>>, k: int) -> Seq<u8>
    decreases k,
{
    if k <= 0 {
        seq![]
    } else {
        manifest_text(paths, k - 1) + record_spec(paths[k - 1])
    }
}

/// Whether a path can be read back from a manifest: it holds no newline and
/// does not end with a carriage return.
pub open spec fn fits_line(path: Seq<u8>) -> bool {
    &&& forall|k: int| 0 <= k < path.len() ==> path[k] != NEWLINE
    &&& without_return(path) == path
}

/// The line that records `path` in a manifest.
pub fn record(path: &[u8]) -> (line: Vec<u8>)
    ensures
        line@ == record_spec(path@),
{
    let mut line = copy_range(path, 0, path.len());
    assert(line@ =~= path@);
    line.push(NEWLINE);
    line
}

/// The manifest that holds the given paths.
pub fn render(paths: &Vec<Vec<u8>>) -> (text: Vec<u8>)
    ensures
        text@ == manifest_text(views(paths@), paths.len() as int),
{
    let mut text: Vec<u8> = Vec::new();
    let mut k: usize = 0;
    while k < paths.len()
        invariant
            k <= paths.len(),
            text@ == manifest_text(views(paths@), k as int),
        decreases paths.len() - k,
    {
        let path = &paths[k];
        let ghost before = text@;
        let mut i: usize = 0;
        while i < path.len()
            invariant
                i <= path.len(),
                text@ == before + path@.take(i as int),
            decreases path.len() - i,
        {
            text.push(path[i]);
            assert(text@ =~= before + path@.take(i + 1));
            i += 1;
        }
        text.push(NEWLINE);
        assert(text@ =~= before + record_spec(path@)) by {
            assert(path@.take(path.len() as int) =~= path@);
        }
        assert(views(paths@)[k as int] == path@);
        k += 1;
    }
    text
}

/// The paths that a manifest holds.
pub fn parse(text: &[u8]) -> (paths: Vec<Vec<u8>>)
    ensures
        views(paths@) == lines_spec(text@),
{
    lines(text)
}

/// A manifest begins with the manifest of fewer of its paths.
proof fn lemma_manifest_text_extends(paths: Seq<Seq<u8>>, k: int, n: int)
    requires
        0 <= k <= n <= paths.len(),
    ensures
        manifest_text(paths, k).len() <= manifest_text(paths, n).len(),
        manifest_text(paths, n).take(manifest_text(paths, k).len() as int) == manifest_text(
            paths,
            k,
        ),
    decreases n - k,
{
    if k < n {
        lemma_manifest_text_extends(paths, k, n - 1);
        assert(manifest_text(paths, n).take(manifest_text(paths, k).len() as int)
            =~= manifest_text(paths, n - 1).take(manifest_text(paths, k).len() as int));
    } else {
        assert(manifest_text(paths, n).take(manifest_text(paths, n).len() as int)
            =~= manifest_text(paths, n));
    }
}

/// From where the record of path `k` begins, a manifest of `n` paths reads
/// as the paths from `k` on.
proof fn lemma_manifest_reads_from(paths: Seq<Seq<u8>>, k: int)
    requires
        0 <= k <= paths.len(),
        forall|i: int| 0 <= i < paths.len() ==> fits_line(#[trigger] paths[i]),
    ensures
        lines_from(
            manifest_text(paths, paths.len() as int),
            manifest_text(paths, k).len() as int,
        ) == paths.skip(k),
    decreases paths.len() - k,
{
    let n = paths.len() as int;
    let text = manifest_text(paths, n);
    let from = manifest_text(paths, k).len() as int;
    lemma_manifest_text_extends(paths, k, n);
    if k == n {
        assert(paths.skip(k) =~= Seq::<Seq<u8>>::empty());
    } else {
        let path = paths[k];
        let to = from + path.len();
        lemma_manifest_text_extends(paths, k + 1, n);
        let upto = manifest_text(paths, k + 1);
        assert(upto == manifest_text(paths, k) + record_spec(path));
        assert(upto.len() == to + 1);
        assert forall|m: int| from <= m <= to implies text[m] == record_spec(path)[m - from] by {
            assert(text.take(upto.len() as int)[m] == upto[m]);
        }
        assert(fits_line(path));
        lemma_span_end_at(text, from, to, NEWLINE);
        assert(text.subrange(from, to) =~= path);
        lemma_manifest_reads_from(paths, k + 1);
        assert(seq![path] + paths.skip(k + 1) =~= paths.skip(k));
    }
}

/// A manifest reads back as the paths that were recorded in it, where none
/// of them holds a newline or ends with a carriage return.
pub proof fn lemma_manifest_round_trip(paths: Seq<Seq<u8>>)
    requires
        forall|i: int| 0 <= i < paths.len() ==> fits_line(#[trigger] paths[i]),
    ensures
        lines_spec(manifest_text(paths, paths.len() as int)) == paths,
{
    lemma_manifest_reads_from(paths, 0);
    assert(paths.skip(0) =~= paths);
}

} // verus!
