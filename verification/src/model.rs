//! A model of the filesystem, and what an install and a removal do to it.
//!
//! The model is a tree of files and directories, each known by the
//! components of its path, together with the manifest of the package in
//! question. It answers the requests of an install and of a removal as a
//! filesystem would, and the laws below say what is left of it when they
//! are over.

use crate::category::is_category_name;
use crate::install;
use crate::error::{InstallErrorView, RemoveErrorView};
use crate::install::{ActionView, PhaseView};
use crate::manifest::{fits_line, lemma_manifest_round_trip, manifest_text, record_spec};
use crate::path::{
    components, is_normal, lemma_components_tidy, lemma_parent_components, parent_spec, root_part,
};
use crate::plan::{recorded, PlanView, StepView};
use crate::remove::{
    action_of, climb, line_phase, next_phase, prunable, RemoveActionView, RemovePhaseView,
};
use vstd::prelude::*;

verus! {

/// The files and the directories that exist, each as the components of its
/// path.
pub struct Tree {
    pub files: Set<Seq<Seq<u8>>>,
    pub dirs: Set<Seq<Seq<u8>>>,
}

/// Whether the tree holds a file or a directory at `c`.
pub open spec fn holds(t: Tree, c: Seq<Seq<u8>>) -> bool {
    t.files.contains(c) || t.dirs.contains(c)
}

/// Whether `p` is a directory on the way to `f`: a beginning of `f` that is
/// neither empty nor all of `f`.
pub open spec fn leads_to(p: Seq<Seq<u8>>, f: Seq<Seq<u8>>) -> bool {
    1 <= p.len() < f.len() && f.take(p.len() as int) == p
}

/// Whether the directory `d` holds anything.
pub open spec fn has_child(t: Tree, d: Seq<Seq<u8>>) -> bool {
    exists|c: Seq<Seq<u8>>| #[trigger] holds(t, c) && c.len() > 0 && c.drop_last() == d
}

/// Whether every directory on the way to something in the tree is in the
/// tree.
pub open spec fn connected(t: Tree) -> bool {
    forall|c: Seq<Seq<u8>>, p: Seq<Seq<u8>>|
        #![trigger holds(t, c), leads_to(p, c)]
        holds(t, c) && leads_to(p, c) ==> t.dirs.contains(p)
}

/// Whether a directory with these components may be removed once it is
/// empty: its last component is a name, and not that of a category.
pub open spec fn may_go(d: Seq<Seq<u8>>) -> bool {
    d.len() > 0 && is_normal(d.last()) && !is_category_name(d.last())
}

/// What the tree answers to a request of a removal.
pub open spec fn answer_of(t: Tree, action: RemoveActionView) -> bool {
    match action {
        RemoveActionView::IsDirectory { path } => t.dirs.contains(components(path)),
        RemoveActionView::DeleteFile { path } => t.files.contains(components(path)),
        RemoveActionView::IsEmpty { dir } => !has_child(t, components(dir)),
        RemoveActionView::RemoveDir { dir } => t.dirs.contains(components(dir)) && !has_child(
            t,
            components(dir),
        ),
        RemoveActionView::DeleteManifest => true,
        RemoveActionView::Finish(_) => true,
    }
}

/// The tree after a request of a removal was done, where it could be done.
pub open spec fn after(t: Tree, action: RemoveActionView) -> Tree {
    match action {
        RemoveActionView::DeleteFile { path } => Tree {
            files: t.files.remove(components(path)),
            dirs: t.dirs,
        },
        RemoveActionView::RemoveDir { dir } => if answer_of(t, action) {
            Tree { files: t.files, dirs: t.dirs.remove(components(dir)) }
        } else {
            t
        },
        _ => t,
    }
}

/// The install tree and, where the package has one, what its manifest
/// holds.
pub struct Disk {
    pub tree: Tree,
    pub manifest: Option<Seq<u8>>,
}

/// What the disk answers to a request of a removal: the manifest can be
/// deleted where there is one, and the tree answers the rest.
pub open spec fn disk_answer(d: Disk, action: RemoveActionView) -> bool {
    match action {
        RemoveActionView::DeleteManifest => d.manifest is Some,
        _ => answer_of(d.tree, action),
    }
}

/// The disk after a request of a removal was done, where it could be done.
pub open spec fn disk_after(d: Disk, action: RemoveActionView) -> Disk {
    match action {
        RemoveActionView::DeleteManifest => Disk { tree: d.tree, manifest: None },
        _ => Disk { tree: after(d.tree, action), manifest: d.manifest },
    }
}

/// A removal and the disk it works on.
pub struct Removal {
    pub phase: RemovePhaseView,
    pub disk: Disk,
}

/// The removal after `n` of its requests were done on the disk and
/// answered by it.
pub open spec fn drive(lines: Seq<Seq<u8>>, at: Removal, n: nat) -> Removal
    decreases n,
{
    if n == 0 {
        at
    } else {
        let action = action_of(lines, at.phase);
        drive(
            lines,
            Removal {
                phase: next_phase(lines, at.phase, disk_answer(at.disk, action)),
                disk: disk_after(at.disk, action),
            },
            (n - 1) as nat,
        )
    }
}

/// The components of each line's path.
pub open spec fn keys_of(lines: Seq<Seq<u8>>) -> Seq<Seq<Seq<u8>>> {
    Seq::new(lines.len(), |i: int| components(lines[i]))
}

/// Whether `c` is one of the files from number `k` on.
pub open spec fn is_file_from(keys: Seq<Seq<Seq<u8>>>, k: int, c: Seq<Seq<u8>>) -> bool {
    exists|j: int| k <= j < keys.len() && #[trigger] keys[j] == c
}

/// Whether `c` is a directory on the way to one of the files from number
/// `k` on.
pub open spec fn is_dir_from(keys: Seq<Seq<Seq<u8>>>, k: int, c: Seq<Seq<u8>>) -> bool {
    exists|j: int| k <= j < keys.len() && leads_to(c, #[trigger] keys[j])
}

/// The tree `t` together with the files from number `k` on and the
/// directories on the way to them, and with those directories on the way to
/// file `k - 1` that have fewer than `m` components.
pub open spec fn with_files(t: Tree, keys: Seq<Seq<Seq<u8>>>, k: int, m: int) -> Tree {
    Tree {
        files: Set::new(|c: Seq<Seq<u8>>| t.files.contains(c) || is_file_from(keys, k, c)),
        dirs: Set::new(
            |c: Seq<Seq<u8>>|
                t.dirs.contains(c) || is_dir_from(keys, k, c) || (0 < k <= keys.len() && leads_to(
                    c,
                    keys[k - 1],
                ) && c.len() < m),
        ),
    }
}

/// Whether the files can be taken out of the tree again without a trace:
/// none of them is in the tree `t` or on the way to another, no two are the
/// same, and each directory on the way to one of them either is in `t` and
/// stays, because it holds something in `t` or may not be removed, or is
/// not in `t` and may be removed.
///
/// So it is with the file `/opt/bin/tools/sub/foo` and a tree that holds
/// the directories `/`, `/opt` and `/opt/bin`: `tools` and `sub` are not in
/// the tree and may be removed, `bin` is a category, and `/opt` and `/`
/// hold something. It is not so where a directory on the way has the name
/// of a category and is not in the tree, as `bin` in `/opt/share/foo/bin/x`,
/// or where a directory on the way is in the tree, holds nothing there and
/// may be removed, as an empty `/opt/share/foo`.
pub open spec fn separable(t: Tree, keys: Seq<Seq<Seq<u8>>>) -> bool {
    &&& connected(t)
    &&& forall|k: int| 0 <= k < keys.len() ==> !holds(t, #[trigger] keys[k])
    &&& forall|j: int, k: int|
        0 <= j < keys.len() && 0 <= k < keys.len() && j != k ==> #[trigger] keys[j]
            != #[trigger] keys[k] && !leads_to(keys[j], keys[k])
    &&& forall|k: int, p: Seq<Seq<u8>>|
        0 <= k < keys.len() && #[trigger] leads_to(p, #[trigger] keys[k]) ==> if t.dirs.contains(
            p,
        ) {
            has_child(t, p) || !may_go(p)
        } else {
            may_go(p) && !t.files.contains(p)
        }
}

/// Doing `a` requests and then `b` more is doing `a + b`.
proof fn lemma_drive_on(lines: Seq<Seq<u8>>, at: Removal, a: nat, b: nat)
    ensures
        drive(lines, drive(lines, at, a), b) == drive(lines, at, a + b),
    decreases a,
{
    if a > 0 {
        let action = action_of(lines, at.phase);
        let then = Removal {
            phase: next_phase(lines, at.phase, disk_answer(at.disk, action)),
            disk: disk_after(at.disk, action),
        };
        lemma_drive_on(lines, then, (a - 1) as nat, b);
    }
}

/// Whether a directory may be removed is a matter of its last component.
proof fn lemma_prunable_by_components(dir: Seq<u8>)
    ensures
        prunable(dir) == may_go(components(dir)),
{
}

/// Whether the directory `p` is in the tree `t` or on the way to one of the
/// files from number `k` on.
pub open spec fn needed(t: Tree, keys: Seq<Seq<Seq<u8>>>, k: int, p: Seq<Seq<u8>>) -> bool {
    t.dirs.contains(p) || is_dir_from(keys, k, p)
}

/// A directory on the way to a needed directory is needed.
proof fn lemma_needed_below(
    t: Tree,
    keys: Seq<Seq<Seq<u8>>>,
    k: int,
    p: Seq<Seq<u8>>,
    q: Seq<Seq<u8>>,
)
    requires
        connected(t),
        needed(t, keys, k, p),
        leads_to(q, p),
    ensures
        needed(t, keys, k, q),
{
    if t.dirs.contains(p) {
        assert(holds(t, p));
    } else {
        let j = choose|j: int| k <= j < keys.len() && leads_to(p, #[trigger] keys[j]);
        assert(keys[j].take(q.len() as int) =~= p.take(q.len() as int));
        assert(leads_to(q, keys[j]));
    }
}

/// Where the directory with `m - 1` components on the way to file `k` is
/// needed, so are the shorter ones, and nothing is left of that way but
/// what is needed.
proof fn lemma_way_is_needed(t: Tree, keys: Seq<Seq<Seq<u8>>>, k: int, m: int)
    requires
        connected(t),
        0 <= k < keys.len(),
        m <= 1 || (m <= keys[k].len() && needed(t, keys, k + 1, keys[k].take(m - 1))),
    ensures
        with_files(t, keys, k + 1, m) == with_files(t, keys, k + 1, 0),
{
    let a = with_files(t, keys, k + 1, m);
    let b = with_files(t, keys, k + 1, 0);
    assert forall|c: Seq<Seq<u8>>| a.dirs.contains(c) implies b.dirs.contains(c) by {
        if !needed(t, keys, k + 1, c) {
            assert(leads_to(c, keys[k]) && c.len() < m);
            let top = keys[k].take(m - 1);
            if c.len() == m - 1 {
                assert(c =~= top);
            } else {
                assert(top.take(c.len() as int) =~= keys[k].take(c.len() as int));
                assert(leads_to(c, top));
                lemma_needed_below(t, keys, k + 1, top, c);
            }
        }
    }
    assert(a.dirs =~= b.dirs);
    assert(a.files =~= b.files);
}

/// A needed directory on the way to file `k` that may be removed is not
/// empty while the files after `k` are there.
proof fn lemma_needed_has_child(
    t: Tree,
    keys: Seq<Seq<Seq<u8>>>,
    k: int,
    m: int,
    p: Seq<Seq<u8>>,
)
    requires
        separable(t, keys),
        0 <= k < keys.len(),
        leads_to(p, keys[k]),
        needed(t, keys, k + 1, p),
        may_go(p),
    ensures
        has_child(with_files(t, keys, k + 1, m), p),
{
    let tree = with_files(t, keys, k + 1, m);
    if is_dir_from(keys, k + 1, p) {
        let j = choose|j: int| k + 1 <= j < keys.len() && leads_to(p, #[trigger] keys[j]);
        let c = keys[j].take(p.len() as int + 1);
        assert(c.drop_last() =~= p);
        if c.len() == keys[j].len() {
            assert(c =~= keys[j]);
            assert(is_file_from(keys, k + 1, c));
        } else {
            assert(keys[j].take(c.len() as int) == c);
            assert(leads_to(c, keys[j]));
            assert(is_dir_from(keys, k + 1, c));
        }
        assert(holds(tree, c));
    } else {
        assert(t.dirs.contains(p));
        assert(has_child(t, p));
        let c = choose|c: Seq<Seq<u8>>| #[trigger] holds(t, c) && c.len() > 0 && c.drop_last() == p;
        assert(holds(tree, c));
    }
}

/// A directory on the way to file `k` that is not needed is empty once the
/// file and the longer directories on that way are gone.
proof fn lemma_unneeded_is_empty(t: Tree, keys: Seq<Seq<Seq<u8>>>, k: int, m: int)
    requires
        separable(t, keys),
        0 <= k < keys.len(),
        2 <= m <= keys[k].len(),
        !needed(t, keys, k + 1, keys[k].take(m - 1)),
    ensures
        !has_child(with_files(t, keys, k + 1, m), keys[k].take(m - 1)),
        with_files(t, keys, k + 1, m).dirs.contains(keys[k].take(m - 1)),
        (Tree {
            files: with_files(t, keys, k + 1, m).files,
            dirs: with_files(t, keys, k + 1, m).dirs.remove(keys[k].take(m - 1)),
        }) == with_files(t, keys, k + 1, m - 1),
{
    let tree = with_files(t, keys, k + 1, m);
    let p = keys[k].take(m - 1);
    assert(leads_to(p, keys[k])) by {
        assert(keys[k].take(p.len() as int) =~= p);
    }
    assert forall|c: Seq<Seq<u8>>| #[trigger]
        holds(tree, c) && c.len() > 0 implies c.drop_last() != p by {
        if c.drop_last() == p {
            assert(c.take(p.len() as int) =~= p);
            assert(leads_to(p, c) || c.len() == 1);
            if holds(t, c) {
                assert(t.dirs.contains(p));
            } else if is_file_from(keys, k + 1, c) {
                let j = choose|j: int| k + 1 <= j < keys.len() && #[trigger] keys[j] == c;
                assert(leads_to(p, keys[j]));
            } else if is_dir_from(keys, k + 1, c) {
                let j = choose|j: int| k + 1 <= j < keys.len() && leads_to(c, #[trigger] keys[j]);
                assert(keys[j].take(p.len() as int) =~= c.take(p.len() as int));
                assert(leads_to(p, keys[j]));
            } else {
                assert(leads_to(c, keys[k]) && c.len() < m);
            }
        }
    }
    let left = Tree { files: tree.files, dirs: tree.dirs.remove(p) };
    let less = with_files(t, keys, k + 1, m - 1);
    assert forall|c: Seq<Seq<u8>>| left.dirs.contains(c) <==> less.dirs.contains(c) by {
        if leads_to(c, keys[k]) && c.len() == m - 1 {
            assert(c =~= p);
        }
    }
    assert(left.dirs =~= less.dirs);
}

/// After a file of the manifest or a directory above it is gone, the
/// removal goes up the way to the file, removes the directories that are
/// not needed, and turns to the next line with nothing left of the way but
/// what is needed.
proof fn lemma_climb(
    lines: Seq<Seq<u8>>,
    t: Tree,
    manifest: Option<Seq<u8>>,
    k: int,
    gone: Seq<u8>,
    m: int,
) -> (n: nat)
    requires
        separable(t, keys_of(lines)),
        0 <= k < lines.len(),
        0 <= m <= keys_of(lines)[k].len(),
        components(gone) == keys_of(lines)[k].take(m),
    ensures
        drive(
            lines,
            Removal {
                phase: climb(lines, k, gone),
                disk: Disk { tree: with_files(t, keys_of(lines), k + 1, m), manifest },
            },
            n,
        ) == (Removal {
            phase: line_phase(lines, k + 1),
            disk: Disk { tree: with_files(t, keys_of(lines), k + 1, 0), manifest },
        }),
    decreases m,
{
    let keys = keys_of(lines);
    let tree = with_files(t, keys, k + 1, m);
    let disk = Disk { tree, manifest };
    let at = Removal { phase: climb(lines, k, gone), disk };
    match parent_spec(gone) {
        None => {
            lemma_components_tidy(gone);
            assert(m <= 1) by {
                if m >= 2 {
                    assert(components(gone).len() == m);
                    assert(components(gone)[m - 1] == root_part());
                    assert(root_part()[0] == crate::path::SEP);
                    assert(!crate::path::is_plain_part(root_part()));
                }
            }
            lemma_way_is_needed(t, keys, k, m);
            0
        },
        Some(dir) => {
            lemma_parent_components(gone);
            lemma_prunable_by_components(dir);
            let p = components(dir);
            assert(p =~= keys[k].take(m - 1));
            if m <= 1 {
                lemma_way_is_needed(t, keys, k, m);
                0
            } else {
                assert(leads_to(p, keys[k])) by {
                    assert(keys[k].take(p.len() as int) =~= p);
                }
                if !may_go(p) {
                    assert(t.dirs.contains(p));
                    lemma_way_is_needed(t, keys, k, m);
                    0
                } else if needed(t, keys, k + 1, p) {
                    lemma_needed_has_child(t, keys, k, m, p);
                    lemma_way_is_needed(t, keys, k, m);
                    let then = Removal { phase: line_phase(lines, k + 1), disk };
                    assert(drive(lines, then, 0) == then);
                    assert(drive(lines, at, 1) == then);
                    1
                } else {
                    lemma_unneeded_is_empty(t, keys, k, m);
                    let asked = Removal { phase: RemovePhaseView::Prune(k, dir), disk };
                    let less = with_files(t, keys, k + 1, m - 1);
                    let then = Removal {
                        phase: climb(lines, k, dir),
                        disk: Disk { tree: less, manifest },
                    };
                    let n = lemma_climb(lines, t, manifest, k, dir, m - 1);
                    assert(drive(lines, asked, (n + 1) as nat) == drive(lines, then, n));
                    assert(drive(lines, at, (n + 2) as nat) == drive(lines, asked, (n + 1) as nat));
                    (n + 2) as nat
                }
            }
        },
    }
}

/// The removal of the files from line `k` on, from a tree that holds them
/// and the directories on the way to them over the tree `t`, ends well and
/// leaves `t` and no manifest.
proof fn lemma_lines(lines: Seq<Seq<u8>>, t: Tree, manifest: Seq<u8>, k: int) -> (n: nat)
    requires
        separable(t, keys_of(lines)),
        0 <= k <= lines.len(),
    ensures
        drive(
            lines,
            Removal {
                phase: line_phase(lines, k),
                disk: Disk { tree: with_files(t, keys_of(lines), k, 0), manifest: Some(manifest) },
            },
            n,
        ) == (Removal {
            phase: RemovePhaseView::Finished(Ok(())),
            disk: Disk { tree: t, manifest: None },
        }),
    decreases lines.len() - k,
{
    let keys = keys_of(lines);
    let tree = with_files(t, keys, k, 0);
    let disk = Disk { tree, manifest: Some(manifest) };
    let at = Removal { phase: line_phase(lines, k), disk };
    if k == lines.len() {
        assert(tree.files =~= t.files);
        assert(tree.dirs =~= t.dirs);
        let end = Removal {
            phase: RemovePhaseView::Finished(Ok(())),
            disk: Disk { tree: t, manifest: None },
        };
        assert(drive(lines, end, 0) == end);
        assert(drive(lines, at, 1) == end);
        1
    } else {
        let f = keys[k];
        assert(!tree.dirs.contains(f)) by {
            assert(!holds(t, f));
            if is_dir_from(keys, k, f) {
                let j = choose|j: int| k <= j < keys.len() && leads_to(f, #[trigger] keys[j]);
                assert(!leads_to(keys[k], keys[j]));
            }
        }
        assert(tree.files.contains(f)) by {
            assert(is_file_from(keys, k, f));
        }
        let deleted = Tree { files: tree.files.remove(f), dirs: tree.dirs };
        let less = with_files(t, keys, k + 1, f.len() as int);
        assert(deleted.files =~= less.files) by {
            assert forall|c: Seq<Seq<u8>>| deleted.files.contains(c) <==> less.files.contains(
                c,
            ) by {
                if is_file_from(keys, k, c) && c != f {
                    let j = choose|j: int| k <= j < keys.len() && #[trigger] keys[j] == c;
                    assert(is_file_from(keys, k + 1, c));
                }
                if is_file_from(keys, k + 1, c) {
                    let j = choose|j: int| k + 1 <= j < keys.len() && #[trigger] keys[j] == c;
                    assert(keys[j] != keys[k]);
                    assert(is_file_from(keys, k, c));
                }
                if t.files.contains(c) {
                    assert(!holds(t, f));
                }
            }
        }
        assert(deleted.dirs =~= less.dirs) by {
            assert forall|c: Seq<Seq<u8>>| deleted.dirs.contains(c) <==> less.dirs.contains(
                c,
            ) by {
                if is_dir_from(keys, k, c) {
                    let j = choose|j: int| k <= j < keys.len() && leads_to(c, #[trigger] keys[j]);
                    if j > k {
                        assert(is_dir_from(keys, k + 1, c));
                    }
                }
                if is_dir_from(keys, k + 1, c) {
                    let j = choose|j: int|
                        k + 1 <= j < keys.len() && leads_to(c, #[trigger] keys[j]);
                    assert(is_dir_from(keys, k, c));
                }
                if leads_to(c, keys[k]) {
                    assert(is_dir_from(keys, k, c));
                }
            }
        }
        let asked = Removal { phase: RemovePhaseView::Delete(k), disk };
        let then = Removal {
            phase: climb(lines, k, lines[k]),
            disk: Disk { tree: less, manifest: Some(manifest) },
        };
        assert(f.take(f.len() as int) =~= f);
        let n1 = lemma_climb(lines, t, Some(manifest), k, lines[k], f.len() as int);
        let n2 = lemma_lines(lines, t, manifest, k + 1);
        lemma_drive_on(lines, then, n1, n2);
        let n = (n1 + n2) as nat;
        assert(drive(lines, asked, (n + 1) as nat) == drive(lines, then, n));
        assert(drive(lines, at, (n + 2) as nat) == drive(lines, asked, (n + 1) as nat));
        (n + 2) as nat
    }
}

/// Whether a file stands at `d` or on the way to it.
pub open spec fn file_in_the_way(t: Tree, d: Seq<Seq<u8>>) -> bool {
    exists|p: Seq<Seq<u8>>| #[trigger] t.files.contains(p) && (p == d || leads_to(p, d))
}

/// What the tree answers to a request of an install: a directory can be
/// created unless a file is in its way, and a file can be written unless a
/// file is on its way or a directory stands in its place. What is asked of
/// the manifests can be done.
pub open spec fn install_answer_of(t: Tree, action: ActionView) -> bool {
    match action {
        ActionView::EnsurePackagesDir => true,
        ActionView::CheckManifest => true,
        ActionView::CreateManifest => true,
        ActionView::MakeDir { dest } => !file_in_the_way(t, components(dest)),
        ActionView::Extract { entry, dest } => {
            let f = components(dest);
            f.len() > 0 && !t.dirs.contains(f) && !(exists|p: Seq<Seq<u8>>| #[trigger]
                t.files.contains(p) && leads_to(p, f))
        },
        ActionView::Finish(_) => true,
    }
}

/// The tree after a request of an install was done, where it could be done:
/// the directories on the way to what is created are created with it.
pub open spec fn install_after(t: Tree, action: ActionView) -> Tree {
    if !install_answer_of(t, action) {
        t
    } else {
        match action {
            ActionView::MakeDir { dest } => Tree {
                files: t.files,
                dirs: Set::new(
                    |c: Seq<Seq<u8>>|
                        t.dirs.contains(c) || c == components(dest) || leads_to(
                            c,
                            components(dest),
                        ),
                ),
            },
            ActionView::Extract { entry, dest } => Tree {
                files: t.files.insert(components(dest)),
                dirs: Set::new(
                    |c: Seq<Seq<u8>>| t.dirs.contains(c) || leads_to(c, components(dest)),
                ),
            },
            _ => t,
        }
    }
}

/// What the disk answers to a request of an install: whether there is a
/// manifest where that is asked, and what the tree answers to the rest.
pub open spec fn install_disk_answer(d: Disk, action: ActionView) -> bool {
    match action {
        ActionView::CheckManifest => d.manifest is Some,
        _ => install_answer_of(d.tree, action),
    }
}

/// The disk after a request of an install was done, where it could be
/// done. A manifest is created empty, and the path of a file is added to
/// it before the file is written.
pub open spec fn install_disk_after(d: Disk, action: ActionView) -> Disk {
    match action {
        ActionView::CreateManifest => Disk { tree: d.tree, manifest: Some(seq![]) },
        ActionView::Extract { entry, dest } => Disk {
            tree: install_after(d.tree, action),
            manifest: match d.manifest {
                Some(text) => Some(text + record_spec(dest)),
                None => None,
            },
        },
        _ => Disk { tree: install_after(d.tree, action), manifest: d.manifest },
    }
}

/// An install and the disk it works on.
pub struct Installing {
    pub phase: PhaseView,
    pub disk: Disk,
}

/// The disk that holds the tree `t` and no manifest, with an install about
/// to begin on it.
pub open spec fn fresh(t: Tree) -> Installing {
    Installing { phase: PhaseView::PackagesDir, disk: Disk { tree: t, manifest: None } }
}

/// The install after `n` of its requests were done on the disk and
/// answered by it.
pub open spec fn install_drive(plan: PlanView, at: Installing, n: nat) -> Installing
    decreases n,
{
    if n == 0 {
        at
    } else {
        let before = install_drive(plan, at, (n - 1) as nat);
        let action = install::action_of(plan, before.phase);
        Installing {
            phase: install::next_phase(plan, before.phase, install_disk_answer(before.disk, action)),
            disk: install_disk_after(before.disk, action),
        }
    }
}

/// Whether nothing in the tree is both a file and a directory.
pub open spec fn unmixed(t: Tree) -> bool {
    forall|c: Seq<Seq<u8>>| !(#[trigger] t.files.contains(c) && t.dirs.contains(c))
}

/// Whether the plan can be done on the tree `t` and undone again: its files
/// can be taken out of the tree without a trace, each has a path that is
/// not empty, and each directory that the plan creates is in `t` already or
/// on the way to one of the files.
pub open spec fn reversible(t: Tree, plan: PlanView) -> bool {
    let lines = recorded(plan.steps, plan.steps.len() as int);
    let keys = keys_of(lines);
    &&& unmixed(t)
    &&& separable(t, keys)
    &&& forall|j: int| 0 <= j < keys.len() ==> (#[trigger] keys[j]).len() > 0
    &&& forall|i: int|
        0 <= i < plan.steps.len() && (#[trigger] plan.steps[i]).is_dir ==> needed(
            t,
            keys,
            0,
            components(plan.steps[i].dest),
        )
}

/// What is recorded for fewer steps is the beginning of what is recorded
/// for more.
proof fn lemma_recorded_grows(steps: Seq<StepView>, i: int, n: int)
    requires
        0 <= i <= n <= steps.len(),
    ensures
        recorded(steps, i).len() <= recorded(steps, n).len(),
        recorded(steps, n).take(recorded(steps, i).len() as int) == recorded(steps, i),
    decreases n - i,
{
    if i < n {
        lemma_recorded_grows(steps, i, n - 1);
        assert(recorded(steps, n).take(recorded(steps, i).len() as int) =~= recorded(
            steps,
            n - 1,
        ).take(recorded(steps, i).len() as int));
    } else {
        assert(recorded(steps, n).take(recorded(steps, n).len() as int) =~= recorded(steps, n));
    }
}

/// Whether the tree is what `i` steps of the plan make of the tree `t`:
/// it holds the files of `t` and those recorded for the steps, the
/// directories of `t` and those on the way to these files, and beyond them
/// only directories that are needed.
pub open spec fn grown(t: Tree, plan: PlanView, i: int, tree: Tree) -> bool {
    let keys = keys_of(recorded(plan.steps, plan.steps.len() as int));
    let count = recorded(plan.steps, i).len();
    &&& forall|c: Seq<Seq<u8>>|
        tree.files.contains(c) <==> t.files.contains(c) || exists|j: int|
            0 <= j < count && #[trigger] keys[j] == c
    &&& forall|c: Seq<Seq<u8>>| t.dirs.contains(c) ==> tree.dirs.contains(c)
    &&& forall|c: Seq<Seq<u8>>| tree.dirs.contains(c) ==> needed(t, keys, 0, c)
    &&& forall|j: int, c: Seq<Seq<u8>>|
        0 <= j < count && leads_to(c, #[trigger] keys[j]) ==> #[trigger] tree.dirs.contains(c)
}

/// A step of the plan can be done on what the steps before it made of the
/// tree, and makes of it what the steps up to it make.
proof fn lemma_step_grows(t: Tree, plan: PlanView, i: int, tree: Tree)
    requires
        reversible(t, plan),
        0 <= i < plan.steps.len(),
        grown(t, plan, i, tree),
    ensures
        install_answer_of(tree, install::action_of(plan, PhaseView::Step(i))),
        grown(t, plan, i + 1, install_after(tree, install::action_of(plan, PhaseView::Step(i)))),
{
    let n = plan.steps.len() as int;
    let lines = recorded(plan.steps, n);
    let keys = keys_of(lines);
    let count = recorded(plan.steps, i).len() as int;
    let step = plan.steps[i];
    let action = install::action_of(plan, PhaseView::Step(i));
    let d = components(step.dest);
    lemma_recorded_grows(plan.steps, i, n);
    lemma_recorded_grows(plan.steps, i + 1, n);
    if step.is_dir {
        assert(needed(t, keys, 0, d));
        assert forall|p: Seq<Seq<u8>>| p == d || leads_to(p, d) implies needed(t, keys, 0, p)
            && !tree.files.contains(p) by {
            if p != d {
                lemma_needed_below(t, keys, 0, d, p);
            }
            lemma_needed_is_no_file(t, keys, p);
        }
        let made = install_after(tree, action);
        assert(grown(t, plan, i + 1, made));
    } else {
        assert(recorded(plan.steps, i + 1) == recorded(plan.steps, i).push(step.dest));
        assert(lines[count] == recorded(plan.steps, i + 1)[count]);
        assert(keys[count] == d);
        assert(!tree.dirs.contains(d)) by {
            if tree.dirs.contains(d) {
                assert(needed(t, keys, 0, d));
                assert(!holds(t, keys[count]));
                let j = choose|j: int| 0 <= j < keys.len() && leads_to(d, #[trigger] keys[j]);
                assert(!leads_to(keys[count], keys[j]));
            }
        }
        assert forall|p: Seq<Seq<u8>>| leads_to(p, d) implies !tree.files.contains(p) by {
            assert(leads_to(p, keys[count]));
            assert(is_dir_from(keys, 0, p));
            lemma_needed_is_no_file(t, keys, p);
        }
        let made = install_after(tree, action);
        assert(made.files == tree.files.insert(d));
        assert forall|c: Seq<Seq<u8>>|
            made.files.contains(c) <==> t.files.contains(c) || exists|j: int|
                0 <= j < count + 1 && #[trigger] keys[j] == c by {
            if c == d {
                assert(keys[count] == c);
            }
            if exists|j: int| 0 <= j < count + 1 && #[trigger] keys[j] == c {
                let j = choose|j: int| 0 <= j < count + 1 && #[trigger] keys[j] == c;
                if j < count {
                    assert(tree.files.contains(c));
                }
            }
        }
        assert forall|c: Seq<Seq<u8>>| made.dirs.contains(c) implies needed(t, keys, 0, c) by {
            if !tree.dirs.contains(c) {
                assert(leads_to(c, keys[count]));
            }
        }
        assert(grown(t, plan, i + 1, made));
    }
}

/// A needed directory is not among the files of the tree and the manifest.
proof fn lemma_needed_is_no_file(t: Tree, keys: Seq<Seq<Seq<u8>>>, p: Seq<Seq<u8>>)
    requires
        unmixed(t),
        separable(t, keys),
        needed(t, keys, 0, p),
    ensures
        !t.files.contains(p),
        forall|j: int| 0 <= j < keys.len() ==> #[trigger] keys[j] != p,
{
    assert forall|j: int| 0 <= j < keys.len() implies #[trigger] keys[j] != p by {
        if keys[j] == p {
            assert(!holds(t, keys[j]));
            let k = choose|k: int| 0 <= k < keys.len() && leads_to(p, #[trigger] keys[k]);
            assert(!leads_to(keys[j], keys[k]));
        }
    }
    if !t.dirs.contains(p) {
        let k = choose|k: int| 0 <= k < keys.len() && leads_to(p, #[trigger] keys[k]);
        assert(leads_to(p, keys[k]));
    }
}

/// Whether the tree holds a file at each of the paths recorded for the
/// first `i` steps of the plan.
pub open spec fn files_exist(plan: PlanView, i: int, tree: Tree) -> bool {
    forall|j: int|
        0 <= j < recorded(plan.steps, i).len() ==> tree.files.contains(
            components(#[trigger] recorded(plan.steps, i)[j]),
        )
}

/// The manifest that holds what is recorded for the first `i` steps of the
/// plan.
pub open spec fn manifest_after(plan: PlanView, i: int) -> Seq<u8> {
    manifest_text(recorded(plan.steps, i), recorded(plan.steps, i).len() as int)
}

/// The manifest grows by the record of a file when the step of the file is
/// done, and stays as it is at the step of a directory.
proof fn lemma_manifest_after_step(plan: PlanView, i: int)
    requires
        0 <= i < plan.steps.len(),
    ensures
        manifest_after(plan, i + 1) == if plan.steps[i].is_dir {
            manifest_after(plan, i)
        } else {
            manifest_after(plan, i) + record_spec(plan.steps[i].dest)
        },
{
    let before = recorded(plan.steps, i);
    let now = recorded(plan.steps, i + 1);
    if !plan.steps[i].is_dir {
        assert(now == before.push(plan.steps[i].dest));
        lemma_manifest_text_same(now, before, before.len() as int);
    }
}

/// The manifest of the first `k` paths depends on those paths alone.
proof fn lemma_manifest_text_same(a: Seq<Seq<u8>>, b: Seq<Seq<u8>>, k: int)
    requires
        0 <= k <= a.len(),
        k <= b.len(),
        forall|j: int| 0 <= j < k ==> a[j] == b[j],
    ensures
        manifest_text(a, k) == manifest_text(b, k),
    decreases k,
{
    if k > 0 {
        lemma_manifest_text_same(a, b, k - 1);
    }
}

/// The first three requests of an install on a disk without a manifest
/// create the manifest and change nothing else.
proof fn lemma_install_begins(t: Tree, plan: PlanView)
    ensures
        install_drive(plan, fresh(t), 3) == (Installing {
            phase: install::phase_at(plan, 0),
            disk: Disk { tree: t, manifest: Some(manifest_after(plan, 0)) },
        }),
{
    let from = fresh(t);
    let s0 = install_drive(plan, from, 0);
    let s1 = install_drive(plan, from, 1);
    let s2 = install_drive(plan, from, 2);
    assert(s0 == from);
    assert(s1 == Installing { phase: PhaseView::ManifestCheck, disk: from.disk });
    assert(s2 == Installing { phase: PhaseView::ManifestCreate, disk: from.disk });
    assert(recorded(plan.steps, 0).len() == 0);
    assert(manifest_after(plan, 0) =~= Seq::<u8>::empty());
}

/// An install on a disk without a manifest has failed, or it has done the
/// steps before the one it is at: the manifest then holds what is recorded
/// for them, and the tree holds the files recorded.
proof fn lemma_install_progress(t: Tree, plan: PlanView, i: int)
    requires
        0 <= i <= plan.steps.len(),
    ensures
        ({
            let at = install_drive(plan, fresh(t), (i + 3) as nat);
            ||| at.phase matches PhaseView::Finished(Err(_))
            ||| {
                &&& at.phase == install::phase_at(plan, i)
                &&& at.disk.manifest == Some(manifest_after(plan, i))
                &&& files_exist(plan, i, at.disk.tree)
            }
        }),
    decreases i,
{
    let from = fresh(t);
    if i == 0 {
        lemma_install_begins(t, plan);
        assert(recorded(plan.steps, 0).len() == 0);
    } else {
        lemma_install_progress(t, plan, i - 1);
        lemma_manifest_after_step(plan, i - 1);
        let before = install_drive(plan, from, (i + 2) as nat);
        let at = install_drive(plan, from, (i + 3) as nat);
        if before.phase == install::phase_at(plan, i - 1) {
            let action = install::action_of(plan, before.phase);
            if install_answer_of(before.disk.tree, action) {
                assert forall|j: int|
                    0 <= j < recorded(plan.steps, i).len() implies at.disk.tree.files.contains(
                    components(#[trigger] recorded(plan.steps, i)[j]),
                ) by {
                    if j < recorded(plan.steps, i - 1).len() {
                        assert(recorded(plan.steps, i)[j] == recorded(plan.steps, i - 1)[j]);
                        assert(before.disk.tree.files.contains(
                            components(recorded(plan.steps, i - 1)[j]),
                        ));
                    }
                }
            }
        }
    }
}

/// After an install that ended well, on whatever tree, the manifest holds
/// the paths recorded for the steps of the plan, and each of them is the
/// path of a file that the tree holds.
pub proof fn lemma_installed_files_exist(t: Tree, plan: PlanView)
    requires
        install_drive(plan, fresh(t), plan.steps.len() + 3).phase == PhaseView::Finished(Ok(())),
    ensures
        ({
            let end = install_drive(plan, fresh(t), plan.steps.len() + 3);
            &&& end.disk.manifest == Some(manifest_after(plan, plan.steps.len() as int))
            &&& files_exist(plan, plan.steps.len() as int, end.disk.tree)
        }),
{
    lemma_install_progress(t, plan, plan.steps.len() as int);
}

/// Whether the tree holds a file or a directory that the plan creates: the
/// destination of one of its steps, or a directory on the way to one.
pub open spec fn planned(plan: PlanView, c: Seq<Seq<u8>>) -> bool {
    exists|i: int|
        0 <= i < plan.steps.len() && (c == components((#[trigger] plan.steps[i]).dest) || leads_to(
            c,
            components(plan.steps[i].dest),
        ))
}

/// Whatever the disk held, an install takes nothing away from the tree and
/// adds nothing to it but what the plan creates. So nothing is written for
/// an entry of the archive that has no step in the plan.
pub proof fn lemma_install_adds_only_planned(plan: PlanView, from: Installing, n: nat)
    requires
        from.phase matches PhaseView::Step(i) ==> 0 <= i < plan.steps.len(),
    ensures
        ({
            let at = install_drive(plan, from, n);
            &&& at.phase matches PhaseView::Step(i) ==> 0 <= i < plan.steps.len()
            &&& forall|c: Seq<Seq<u8>>|
                from.disk.tree.files.contains(c) ==> at.disk.tree.files.contains(c)
            &&& forall|c: Seq<Seq<u8>>|
                from.disk.tree.dirs.contains(c) ==> at.disk.tree.dirs.contains(c)
            &&& forall|c: Seq<Seq<u8>>| #[trigger]
                holds(at.disk.tree, c) ==> holds(from.disk.tree, c) || planned(plan, c)
        }),
    decreases n,
{
    if n > 0 {
        lemma_install_adds_only_planned(plan, from, (n - 1) as nat);
        let before = install_drive(plan, from, (n - 1) as nat);
        let at = install_drive(plan, from, n);
        assert forall|c: Seq<Seq<u8>>| #[trigger] holds(at.disk.tree, c) implies holds(
            from.disk.tree,
            c,
        ) || planned(plan, c) by {
            if !holds(before.disk.tree, c) {
                let i = before.phase->Step_0;
                assert(before.phase is Step);
                assert(c == components(plan.steps[i].dest) || leads_to(
                    c,
                    components(plan.steps[i].dest),
                ));
            }
        }
    }
}

/// The install of a package that has a manifest ends with
/// `AlreadyInstalled` and leaves the disk as it was.
pub proof fn lemma_installed_package_is_left_alone(plan: PlanView, d: Disk, n: nat)
    requires
        d.manifest is Some,
    ensures
        install_drive(plan, Installing { phase: PhaseView::PackagesDir, disk: d }, n).disk == d,
        n >= 2 ==> install_drive(plan, Installing { phase: PhaseView::PackagesDir, disk: d }, n).phase
            == PhaseView::Finished(Err(InstallErrorView::AlreadyInstalled)),
        n == 1 ==> install_drive(plan, Installing { phase: PhaseView::PackagesDir, disk: d }, n).phase
            == PhaseView::ManifestCheck,
    decreases n,
{
    if n > 0 {
        lemma_installed_package_is_left_alone(plan, d, (n - 1) as nat);
    }
}

/// The removal of a package that has no manifest is over with
/// `NotInstalled` when it begins, and leaves the disk as it was.
pub proof fn lemma_missing_package_is_left_alone(d: Disk, n: nat)
    ensures
        drive(
            crate::remove::start(None).lines,
            Removal { phase: crate::remove::start(None).phase, disk: d },
            n,
        ) == (Removal {
            phase: RemovePhaseView::Finished(Err(RemoveErrorView::NotInstalled)),
            disk: d,
        }),
    decreases n,
{
    if n > 0 {
        lemma_missing_package_is_left_alone(d, (n - 1) as nat);
    }
}

/// On a tree on which the plan is reversible, the steps of the plan are
/// done one after the other.
proof fn lemma_steps_grow(t: Tree, plan: PlanView, i: int)
    requires
        reversible(t, plan),
        0 <= i <= plan.steps.len(),
    ensures
        install_drive(plan, fresh(t), (i + 3) as nat).phase == install::phase_at(plan, i),
        install_drive(plan, fresh(t), (i + 3) as nat).disk.manifest == Some(
            manifest_after(plan, i),
        ),
        grown(t, plan, i, install_drive(plan, fresh(t), (i + 3) as nat).disk.tree),
    decreases i,
{
    if i == 0 {
        lemma_install_begins(t, plan);
        assert(recorded(plan.steps, 0).len() == 0);
        assert(grown(t, plan, 0, t));
    } else {
        lemma_steps_grow(t, plan, i - 1);
        lemma_manifest_after_step(plan, i - 1);
        let before = install_drive(plan, fresh(t), (i + 2) as nat);
        lemma_step_grows(t, plan, i - 1, before.disk.tree);
    }
}

/// The install on a tree on which its plan is reversible ends as the plan
/// says. The manifest then holds the paths recorded for the steps, and the
/// tree holds, over what it held, the files of the manifest and the
/// directories on the way to them, and nothing more.
pub proof fn lemma_install_adds_files(t: Tree, plan: PlanView)
    requires
        reversible(t, plan),
    ensures
        ({
            let lines = recorded(plan.steps, plan.steps.len() as int);
            let end = install_drive(plan, fresh(t), plan.steps.len() + 3);
            &&& end.phase == PhaseView::Finished(plan.end)
            &&& end.disk.manifest == Some(manifest_text(lines, lines.len() as int))
            &&& end.disk.tree == with_files(t, keys_of(lines), 0, 0)
        }),
{
    let n = plan.steps.len() as int;
    let lines = recorded(plan.steps, n);
    let keys = keys_of(lines);
    lemma_steps_grow(t, plan, n);
    let end = install_drive(plan, fresh(t), (n + 3) as nat);
    let all = with_files(t, keys, 0, 0);
    assert forall|c: Seq<Seq<u8>>| end.disk.tree.files.contains(c) <==> all.files.contains(c) by {
        if is_file_from(keys, 0, c) {
            let j = choose|j: int| 0 <= j < keys.len() && #[trigger] keys[j] == c;
            assert(end.disk.tree.files.contains(c));
        }
    }
    assert forall|c: Seq<Seq<u8>>| end.disk.tree.dirs.contains(c) <==> all.dirs.contains(c) by {
        if is_dir_from(keys, 0, c) {
            let j = choose|j: int| 0 <= j < keys.len() && leads_to(c, #[trigger] keys[j]);
            assert(end.disk.tree.dirs.contains(c));
        }
        if end.disk.tree.dirs.contains(c) {
            assert(needed(t, keys, 0, c));
        }
    }
    assert(end.disk.tree.files =~= all.files);
    assert(end.disk.tree.dirs =~= all.dirs);
}

/// An install followed by the removal of what it installed leaves the disk
/// as it was: the tree holds what it held, and there is no manifest. The
/// install is done on a tree on which its plan is reversible; the removal
/// reads the manifest that the install wrote, whose paths are such as can
/// be read back from it.
pub proof fn lemma_install_then_remove(t: Tree, plan: PlanView)
    requires
        reversible(t, plan),
        forall|j: int|
            0 <= j < recorded(plan.steps, plan.steps.len() as int).len() ==> fits_line(
                #[trigger] recorded(plan.steps, plan.steps.len() as int)[j],
            ),
    ensures
        ({
            let installed = install_drive(plan, fresh(t), plan.steps.len() + 3);
            let removal = crate::remove::start(installed.disk.manifest);
            &&& installed.phase == PhaseView::Finished(plan.end)
            &&& exists|n: nat|
                drive(removal.lines, Removal { phase: removal.phase, disk: installed.disk }, n)
                    == (Removal {
                    phase: RemovePhaseView::Finished(Ok(())),
                    disk: Disk { tree: t, manifest: None },
                })
        }),
{
    let lines = recorded(plan.steps, plan.steps.len() as int);
    let manifest = manifest_text(lines, lines.len() as int);
    lemma_install_adds_files(t, plan);
    lemma_manifest_round_trip(lines);
    let n = lemma_lines(lines, t, manifest, 0);
    let installed = install_drive(plan, fresh(t), plan.steps.len() + 3);
    let removal = crate::remove::start(installed.disk.manifest);
    assert(drive(removal.lines, Removal { phase: removal.phase, disk: installed.disk }, n) == (
    Removal { phase: RemovePhaseView::Finished(Ok(())), disk: Disk { tree: t, manifest: None } }));
}

} // verus!
