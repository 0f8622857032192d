//! The removal of a package, as a sequence of requests to whoever holds the
//! filesystem.
//!
//! A [`Remover`] names one thing to do at a time. The caller does it and
//! reports with [`Remover::advance`] how it went; the remover then names the
//! next, until it names the end of the removal.
//!
//! A removal that fails is not undone, and it is strict on purpose: a file
//! that the manifest lists and that cannot be deleted, be it only because it
//! is gone already, ends the removal with `FileDeleteError`. The manifest is
//! deleted last, so that it is still there after a failure.

use crate::bytes::{copy_bytes, views};
use crate::category::{is_category_name, Category};
use crate::error::{remove_outcome, RemoveError, RemoveErrorView};
use crate::manifest::parse;
use crate::path::{
    components, file_name, file_name_spec, lemma_parent_components, parent, parent_spec,
};
use crate::text::lines_spec;
use vstd::prelude::*;

verus! {

/// How far a removal has come. The number is that of the manifest's line
/// that is being worked on.
#[derive(Debug, PartialEq, Eq)]
pub enum RemovePhase {
    /// It is to be found out whether the line names a directory.
    IsDir(usize),
    /// The file that the line names is to be deleted.
    Delete(usize),
    /// It is to be found out whether this directory, above the line's file,
    /// is empty.
    Empty(usize, Vec<u8>),
    /// This directory, above the line's file, is to be removed.
    Prune(usize, Vec<u8>),
    /// The manifest is to be deleted.
    Manifest,
    /// The removal is over.
    Finished(Result<(), RemoveError>),
}

/// A [`RemovePhase`] over byte sequences.
pub enum RemovePhaseView {
    IsDir(int),
    Delete(int),
    Empty(int, Seq<u8>),
    Prune(int, Seq<u8>),
    Manifest,
    Finished(Result<(), RemoveErrorView>),
}

impl View for RemovePhase {
    type V = RemovePhaseView;

    open spec fn view(&self) -> RemovePhaseView {
        match self {
            RemovePhase::IsDir(i) => RemovePhaseView::IsDir(*i as int),
            RemovePhase::Delete(i) => RemovePhaseView::Delete(*i as int),
            RemovePhase::Empty(i, d) => RemovePhaseView::Empty(*i as int, d@),
            RemovePhase::Prune(i, d) => RemovePhaseView::Prune(*i as int, d@),
            RemovePhase::Manifest => RemovePhaseView::Manifest,
            RemovePhase::Finished(r) => RemovePhaseView::Finished(remove_outcome(*r)),
        }
    }
}

/// What the caller of a removal is asked to do next.
#[derive(Debug, PartialEq, Eq)]
pub enum RemoveAction {
    /// Answer whether `path` is a directory.
    IsDirectory { path: Vec<u8> },
    /// Delete the file `path`. Answer whether that was done.
    DeleteFile { path: Vec<u8> },
    /// Answer whether the directory `dir` is empty.
    IsEmpty { dir: Vec<u8> },
    /// Remove the empty directory `dir`. Answer whether that was done.
    RemoveDir { dir: Vec<u8> },
    /// Delete the package's manifest. Answer whether that was done.
    DeleteManifest,
    /// Nothing more: the removal has ended so.
    Finish(Result<(), RemoveError>),
}

/// A [`RemoveAction`] over byte sequences.
pub enum RemoveActionView {
    IsDirectory { path: Seq<u8> },
    DeleteFile { path: Seq<u8> },
    IsEmpty { dir: Seq<u8> },
    RemoveDir { dir: Seq<u8> },
    DeleteManifest,
    Finish(Result<(), RemoveErrorView>),
}

impl View for RemoveAction {
    type V = RemoveActionView;

    open spec fn view(&self) -> RemoveActionView {
        match self {
            RemoveAction::IsDirectory { path } => RemoveActionView::IsDirectory { path: path@ },
            RemoveAction::DeleteFile { path } => RemoveActionView::DeleteFile { path: path@ },
            RemoveAction::IsEmpty { dir } => RemoveActionView::IsEmpty { dir: dir@ },
            RemoveAction::RemoveDir { dir } => RemoveActionView::RemoveDir { dir: dir@ },
            RemoveAction::DeleteManifest => RemoveActionView::DeleteManifest,
            RemoveAction::Finish(r) => RemoveActionView::Finish(remove_outcome(*r)),
        }
    }
}

/// Whether a directory may be removed once it is empty: its path ends in a
/// name, and the name is not that of a category.
pub open spec fn prunable(dir: Seq<u8>) -> bool {
    match file_name_spec(dir) {
        Some(name) => !is_category_name(name),
        None => false,
    }
}

/// The phase in which line `i` of the manifest is taken up: the deletion of
/// the manifest once the lines are used up.
pub open spec fn line_phase(lines: Seq<Seq<u8>>, i: int) -> RemovePhaseView {
    if 0 <= i < lines.len() {
        RemovePhaseView::IsDir(i)
    } else {
        RemovePhaseView::Manifest
    }
}

/// The phase after `gone`, a file or a directory that belongs to line `i`,
/// was deleted: the directory that held it is looked at if it may be
/// removed, else the next line is taken up.
pub open spec fn climb(lines: Seq<Seq<u8>>, i: int, gone: Seq<u8>) -> RemovePhaseView {
    match parent_spec(gone) {
        Some(dir) => if prunable(dir) {
            RemovePhaseView::Empty(i, dir)
        } else {
            line_phase(lines, i + 1)
        },
        None => line_phase(lines, i + 1),
    }
}

/// The phase that follows `phase` when the caller answers `answer`.
///
/// A line that names a directory is passed over. After a file is deleted,
/// the directories above it are removed from the nearest upwards as long as
/// each is empty and may be removed. The removal ends with `FileDeleteError`
/// at the first file or directory that could not be deleted, naming it, and
/// with `ManifestDeleteError` where the manifest could not be deleted.
pub open spec fn next_phase(lines: Seq<Seq<u8>>, phase: RemovePhaseView, answer: bool)
    -> RemovePhaseView {
    match phase {
        RemovePhaseView::IsDir(i) => if answer {
            line_phase(lines, i + 1)
        } else {
            RemovePhaseView::Delete(i)
        },
        RemovePhaseView::Delete(i) => if answer {
            climb(lines, i, lines[i])
        } else {
            RemovePhaseView::Finished(Err(RemoveErrorView::FileDeleteError(lines[i])))
        },
        RemovePhaseView::Empty(i, dir) => if answer {
            RemovePhaseView::Prune(i, dir)
        } else {
            line_phase(lines, i + 1)
        },
        RemovePhaseView::Prune(i, dir) => if answer {
            climb(lines, i, dir)
        } else {
            RemovePhaseView::Finished(Err(RemoveErrorView::FileDeleteError(dir)))
        },
        RemovePhaseView::Manifest => if answer {
            RemovePhaseView::Finished(Ok(()))
        } else {
            RemovePhaseView::Finished(Err(RemoveErrorView::ManifestDeleteError))
        },
        RemovePhaseView::Finished(r) => RemovePhaseView::Finished(r),
    }
}

/// What the caller is asked to do in a phase.
pub open spec fn action_of(lines: Seq<Seq<u8>>, phase: RemovePhaseView) -> RemoveActionView {
    match phase {
        RemovePhaseView::IsDir(i) => RemoveActionView::IsDirectory { path: lines[i] },
        RemovePhaseView::Delete(i) => RemoveActionView::DeleteFile { path: lines[i] },
        RemovePhaseView::Empty(i, dir) => RemoveActionView::IsEmpty { dir },
        RemovePhaseView::Prune(i, dir) => RemoveActionView::RemoveDir { dir },
        RemovePhaseView::Manifest => RemoveActionView::DeleteManifest,
        RemovePhaseView::Finished(r) => RemoveActionView::Finish(r),
    }
}

/// The state of a removal: the lines of the manifest and the phase.
pub struct RemoverView {
    pub lines: Seq<Seq<u8>>,
    pub phase: RemovePhaseView,
}

/// The state in which a removal begins. Without a manifest the package is
/// not installed, and the removal is over with `NotInstalled`; else the
/// first line of the manifest is taken up.
pub open spec fn start(manifest: Option<Seq<u8>>) -> RemoverView {
    match manifest {
        None => RemoverView {
            lines: seq![],
            phase: RemovePhaseView::Finished(Err(RemoveErrorView::NotInstalled)),
        },
        Some(text) => RemoverView {
            lines: lines_spec(text),
            phase: line_phase(lines_spec(text), 0),
        },
    }
}

/// The view of an optional text.
pub open spec fn text_view(text: Option<&[u8]>) -> Option<Seq<u8>> {
    match text {
        Some(t) => Some(t@),
        None => None,
    }
}

/// The path `k` levels above `p`: `p` itself for 0, and `None` where the
/// levels run out.
pub open spec fn ancestor(p: Seq<u8>, k: nat) -> Option<Seq<u8>>
    decreases k,
{
    if k == 0 {
        Some(p)
    } else {
        match ancestor(p, (k - 1) as nat) {
            Some(q) => parent_spec(q),
            None => None,
        }
    }
}

/// Whether `dir` lies above `p`, at least one level up.
pub open spec fn is_above(dir: Seq<u8>, p: Seq<u8>) -> bool {
    exists|k: nat| k >= 1 && ancestor(p, k) == Some(dir)
}

/// Whether a phase fits the manifest: the line it works on is there, and a
/// directory that it looks at or removes lies above the file of that line
/// and may be removed.
pub open spec fn fits(lines: Seq<Seq<u8>>, phase: RemovePhaseView) -> bool {
    match phase {
        RemovePhaseView::IsDir(i) => 0 <= i < lines.len(),
        RemovePhaseView::Delete(i) => 0 <= i < lines.len(),
        RemovePhaseView::Empty(i, dir) => 0 <= i < lines.len() && prunable(dir) && is_above(
            dir,
            lines[i],
        ),
        RemovePhaseView::Prune(i, dir) => 0 <= i < lines.len() && prunable(dir) && is_above(
            dir,
            lines[i],
        ),
        RemovePhaseView::Manifest => true,
        RemovePhaseView::Finished(_) => true,
    }
}

/// The directory that holds a path lies above whatever the path lies above,
/// and above the path.
proof fn lemma_parent_is_above(p: Seq<u8>, gone: Seq<u8>)
    requires
        gone == p || is_above(gone, p),
        parent_spec(gone) is Some,
    ensures
        is_above(parent_spec(gone)->0, p),
{
    if gone == p {
        assert(ancestor(p, 0) == Some(p));
        assert(ancestor(p, 1) == parent_spec(gone));
    } else {
        let k = choose|k: nat| k >= 1 && ancestor(p, k) == Some(gone);
        assert(ancestor(p, k + 1) == parent_spec(gone));
    }
}

/// A removal in progress.
pub struct Remover {
    lines: Vec<Vec<u8>>,
    phase: RemovePhase,
}

impl View for Remover {
    type V = RemoverView;

    closed spec fn view(&self) -> RemoverView {
        RemoverView { lines: views(self.lines@), phase: self.phase@ }
    }
}

/// Whether a directory may be removed once it is empty.
pub fn may_prune(dir: &[u8]) -> (r: bool)
    ensures
        r == prunable(dir@),
{
    match file_name(dir) {
        Some(name) => Category::from_name(name.as_slice()).is_none(),
        None => false,
    }
}

impl Remover {
    #[verifier::type_invariant]
    spec fn well_formed(self) -> bool {
        fits(views(self.lines@), self.phase@)
    }

    /// Begins the removal of a package. `manifest` holds what the package's
    /// manifest holds, or is `None` where the package has no manifest.
    pub fn begin(manifest: Option<&[u8]>) -> (m: Remover)
        ensures
            m@ == start(text_view(manifest)),
    {
        match manifest {
            None => {
                let lines: Vec<Vec<u8>> = Vec::new();
                assert(views(lines@) =~= Seq::empty());
                Remover { lines, phase: RemovePhase::Finished(Err(RemoveError::NotInstalled)) }
            },
            Some(text) => {
                let lines = parse(text);
                let phase = Self::phase_from(&lines, 0);
                Remover { lines, phase }
            },
        }
    }

    /// Whether the removal is over.
    pub fn is_finished(&self) -> (r: bool)
        ensures
            r == (self@.phase is Finished),
    {
        match self.phase {
            RemovePhase::Finished(_) => true,
            _ => false,
        }
    }

    /// What the caller is to do next. A directory that is to be removed is
    /// never one with the name of a category.
    pub fn pending(&self) -> (action: RemoveAction)
        ensures
            action@ == action_of(self@.lines, self@.phase),
            fits(self@.lines, self@.phase),
            action matches RemoveAction::RemoveDir { dir } ==> prunable(dir@),
    {
        proof {
            use_type_invariant(self);
        }
        match &self.phase {
            RemovePhase::IsDir(i) => {
                assert(views(self.lines@)[*i as int] == self.lines@[*i as int]@);
                RemoveAction::IsDirectory { path: copy_bytes(self.lines[*i].as_slice()) }
            },
            RemovePhase::Delete(i) => {
                assert(views(self.lines@)[*i as int] == self.lines@[*i as int]@);
                RemoveAction::DeleteFile { path: copy_bytes(self.lines[*i].as_slice()) }
            },
            RemovePhase::Empty(_, dir) => RemoveAction::IsEmpty {
                dir: copy_bytes(dir.as_slice()),
            },
            RemovePhase::Prune(_, dir) => RemoveAction::RemoveDir {
                dir: copy_bytes(dir.as_slice()),
            },
            RemovePhase::Manifest => RemoveAction::DeleteManifest,
            RemovePhase::Finished(r) => RemoveAction::Finish(
                match r {
                    Ok(_) => Ok(()),
                    Err(e) => Err(e.duplicate()),
                },
            ),
        }
    }

    /// Takes the caller's answer to what was pending and moves on.
    pub fn advance(self, answer: bool) -> (m: Remover)
        ensures
            m@ == (RemoverView {
                phase: next_phase(self@.lines, self@.phase, answer),
                ..self@
            }),
    {
        proof {
            use_type_invariant(&self);
        }
        let Remover { lines, phase } = self;
        assert(fits(views(lines@), phase@));
        assert(views(lines@).len() == lines.len());
        let next = match phase {
            RemovePhase::IsDir(i) => if answer {
                Self::phase_from(&lines, i + 1)
            } else {
                RemovePhase::Delete(i)
            },
            RemovePhase::Delete(i) => {
                assert(views(lines@)[i as int] == lines@[i as int]@);
                if answer {
                    Self::phase_above(&lines, i, lines[i].as_slice())
                } else {
                    RemovePhase::Finished(
                        Err(RemoveError::FileDeleteError(copy_bytes(lines[i].as_slice()))),
                    )
                }
            },
            RemovePhase::Empty(i, dir) => if answer {
                RemovePhase::Prune(i, dir)
            } else {
                Self::phase_from(&lines, i + 1)
            },
            RemovePhase::Prune(i, dir) => if answer {
                Self::phase_above(&lines, i, dir.as_slice())
            } else {
                RemovePhase::Finished(Err(RemoveError::FileDeleteError(dir)))
            },
            RemovePhase::Manifest => if answer {
                RemovePhase::Finished(Ok(()))
            } else {
                RemovePhase::Finished(Err(RemoveError::ManifestDeleteError))
            },
            RemovePhase::Finished(r) => RemovePhase::Finished(r),
        };
        Remover { lines, phase: next }
    }

    /// The phase in which line `i` is taken up.
    fn phase_from(lines: &Vec<Vec<u8>>, i: usize) -> (phase: RemovePhase)
        ensures
            phase@ == line_phase(views(lines@), i as int),
            fits(views(lines@), phase@),
    {
        if i < lines.len() {
            RemovePhase::IsDir(i)
        } else {
            RemovePhase::Manifest
        }
    }

    /// The phase after `gone`, which belongs to line `i`, was deleted.
    fn phase_above(lines: &Vec<Vec<u8>>, i: usize, gone: &[u8]) -> (phase: RemovePhase)
        requires
            i < lines.len(),
            gone@ == lines[i as int]@ || is_above(gone@, lines[i as int]@),
        ensures
            phase@ == climb(views(lines@), i as int, gone@),
            fits(views(lines@), phase@),
    {
        proof {
            if parent_spec(gone@) is Some {
                lemma_parent_is_above(lines[i as int]@, gone@);
            }
        }
        match parent(gone) {
            Some(dir) => if may_prune(dir.as_slice()) {
                RemovePhase::Empty(i, dir)
            } else {
                Self::phase_from(lines, i + 1)
            },
            None => Self::phase_from(lines, i + 1),
        }
    }
}

/// The phase that a removal is in after the caller's answers, given in their
/// order, when it began in the phase `from`.
pub open spec fn run(lines: Seq<Seq<u8>>, from: RemovePhaseView, answers: Seq<bool>)
    -> RemovePhaseView
    decreases answers.len(),
{
    if answers.len() == 0 {
        from
    } else {
        next_phase(lines, run(lines, from, answers.drop_last()), answers.last())
    }
}

/// A phase that fits the manifest is followed by one that does.
proof fn lemma_next_fits(lines: Seq<Seq<u8>>, phase: RemovePhaseView, answer: bool)
    requires
        fits(lines, phase),
    ensures
        fits(lines, next_phase(lines, phase, answer)),
{
    match phase {
        RemovePhaseView::Delete(i) => {
            if parent_spec(lines[i]) is Some {
                lemma_parent_is_above(lines[i], lines[i]);
            }
        },
        RemovePhaseView::Prune(i, dir) => {
            if parent_spec(dir) is Some {
                lemma_parent_is_above(lines[i], dir);
            }
        },
        _ => {},
    }
}

/// Whatever the caller answers, a removal stays within the manifest.
pub proof fn lemma_run_fits(manifest: Option<Seq<u8>>, answers: Seq<bool>)
    ensures
        fits(start(manifest).lines, run(start(manifest).lines, start(manifest).phase, answers)),
    decreases answers.len(),
{
    let m = start(manifest);
    if answers.len() > 0 {
        lemma_run_fits(manifest, answers.drop_last());
        lemma_next_fits(m.lines, run(m.lines, m.phase, answers.drop_last()), answers.last());
    }
}

/// Whatever the caller answers, a removal never asks for the removal of a
/// directory with the name of a category, nor of one whose path does not end
/// in a name.
pub proof fn lemma_never_removes_category(manifest: Option<Seq<u8>>, answers: Seq<bool>)
    ensures
        action_of(
            start(manifest).lines,
            run(start(manifest).lines, start(manifest).phase, answers),
        ) matches RemoveActionView::RemoveDir { dir } ==> match file_name_spec(dir) {
            Some(name) => !is_category_name(name),
            None => false,
        },
{
    lemma_run_fits(manifest, answers);
}

/// Whatever the caller answers, a removal asks for the deletion of no file
/// but those that the manifest lists, and for the removal of no directory
/// but those that lie above one of them. And it asks for the removal of a
/// directory only after the caller has answered that the directory is empty.
pub proof fn lemma_removes_only_what_is_owned(manifest: Option<Seq<u8>>, answers: Seq<bool>)
    ensures
        ({
            let lines = start(manifest).lines;
            let phase = run(lines, start(manifest).phase, answers);
            &&& action_of(lines, phase) matches RemoveActionView::DeleteFile { path }
                ==> lines.contains(path)
            &&& action_of(lines, phase) matches RemoveActionView::RemoveDir { dir } ==> {
                &&& exists|i: int| 0 <= i < lines.len() && is_above(dir, #[trigger] lines[i])
                &&& answers.len() > 0 && answers.last()
                &&& action_of(lines, run(lines, start(manifest).phase, answers.drop_last()))
                    == (RemoveActionView::IsEmpty { dir })
            }
        }),
{
    lemma_run_fits(manifest, answers);
    let m = start(manifest);
    let phase = run(m.lines, m.phase, answers);
    if phase is Prune {
        if answers.len() > 0 {
            lemma_run_fits(manifest, answers.drop_last());
            let before = run(m.lines, m.phase, answers.drop_last());
            assert(phase == next_phase(m.lines, before, answers.last()));
            assert(before is Empty);
        }
    }
}

/// How many answers a removal takes at most from where line `i` is taken
/// up: for each line two and two more for each component of its path, and
/// one for the manifest.
pub open spec fn lines_cost(lines: Seq<Seq<u8>>, i: int) -> nat
    decreases lines.len() - i,
{
    if i < 0 || i >= lines.len() {
        1
    } else {
        2 + 2 * components(lines[i]).len() + lines_cost(lines, i + 1)
    }
}

/// How many answers a removal takes at most from a phase on.
pub open spec fn cost(lines: Seq<Seq<u8>>, phase: RemovePhaseView) -> nat {
    match phase {
        RemovePhaseView::IsDir(i) => 2 + 2 * components(lines[i]).len() + lines_cost(lines, i + 1),
        RemovePhaseView::Delete(i) => 1 + 2 * components(lines[i]).len() + lines_cost(
            lines,
            i + 1,
        ),
        RemovePhaseView::Empty(i, dir) => 2 + 2 * components(dir).len() + lines_cost(lines, i + 1),
        RemovePhaseView::Prune(i, dir) => 1 + 2 * components(dir).len() + lines_cost(lines, i + 1),
        RemovePhaseView::Manifest => 1,
        RemovePhaseView::Finished(_) => 0,
    }
}

/// Each answer brings a removal that is not over nearer to its end.
proof fn lemma_next_costs_less(lines: Seq<Seq<u8>>, phase: RemovePhaseView, answer: bool)
    requires
        !(phase is Finished),
    ensures
        cost(lines, next_phase(lines, phase, answer)) < cost(lines, phase),
{
    match phase {
        RemovePhaseView::Delete(i) => {
            if parent_spec(lines[i]) is Some {
                lemma_parent_components(lines[i]);
            }
        },
        RemovePhaseView::Prune(i, dir) => {
            if parent_spec(dir) is Some {
                lemma_parent_components(dir);
            }
        },
        _ => {},
    }
}

/// After some answers a removal is over or nearer to its end by as many
/// steps as there were answers.
pub proof fn lemma_run_costs_less(lines: Seq<Seq<u8>>, from: RemovePhaseView, answers: Seq<bool>)
    ensures
        run(lines, from, answers) is Finished || cost(lines, run(lines, from, answers))
            + answers.len() <= cost(lines, from),
    decreases answers.len(),
{
    if answers.len() > 0 {
        let before = run(lines, from, answers.drop_last());
        lemma_run_costs_less(lines, from, answers.drop_last());
        if !(before is Finished) {
            lemma_next_costs_less(lines, before, answers.last());
        }
    }
}

/// Every removal comes to an end: after as many answers as the lines of the
/// manifest and the components of their paths allow for, whatever they are,
/// the removal is over.
pub proof fn lemma_removal_ends(manifest: Option<Seq<u8>>, answers: Seq<bool>)
    requires
        answers.len() >= cost(start(manifest).lines, start(manifest).phase),
    ensures
        run(start(manifest).lines, start(manifest).phase, answers) is Finished,
{
    lemma_run_costs_less(start(manifest).lines, start(manifest).phase, answers);
}

/// The removal of a package that has no manifest is over with `NotInstalled`
/// when it begins and stays so: the caller is never asked to do anything.
pub proof fn lemma_not_installed_does_nothing(answers: Seq<bool>)
    ensures
        run(start(None).lines, start(None).phase, answers) == RemovePhaseView::Finished(
            Err(RemoveErrorView::NotInstalled),
        ),
    decreases answers.len(),
{
    if answers.len() > 0 {
        lemma_not_installed_does_nothing(answers.drop_last());
    }
}

} // verus!
