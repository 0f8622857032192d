//! The install of a package, as a sequence of requests to whoever holds the
//! filesystem.
//!
//! An [`Installer`] names one thing to do at a time. The caller does it and
//! reports with [`Installer::advance`] how it went; the installer then names
//! the next, until it names the end of the install.
//!
//! Nothing is created before it is known that the package has no manifest
//! and that its manifest can be created. An install that fails later is not
//! undone: the files written so far stay, and so does the manifest with
//! their paths.

use crate::bytes::copy_bytes;
use crate::error::{install_outcome, InstallError, InstallErrorView};
use crate::package::{package_name, package_name_spec};
use crate::plan::{plan_install, plan_spec, ArchiveListing, InstallPlan, ListingView, PlanView};
use vstd::prelude::*;

verus! {

/// How far an install has come.
#[derive(Debug, PartialEq, Eq)]
pub enum InstallPhase {
    /// The directory of the manifests is to be there.
    PackagesDir,
    /// It is to be found out whether the package has a manifest.
    ManifestCheck,
    /// The manifest is to be created.
    ManifestCreate,
    /// The step of the plan with this number is to be done.
    Step(usize),
    /// The install is over.
    Finished(Result<(), InstallError>),
}

/// An [`InstallPhase`] over byte sequences.
pub enum PhaseView {
    PackagesDir,
    ManifestCheck,
    ManifestCreate,
    Step(int),
    Finished(Result<(), InstallErrorView>),
}

impl View for InstallPhase {
    type V = PhaseView;

    open spec fn view(&self) -> PhaseView {
        match self {
            InstallPhase::PackagesDir => PhaseView::PackagesDir,
            InstallPhase::ManifestCheck => PhaseView::ManifestCheck,
            InstallPhase::ManifestCreate => PhaseView::ManifestCreate,
            InstallPhase::Step(i) => PhaseView::Step(*i as int),
            InstallPhase::Finished(r) => PhaseView::Finished(install_outcome(*r)),
        }
    }
}

/// What the caller of an install is asked to do next.
#[derive(Debug, PartialEq, Eq)]
pub enum InstallAction {
    /// Create the directory of the manifests unless it is there. Answer
    /// whether it is there now.
    EnsurePackagesDir,
    /// Answer whether a manifest of the package exists.
    CheckManifest,
    /// Create the package's manifest, empty. Answer whether that was done.
    CreateManifest,
    /// Create the directory `dest` and the directories above it that are
    /// missing. Answer whether that was done.
    MakeDir { dest: Vec<u8> },
    /// Append `dest` to the manifest as a line, then write the file of the
    /// archive's entry `entry` to `dest`. Answer whether the file was written.
    Extract { entry: usize, dest: Vec<u8> },
    /// Nothing more: the install has ended so.
    Finish(Result<(), InstallError>),
}

/// An [`InstallAction`] over byte sequences.
pub enum ActionView {
    EnsurePackagesDir,
    CheckManifest,
    CreateManifest,
    MakeDir { dest: Seq<u8> },
    Extract { entry: int, dest: Seq<u8> },
    Finish(Result<(), InstallErrorView>),
}

impl View for InstallAction {
    type V = ActionView;

    open spec fn view(&self) -> ActionView {
        match self {
            InstallAction::EnsurePackagesDir => ActionView::EnsurePackagesDir,
            InstallAction::CheckManifest => ActionView::CheckManifest,
            InstallAction::CreateManifest => ActionView::CreateManifest,
            InstallAction::MakeDir { dest } => ActionView::MakeDir { dest: dest@ },
            InstallAction::Extract { entry, dest } => ActionView::Extract {
                entry: *entry as int,
                dest: dest@,
            },
            InstallAction::Finish(r) => ActionView::Finish(install_outcome(*r)),
        }
    }
}

/// The phase in which step `i` of the plan is next: the end of the install,
/// as the plan has it, once the steps are used up.
pub open spec fn phase_at(plan: PlanView, i: int) -> PhaseView {
    if 0 <= i < plan.steps.len() {
        PhaseView::Step(i)
    } else {
        PhaseView::Finished(plan.end)
    }
}

/// The phase that follows `phase` when the caller answers `answer`.
///
/// The install ends with `ManifestDirCreateError` where the directory of the
/// manifests is not there, with `AlreadyInstalled` where the manifest exists,
/// with `ManifestCreateError` where it could not be created, and with
/// `DirectoryCreateError` or `ExtractError` at the first step that failed,
/// naming the step's destination. After the last step it ends as the plan
/// says.
pub open spec fn next_phase(plan: PlanView, phase: PhaseView, answer: bool) -> PhaseView {
    match phase {
        PhaseView::PackagesDir => if answer {
            PhaseView::ManifestCheck
        } else {
            PhaseView::Finished(Err(InstallErrorView::ManifestDirCreateError))
        },
        PhaseView::ManifestCheck => if answer {
            PhaseView::Finished(Err(InstallErrorView::AlreadyInstalled))
        } else {
            PhaseView::ManifestCreate
        },
        PhaseView::ManifestCreate => if answer {
            phase_at(plan, 0)
        } else {
            PhaseView::Finished(Err(InstallErrorView::ManifestCreateError))
        },
        PhaseView::Step(i) => if answer {
            phase_at(plan, i + 1)
        } else if plan.steps[i].is_dir {
            PhaseView::Finished(Err(InstallErrorView::DirectoryCreateError(plan.steps[i].dest)))
        } else {
            PhaseView::Finished(Err(InstallErrorView::ExtractError(plan.steps[i].dest)))
        },
        PhaseView::Finished(r) => PhaseView::Finished(r),
    }
}

/// What the caller is asked to do in a phase.
pub open spec fn action_of(plan: PlanView, phase: PhaseView) -> ActionView {
    match phase {
        PhaseView::PackagesDir => ActionView::EnsurePackagesDir,
        PhaseView::ManifestCheck => ActionView::CheckManifest,
        PhaseView::ManifestCreate => ActionView::CreateManifest,
        PhaseView::Step(i) => if plan.steps[i].is_dir {
            ActionView::MakeDir { dest: plan.steps[i].dest }
        } else {
            ActionView::Extract { entry: plan.steps[i].entry, dest: plan.steps[i].dest }
        },
        PhaseView::Finished(r) => ActionView::Finish(r),
    }
}

/// The phase that an install is in after the caller's answers, given in
/// their order, when it began in the phase `from`.
pub open spec fn run(plan: PlanView, from: PhaseView, answers: Seq<bool>) -> PhaseView
    decreases answers.len(),
{
    if answers.len() == 0 {
        from
    } else {
        next_phase(plan, run(plan, from, answers.drop_last()), answers.last())
    }
}

/// Whether what is asked for in a phase creates the manifest or anything in
/// the install tree.
pub open spec fn writes(phase: PhaseView) -> bool {
    phase is ManifestCreate || phase is Step
}

/// The answers of a caller for whom everything goes well, up to and with
/// `n` steps of the plan: the directory of the manifests is there, the
/// package has no manifest, the manifest is created, and each step is done.
pub open spec fn unhindered(n: int) -> Seq<bool> {
    seq![true, false, true] + Seq::new(n as nat, |i: int| true)
}

/// An install that is over stays as it is, whatever is answered.
pub proof fn lemma_finished_stays(
    plan: PlanView,
    r: Result<(), InstallErrorView>,
    answers: Seq<bool>,
)
    ensures
        run(plan, PhaseView::Finished(r), answers) == PhaseView::Finished(r),
    decreases answers.len(),
{
    if answers.len() > 0 {
        lemma_finished_stays(plan, r, answers.drop_last());
    }
}

/// The install of a package that has a manifest already ends with
/// `AlreadyInstalled`, and at no time before or after is the caller asked to
/// create the manifest or anything in the install tree. The directory of the
/// manifests, which is asked for first, is there where a manifest is.
pub proof fn lemma_existing_manifest_ends_install(plan: PlanView, answers: Seq<bool>, k: int)
    requires
        answers.len() >= 2,
        answers[0],
        answers[1],
        0 <= k <= answers.len(),
    ensures
        !writes(run(plan, PhaseView::PackagesDir, answers.take(k))),
        k == 1 ==> run(plan, PhaseView::PackagesDir, answers.take(k)) == PhaseView::ManifestCheck,
        k >= 2 ==> run(plan, PhaseView::PackagesDir, answers.take(k)) == PhaseView::Finished(
            Err(InstallErrorView::AlreadyInstalled),
        ),
    decreases k,
{
    let prefix = answers.take(k);
    if k > 0 {
        assert(prefix.drop_last() =~= answers.take(k - 1));
        assert(prefix.last() == answers[k - 1]);
        lemma_existing_manifest_ends_install(plan, answers, k - 1);
    }
}

/// When everything goes well, the steps of the plan are asked for one after
/// the other, each once the steps before it are done, and after the last the
/// install ends as the plan says.
pub proof fn lemma_unhindered_install(plan: PlanView, k: int)
    requires
        0 <= k <= plan.steps.len(),
    ensures
        run(plan, PhaseView::PackagesDir, unhindered(k)) == phase_at(plan, k),
    decreases k,
{
    let answers = unhindered(k);
    if k == 0 {
        let a1 = answers.drop_last();
        let a2 = a1.drop_last();
        let a3 = a2.drop_last();
        assert(a3.len() == 0);
        assert(a2.last() && !a1.last() && answers.last());
        assert(run(plan, PhaseView::PackagesDir, a3) == PhaseView::PackagesDir);
        assert(run(plan, PhaseView::PackagesDir, a2) == PhaseView::ManifestCheck);
        assert(run(plan, PhaseView::PackagesDir, a1) == PhaseView::ManifestCreate);
    } else {
        assert(answers.drop_last() =~= unhindered(k - 1));
        lemma_unhindered_install(plan, k - 1);
    }
}

/// How many answers an install takes at most from a phase on.
pub open spec fn cost(plan: PlanView, phase: PhaseView) -> nat {
    match phase {
        PhaseView::PackagesDir => plan.steps.len() + 3,
        PhaseView::ManifestCheck => plan.steps.len() + 2,
        PhaseView::ManifestCreate => plan.steps.len() + 1,
        PhaseView::Step(i) => if i < 0 {
            plan.steps.len() + 1
        } else if i < plan.steps.len() {
            (plan.steps.len() - i) as nat
        } else {
            1
        },
        PhaseView::Finished(_) => 0,
    }
}

/// After some answers an install is over or nearer to its end by as many
/// steps as there were answers.
pub proof fn lemma_run_costs_less(plan: PlanView, from: PhaseView, answers: Seq<bool>)
    ensures
        run(plan, from, answers) is Finished || cost(plan, run(plan, from, answers))
            + answers.len() <= cost(plan, from),
    decreases answers.len(),
{
    if answers.len() > 0 {
        lemma_run_costs_less(plan, from, answers.drop_last());
    }
}

/// Every install comes to an end: after three answers and one for each step
/// of the plan, whatever they are, the install is over.
pub proof fn lemma_install_ends(plan: PlanView, answers: Seq<bool>)
    requires
        answers.len() >= plan.steps.len() + 3,
    ensures
        run(plan, PhaseView::PackagesDir, answers) is Finished,
{
    lemma_run_costs_less(plan, PhaseView::PackagesDir, answers);
}

/// The install of an intact archive whose entries all have a destination,
/// when everything goes well, does one step for each entry and ends well,
/// and the manifest then has as many lines as the archive has files.
pub proof fn lemma_install_records_every_file(
    archive_path: Seq<u8>,
    listing: ListingView,
    root: Seq<u8>,
)
    requires
        package_name_spec(archive_path) is Some,
        listing.intact,
        forall|i: int|
            0 <= i < listing.entries.len() ==> crate::mapper::mapping(
                #[trigger] listing.entries[i].path,
                package_name_spec(archive_path)->0,
                root,
            ) is Dest,
    ensures
        ({
            let m = start(archive_path, Some(listing), root);
            let n = listing.entries.len() as int;
            &&& m.plan.steps.len() == n
            &&& run(m.plan, m.phase, unhindered(n)) == PhaseView::Finished(Ok(()))
            &&& crate::plan::recorded(m.plan.steps, n).len() == crate::plan::file_count(
                listing.entries,
                n,
            )
        }),
{
    let m = start(archive_path, Some(listing), root);
    crate::plan::lemma_plan_of_categorized_archive(listing, m.package, root);
    lemma_unhindered_install(m.plan, listing.entries.len() as int);
}

/// The state of an install: the package, the plan and the phase.
pub struct InstallerView {
    pub package: Seq<u8>,
    pub plan: PlanView,
    pub phase: PhaseView,
}

/// The state in which an install begins. Without a listing the archive could
/// not be opened, and the install is over with `ArchiveOpenError`; with an
/// archive whose name gives no package name it is over with
/// `InvalidArchiveName`. Else the plan is made and the directory of the
/// manifests comes first.
pub open spec fn start(archive_path: Seq<u8>, listing: Option<ListingView>, root: Seq<u8>)
    -> InstallerView {
    let nothing = PlanView { steps: seq![], end: Ok(()) };
    match listing {
        None => InstallerView {
            package: seq![],
            plan: nothing,
            phase: PhaseView::Finished(Err(InstallErrorView::ArchiveOpenError)),
        },
        Some(l) => match package_name_spec(archive_path) {
            None => InstallerView {
                package: seq![],
                plan: nothing,
                phase: PhaseView::Finished(Err(InstallErrorView::InvalidArchiveName)),
            },
            Some(name) => InstallerView {
                package: name,
                plan: plan_spec(l, name, root),
                phase: PhaseView::PackagesDir,
            },
        },
    }
}

/// The view of an optional listing.
pub open spec fn listing_view(listing: Option<&ArchiveListing>) -> Option<ListingView> {
    match listing {
        Some(l) => Some(l@),
        None => None,
    }
}

/// An install in progress.
pub struct Installer {
    package: Vec<u8>,
    plan: InstallPlan,
    phase: InstallPhase,
}

impl View for Installer {
    type V = InstallerView;

    closed spec fn view(&self) -> InstallerView {
        InstallerView { package: self.package@, plan: self.plan@, phase: self.phase@ }
    }
}

impl Installer {
    #[verifier::type_invariant]
    spec fn well_formed(self) -> bool {
        self.phase matches InstallPhase::Step(i) ==> i < self.plan.steps.len()
    }

    /// Begins the install of the archive at `archive_path` under the install
    /// root `root`. `listing` holds the archive's entries, or is `None` where
    /// the archive could not be opened.
    pub fn begin(archive_path: &[u8], listing: Option<&ArchiveListing>, root: &[u8]) -> (m:
        Installer)
        ensures
            m@ == start(archive_path@, listing_view(listing), root@),
    {
        let nothing = InstallPlan { steps: Vec::new(), end: Ok(()) };
        assert(nothing@.steps =~= Seq::empty());
        match listing {
            None => Installer {
                package: Vec::new(),
                plan: nothing,
                phase: InstallPhase::Finished(Err(InstallError::ArchiveOpenError)),
            },
            Some(l) => match package_name(archive_path) {
                Err(e) => Installer {
                    package: Vec::new(),
                    plan: nothing,
                    phase: InstallPhase::Finished(Err(e)),
                },
                Ok(name) => {
                    let plan = plan_install(l, name.as_slice(), root);
                    Installer { package: name, plan, phase: InstallPhase::PackagesDir }
                },
            },
        }
    }

    /// The name of the package that is installed; empty where the install
    /// was over when it began.
    pub fn package(&self) -> (name: Vec<u8>)
        ensures
            name@ == self@.package,
    {
        copy_bytes(self.package.as_slice())
    }

    /// Whether the install is over.
    pub fn is_finished(&self) -> (r: bool)
        ensures
            r == (self@.phase is Finished),
    {
        match self.phase {
            InstallPhase::Finished(_) => true,
            _ => false,
        }
    }

    /// What the caller is to do next.
    pub fn pending(&self) -> (action: InstallAction)
        ensures
            action@ == action_of(self@.plan, self@.phase),
    {
        proof {
            use_type_invariant(self);
        }
        match &self.phase {
            InstallPhase::PackagesDir => InstallAction::EnsurePackagesDir,
            InstallPhase::ManifestCheck => InstallAction::CheckManifest,
            InstallPhase::ManifestCreate => InstallAction::CreateManifest,
            InstallPhase::Step(i) => {
                let step = &self.plan.steps[*i];
                assert(self.plan@.steps[*i as int] == step@);
                let dest = copy_bytes(step.dest.as_slice());
                if step.is_dir {
                    InstallAction::MakeDir { dest }
                } else {
                    InstallAction::Extract { entry: step.entry, dest }
                }
            },
            InstallPhase::Finished(r) => InstallAction::Finish(
                match r {
                    Ok(_) => Ok(()),
                    Err(e) => Err(e.duplicate()),
                },
            ),
        }
    }

    /// Takes the caller's answer to what was pending and moves on.
    pub fn advance(self, answer: bool) -> (m: Installer)
        ensures
            m@ == (InstallerView {
                phase: next_phase(self@.plan, self@.phase, answer),
                ..self@
            }),
    {
        proof {
            use_type_invariant(&self);
        }
        let Installer { package, plan, phase } = self;
        let next = match phase {
            InstallPhase::PackagesDir => if answer {
                InstallPhase::ManifestCheck
            } else {
                InstallPhase::Finished(Err(InstallError::ManifestDirCreateError))
            },
            InstallPhase::ManifestCheck => if answer {
                InstallPhase::Finished(Err(InstallError::AlreadyInstalled))
            } else {
                InstallPhase::ManifestCreate
            },
            InstallPhase::ManifestCreate => if answer {
                Self::phase_from(&plan, 0)
            } else {
                InstallPhase::Finished(Err(InstallError::ManifestCreateError))
            },
            InstallPhase::Step(i) => {
                let step = &plan.steps[i];
                assert(plan@.steps[i as int] == step@);
                if answer {
                    Self::phase_from(&plan, i + 1)
                } else if step.is_dir {
                    InstallPhase::Finished(
                        Err(InstallError::DirectoryCreateError(copy_bytes(step.dest.as_slice()))),
                    )
                } else {
                    InstallPhase::Finished(
                        Err(InstallError::ExtractError(copy_bytes(step.dest.as_slice()))),
                    )
                }
            },
            InstallPhase::Finished(r) => InstallPhase::Finished(r),
        };
        Installer { package, plan, phase: next }
    }

    /// The phase in which step `i` of the plan is next.
    fn phase_from(plan: &InstallPlan, i: usize) -> (phase: InstallPhase)
        ensures
            phase@ == phase_at(plan@, i as int),
            phase matches InstallPhase::Step(k) ==> k < plan.steps.len(),
    {
        if i < plan.steps.len() {
            InstallPhase::Step(i)
        } else {
            InstallPhase::Finished(
                match &plan.end {
                    Ok(_) => Ok(()),
                    Err(e) => Err(e.duplicate()),
                },
            )
        }
    }
}

} // verus!
