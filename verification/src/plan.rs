//! What an install does to the install tree, worked out from the list of an
//! archive's entries before anything is touched.

use crate::error::{install_outcome, InstallError, InstallErrorView};
use crate::mapper::{map_entry, mapping, target, Mapping, MappingView};
use crate::path::{is_absolute, is_settled};
use vstd::prelude::*;

verus! {

/// An entry of an archive: its path in the archive, and whether it is a
/// directory.
#[derive(Debug, PartialEq, Eq)]
pub struct EntryHeader {
    pub path: Vec<u8>,
    pub is_dir: bool,
}

/// An [`EntryHeader`] over byte sequences.
pub struct EntryHeaderView {
    pub path: Seq<u8>,
    pub is_dir: bool,
}

impl View for EntryHeader {
    type V = EntryHeaderView;

    open spec fn view(&self) -> EntryHeaderView {
        EntryHeaderView { path: self.path@, is_dir: self.is_dir }
    }
}

/// The entries of an archive in the order in which the archive holds them.
/// `intact` is false where reading the archive failed after the entries
/// listed.
#[derive(Debug, PartialEq, Eq)]
pub struct ArchiveListing {
    pub entries: Vec<EntryHeader>,
    pub intact: bool,
}

/// An [`ArchiveListing`] over byte sequences.
pub struct ListingView {
    pub entries: Seq<EntryHeaderView>,
    pub intact: bool,
}

impl View for ArchiveListing {
    type V = ListingView;

    open spec fn view(&self) -> ListingView {
        ListingView {
            entries: Seq::new(self.entries@.len(), |i: int| self.entries@[i]@),
            intact: self.intact,
        }
    }
}

/// One thing to do in the install tree: create the directory `dest`, or
/// write the file of the archive's entry number `entry` to `dest`.
#[derive(Debug, PartialEq, Eq)]
pub struct Step {
    pub entry: usize,
    pub is_dir: bool,
    pub dest: Vec<u8>,
}

/// A [`Step`] over byte sequences.
pub struct StepView {
    pub entry: int,
    pub is_dir: bool,
    pub dest: Seq<u8>,
}

impl View for Step {
    type V = StepView;

    open spec fn view(&self) -> StepView {
        StepView { entry: self.entry as int, is_dir: self.is_dir, dest: self.dest@ }
    }
}

/// The steps of an install in their order, and how the install ends once all
/// of them are done.
#[derive(Debug, PartialEq, Eq)]
pub struct InstallPlan {
    pub steps: Vec<Step>,
    pub end: Result<(), InstallError>,
}

/// An [`InstallPlan`] over byte sequences.
pub struct PlanView {
    pub steps: Seq<StepView>,
    pub end: Result<(), InstallErrorView>,
}

impl View for InstallPlan {
    type V = PlanView;

    open spec fn view(&self) -> PlanView {
        PlanView {
            steps: Seq::new(self.steps@.len(), |i: int| self.steps@[i]@),
            end: install_outcome(self.end),
        }
    }
}

/// The index of the first entry at or after `i` that lies in a category but
/// whose destination could not be resolved; the number of entries if there
/// is none.
pub open spec fn first_unresolved(
    entries: Seq<EntryHeaderView>,
    package: Seq<u8>,
    root: Seq<u8>,
    i: int,
) -> int
    decreases entries.len() - i,
{
    if i < 0 || i >= entries.len() {
        entries.len() as int
    } else if mapping(entries[i].path, package, root) is Unresolved {
        i
    } else {
        first_unresolved(entries, package, root, i + 1)
    }
}

/// The steps that the first `k` entries give: one for each entry that has a
/// destination, in the order of the entries.
pub open spec fn steps_of(
    entries: Seq<EntryHeaderView>,
    package: Seq<u8>,
    root: Seq<u8>,
    k: int,
) -> Seq<StepView>
    decreases k,
{
    if k <= 0 {
        seq![]
    } else {
        let before = steps_of(entries, package, root, k - 1);
        match mapping(entries[k - 1].path, package, root) {
            MappingView::Dest(d) => before.push(
                StepView { entry: k - 1, is_dir: entries[k - 1].is_dir, dest: d },
            ),
            _ => before,
        }
    }
}

/// The error that ends an install at an entry whose destination could not be
/// resolved.
pub open spec fn unresolved_error(is_dir: bool, aim: Seq<u8>) -> InstallErrorView {
    if is_dir {
        InstallErrorView::DirectoryCreateError(aim)
    } else {
        InstallErrorView::ExtractError(aim)
    }
}

/// The plan of an install. Entries outside the categories give no step. The
/// plan stops before the first entry whose destination could not be
/// resolved and ends with an error that names the path it was aimed at;
/// else it ends with `ArchiveFormatError` where the listing is not intact.
pub open spec fn plan_spec(listing: ListingView, package: Seq<u8>, root: Seq<u8>) -> PlanView {
    let halt = first_unresolved(listing.entries, package, root, 0);
    PlanView {
        steps: steps_of(listing.entries, package, root, halt),
        end: if halt < listing.entries.len() {
            match mapping(listing.entries[halt].path, package, root) {
                MappingView::Unresolved(aim) => Err(
                    unresolved_error(listing.entries[halt].is_dir, aim),
                ),
                _ => Ok(()),
            }
        } else if !listing.intact {
            Err(InstallErrorView::ArchiveFormatError)
        } else {
            Ok(())
        },
    }
}

/// The lines that an install writes to the manifest when the first `k` of
/// the steps are done: the destinations of the files, in order.
pub open spec fn recorded(steps: Seq<StepView>, k: int) -> Seq<Seq<u8>>
    decreases k,
{
    if k <= 0 {
        seq![]
    } else if steps[k - 1].is_dir {
        recorded(steps, k - 1)
    } else {
        recorded(steps, k - 1).push(steps[k - 1].dest)
    }
}

/// The number of files among the first `k` entries.
pub open spec fn file_count(entries: Seq<EntryHeaderView>, k: int) -> nat
    decreases k,
{
    if k <= 0 {
        0
    } else if entries[k - 1].is_dir {
        file_count(entries, k - 1)
    } else {
        file_count(entries, k - 1) + 1
    }
}

/// The destinations of the files among the first `k` entries, in the order
/// of the entries; entries without a destination give none.
pub open spec fn file_destinations(
    entries: Seq<EntryHeaderView>,
    package: Seq<u8>,
    root: Seq<u8>,
    k: int,
) -> Seq<Seq<u8>>
    decreases k,
{
    if k <= 0 {
        seq![]
    } else {
        let before = file_destinations(entries, package, root, k - 1);
        match mapping(entries[k - 1].path, package, root) {
            MappingView::Dest(d) => if entries[k - 1].is_dir {
                before
            } else {
                before.push(d)
            },
            _ => before,
        }
    }
}

/// Every step comes from an entry of the archive that has the step's
/// destination and kind, and the steps follow the order of the entries. So
/// an entry outside the categories, which has no destination, has no step.
pub proof fn lemma_steps_from_entries(
    entries: Seq<EntryHeaderView>,
    package: Seq<u8>,
    root: Seq<u8>,
    k: int,
)
    requires
        0 <= k <= entries.len(),
    ensures
        steps_of(entries, package, root, k).len() <= k,
        forall|n: int|
            0 <= n < steps_of(entries, package, root, k).len() ==> {
                let s = #[trigger] steps_of(entries, package, root, k)[n];
                &&& 0 <= s.entry < k
                &&& mapping(entries[s.entry].path, package, root) == MappingView::Dest(s.dest)
                &&& s.is_dir == entries[s.entry].is_dir
            },
        forall|m: int, n: int|
            0 <= m < n < steps_of(entries, package, root, k).len() ==> steps_of(
                entries,
                package,
                root,
                k,
            )[m].entry < steps_of(entries, package, root, k)[n].entry,
    decreases k,
{
    if k > 0 {
        lemma_steps_from_entries(entries, package, root, k - 1);
    }
}

/// Every entry among the first `k` that has a destination has a step.
pub proof fn lemma_steps_cover_entries(
    entries: Seq<EntryHeaderView>,
    package: Seq<u8>,
    root: Seq<u8>,
    k: int,
    i: int,
)
    requires
        0 <= i < k <= entries.len(),
        mapping(entries[i].path, package, root) is Dest,
    ensures
        exists|n: int|
            0 <= n < steps_of(entries, package, root, k).len() && (#[trigger] steps_of(
                entries,
                package,
                root,
                k,
            )[n]).entry == i,
    decreases k,
{
    let steps = steps_of(entries, package, root, k);
    if i == k - 1 {
        assert(steps[steps.len() - 1].entry == i);
    } else {
        lemma_steps_cover_entries(entries, package, root, k - 1, i);
        let before = steps_of(entries, package, root, k - 1);
        let n = choose|n: int| 0 <= n < before.len() && (#[trigger] before[n]).entry == i;
        assert(steps[n].entry == i);
    }
}

/// What is recorded for the first `k` steps depends on those steps alone.
proof fn lemma_recorded_prefix(a: Seq<StepView>, b: Seq<StepView>, k: int)
    requires
        0 <= k <= a.len(),
        k <= b.len(),
        forall|n: int| 0 <= n < k ==> a[n] == b[n],
    ensures
        recorded(a, k) == recorded(b, k),
    decreases k,
{
    if k > 0 {
        lemma_recorded_prefix(a, b, k - 1);
    }
}

/// The manifest of an install holds exactly the destinations of the
/// archive's files that have one, in the order of the archive: nothing is
/// recorded for a directory or for an entry outside the categories.
pub proof fn lemma_recorded_files(
    entries: Seq<EntryHeaderView>,
    package: Seq<u8>,
    root: Seq<u8>,
    k: int,
)
    requires
        0 <= k <= entries.len(),
    ensures
        ({
            let steps = steps_of(entries, package, root, k);
            recorded(steps, steps.len() as int) == file_destinations(entries, package, root, k)
        }),
    decreases k,
{
    if k > 0 {
        lemma_recorded_files(entries, package, root, k - 1);
        let before = steps_of(entries, package, root, k - 1);
        let steps = steps_of(entries, package, root, k);
        if mapping(entries[k - 1].path, package, root) is Dest {
            lemma_recorded_prefix(steps, before, before.len() as int);
        }
    }
}

/// Where every one of the first `k` entries has a destination, each has its
/// step, and as many lines are recorded as there are files among them.
proof fn lemma_all_destined(
    entries: Seq<EntryHeaderView>,
    package: Seq<u8>,
    root: Seq<u8>,
    k: int,
)
    requires
        0 <= k <= entries.len(),
        forall|i: int| 0 <= i < k ==> mapping(#[trigger] entries[i].path, package, root) is Dest,
    ensures
        steps_of(entries, package, root, k).len() == k,
        forall|i: int|
            0 <= i < k ==> (#[trigger] steps_of(entries, package, root, k)[i]).entry == i,
        file_destinations(entries, package, root, k).len() == file_count(entries, k),
        first_unresolved(entries, package, root, 0) >= k,
    decreases k,
{
    lemma_first_unresolved_bounds(entries, package, root, 0);
    if k > 0 {
        lemma_all_destined(entries, package, root, k - 1);
        assert(mapping(entries[k - 1].path, package, root) is Dest);
        lemma_first_unresolved_skips(entries, package, root, 0, k - 1);
    }
}

/// The search for an unresolved entry passes over the entries that are not.
proof fn lemma_first_unresolved_skips(
    entries: Seq<EntryHeaderView>,
    package: Seq<u8>,
    root: Seq<u8>,
    i: int,
    j: int,
)
    requires
        0 <= i <= j < entries.len(),
        first_unresolved(entries, package, root, i) >= j,
        !(mapping(entries[j].path, package, root) is Unresolved),
    ensures
        first_unresolved(entries, package, root, i) >= j + 1,
    decreases j - i,
{
    if i < j {
        if !(mapping(entries[i].path, package, root) is Unresolved) {
            lemma_first_unresolved_skips(entries, package, root, i + 1, j);
        }
    } else {
        lemma_first_unresolved_bounds(entries, package, root, i + 1);
    }
}

/// The search for an unresolved entry ends at or after its start and within
/// the entries.
proof fn lemma_first_unresolved_bounds(
    entries: Seq<EntryHeaderView>,
    package: Seq<u8>,
    root: Seq<u8>,
    i: int,
)
    requires
        0 <= i <= entries.len(),
    ensures
        i <= first_unresolved(entries, package, root, i) <= entries.len(),
    decreases entries.len() - i,
{
    if i < entries.len() && !(mapping(entries[i].path, package, root) is Unresolved) {
        lemma_first_unresolved_bounds(entries, package, root, i + 1);
    }
}

/// Of an intact archive whose entries all have a destination, the plan holds
/// one step for each entry and ends well, and its manifest has as many lines
/// as the archive has files.
pub proof fn lemma_plan_of_categorized_archive(
    listing: ListingView,
    package: Seq<u8>,
    root: Seq<u8>,
)
    requires
        listing.intact,
        forall|i: int|
            0 <= i < listing.entries.len() ==> mapping(
                #[trigger] listing.entries[i].path,
                package,
                root,
            ) is Dest,
    ensures
        ({
            let plan = plan_spec(listing, package, root);
            &&& plan.end is Ok
            &&& plan.steps.len() == listing.entries.len()
            &&& recorded(plan.steps, plan.steps.len() as int).len() == file_count(
                listing.entries,
                listing.entries.len() as int,
            )
        }),
{
    let n = listing.entries.len() as int;
    lemma_all_destined(listing.entries, package, root, n);
    lemma_first_unresolved_bounds(listing.entries, package, root, 0);
    lemma_recorded_files(listing.entries, package, root, n);
}

/// An entry outside the categories has no step in the plan, and every line
/// of the plan's manifest is the destination of a file of the archive that
/// lies in a category.
pub proof fn lemma_plan_leaves_out_uncategorized(
    listing: ListingView,
    package: Seq<u8>,
    root: Seq<u8>,
)
    ensures
        ({
            let plan = plan_spec(listing, package, root);
            &&& forall|n: int|
                0 <= n < plan.steps.len() ==> {
                    let s = #[trigger] plan.steps[n];
                    &&& 0 <= s.entry < listing.entries.len()
                    &&& target(listing.entries[s.entry].path, package, root) is Some
                    &&& mapping(listing.entries[s.entry].path, package, root) == MappingView::Dest(
                        s.dest,
                    )
                }
            &&& recorded(plan.steps, plan.steps.len() as int) == file_destinations(
                listing.entries,
                package,
                root,
                first_unresolved(listing.entries, package, root, 0),
            )
        }),
{
    lemma_first_unresolved_bounds(listing.entries, package, root, 0);
    let halt = first_unresolved(listing.entries, package, root, 0);
    lemma_steps_from_entries(listing.entries, package, root, halt);
    lemma_recorded_files(listing.entries, package, root, halt);
}

/// Whether a step has a destination that begins at the root and that is,
/// where the step's entry is aimed at a settled path, that very path.
pub open spec fn lands(listing: ListingView, package: Seq<u8>, root: Seq<u8>, step: StepView) -> bool {
    let aim = target(listing.entries[step.entry].path, package, root);
    &&& is_absolute(step.dest)
    &&& aim is Some && is_settled(aim->0) ==> step.dest == aim->0
}

/// Works out the plan of an install from the entries of the archive. Each
/// destination in the plan begins at the root; under a settled install root
/// each entry whose path holds no `..` goes to the root followed by its
/// path, the package's own directory left out.
pub fn plan_install(listing: &ArchiveListing, package: &[u8], root: &[u8]) -> (plan: InstallPlan)
    ensures
        plan@ == plan_spec(listing@, package@, root@),
        forall|n: int| 0 <= n < plan@.steps.len() ==> lands(listing@, package@, root@, #[trigger] plan@.steps[n]),
{
    let ghost entries = listing@.entries;
    let mut steps: Vec<Step> = Vec::new();
    let mut i: usize = 0;
    while i < listing.entries.len()
        invariant
            i <= listing.entries.len(),
            entries == listing@.entries,
            entries.len() == listing.entries.len(),
            first_unresolved(entries, package@, root@, 0) == first_unresolved(
                entries,
                package@,
                root@,
                i as int,
            ),
            Seq::new(steps@.len(), |n: int| steps@[n]@) == steps_of(
                entries,
                package@,
                root@,
                i as int,
            ),
            forall|n: int|
                0 <= n < steps@.len() ==> lands(listing@, package@, root@, (#[trigger] steps@[n])@),
        decreases listing.entries.len() - i,
    {
        let entry = &listing.entries[i];
        assert(entries[i as int] == entry@);
        let ghost before = Seq::new(steps@.len(), |n: int| steps@[n]@);
        match map_entry(entry.path.as_slice(), package, root) {
            Mapping::Skip => {},
            Mapping::Dest(dest) => {
                let step = Step { entry: i, is_dir: entry.is_dir, dest };
                steps.push(step);
                assert(Seq::new(steps@.len(), |n: int| steps@[n]@) =~= before.push(step@));
            },
            Mapping::Unresolved(aim) => {
                let end = if entry.is_dir {
                    Err(InstallError::DirectoryCreateError(aim))
                } else {
                    Err(InstallError::ExtractError(aim))
                };
                return InstallPlan { steps, end };
            },
        }
        i += 1;
    }
    let end = if listing.intact {
        Ok(())
    } else {
        Err(InstallError::ArchiveFormatError)
    };
    InstallPlan { steps, end }
}

} // verus!
