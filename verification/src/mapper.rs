//! Where an archive entry goes in the install tree.

use crate::absolute::{absolutize, absolutized};
use crate::bytes::{same_bytes, views};
use crate::category::{is_category_name, lemma_category_named, lemma_name_is_plain, Category};
use crate::path::{
    components, dot_part, dotdot_part, is_absolute, is_plain_part, is_settled, join, join_spec,
    lemma_components_shape, lemma_components_tidy, lemma_join_settled, lemma_rendered_head,
    render_range, render_spec, split, starts_at_root,
};
use vstd::prelude::*;

verus! {

/// What becomes of an archive entry.
#[derive(Debug, PartialEq, Eq)]
pub enum Mapping {
    /// The entry lies outside the five categories and is left out.
    Skip,
    /// The entry goes to this absolute path.
    Dest(Vec<u8>),
    /// The entry lies in a category, but the dots of this path, where it
    /// would go, could not be resolved.
    Unresolved(Vec<u8>),
}

/// A [`Mapping`] over byte sequences.
pub enum MappingView {
    Skip,
    Dest(Seq<u8>),
    Unresolved(Seq<u8>),
}

impl View for Mapping {
    type V = MappingView;

    open spec fn view(&self) -> MappingView {
        match self {
            Mapping::Skip => MappingView::Skip,
            Mapping::Dest(d) => MappingView::Dest(d@),
            Mapping::Unresolved(t) => MappingView::Unresolved(t@),
        }
    }
}

/// The components of an entry's path without the package's own directory:
/// the first component is dropped where it is the package name.
pub open spec fn stripped(entry: Seq<u8>, package: Seq<u8>) -> Seq<Seq<u8>> {
    let parts = components(entry);
    if parts.len() > 0 && parts[0] == package {
        parts.skip(1)
    } else {
        parts
    }
}

/// The path under the install root that an entry is aimed at, before its
/// dots are resolved; `None` where the entry is outside the categories.
pub open spec fn target(entry: Seq<u8>, package: Seq<u8>, root: Seq<u8>) -> Option<Seq<u8>> {
    let rest = stripped(entry, package);
    if rest.len() > 0 && is_category_name(rest[0]) {
        Some(join_spec(root, render_spec(rest)))
    } else {
        None
    }
}

/// What becomes of an entry. An entry in a category goes to the path it
/// is aimed at, with the dots of that path resolved. Where they cannot be
/// resolved, because the install root does not begin at the root or the
/// path is not text, the entry is left unresolved.
pub open spec fn mapping(entry: Seq<u8>, package: Seq<u8>, root: Seq<u8>) -> MappingView {
    match target(entry, package, root) {
        None => MappingView::Skip,
        Some(t) => if is_absolute(t) {
            match absolutized(t) {
                Some(d) => MappingView::Dest(d),
                None => MappingView::Unresolved(t),
            }
        } else {
            MappingView::Unresolved(t)
        },
    }
}

/// The path that an entry is aimed at begins at the root exactly when the
/// install root does.
pub proof fn lemma_target_absolute(entry: Seq<u8>, package: Seq<u8>, root: Seq<u8>)
    ensures
        target(entry, package, root) matches Some(t) ==> is_absolute(t) == is_absolute(root),
{
    let rest = stripped(entry, package);
    if rest.len() > 0 && is_category_name(rest[0]) {
        lemma_components_shape(entry);
        lemma_category_named(rest[0]);
        let parts = components(entry);
        assert forall|n: int| 1 <= n < rest.len() implies is_plain_part(#[trigger] rest[n]) by {
            if parts.len() > 0 && parts[0] == package {
                assert(rest[n] == parts[n + 1]);
            }
        }
        assert(rest[0].len() > 0 && rest[0][0] != crate::path::SEP) by {
            let c = choose|c: Category| rest[0] == c.name_bytes();
            lemma_name_is_plain(c);
        }
        lemma_rendered_head(rest, rest.len() as int);
    }
}

/// Whether the path of an entry, without the package's own directory, holds
/// no `..`.
pub open spec fn is_plain_entry(entry: Seq<u8>, package: Seq<u8>) -> bool {
    forall|n: int|
        0 <= n < stripped(entry, package).len() ==> #[trigger] stripped(entry, package)[n]
            != dotdot_part()
}

/// Under a settled install root, an entry in a category whose path holds no
/// `..` is aimed at a settled path: the components of the root followed by
/// those of the entry, the package's own directory left out. So the path
/// lies under the root, in the directory of the entry's category.
pub proof fn lemma_target_settled(entry: Seq<u8>, package: Seq<u8>, root: Seq<u8>)
    requires
        is_settled(root),
        is_plain_entry(entry, package),
    ensures
        target(entry, package, root) matches Some(t) ==> is_settled(t) && components(t)
            == components(root) + stripped(entry, package),
{
    let rest = stripped(entry, package);
    if rest.len() > 0 && is_category_name(rest[0]) {
        lemma_components_shape(entry);
        lemma_components_tidy(entry);
        lemma_category_named(rest[0]);
        let parts = components(entry);
        let c = choose|c: Category| rest[0] == c.name_bytes();
        lemma_name_is_plain(c);
        assert(rest[0] != dot_part()) by {
            if rest[0] == dot_part() {
                assert(rest[0][0] == crate::path::DOT);
            }
        }
        assert forall|n: int| 0 <= n < rest.len() implies is_plain_part(#[trigger] rest[n])
            && rest[n] != dot_part() && rest[n] != dotdot_part() by {
            if n > 0 {
                if parts.len() > 0 && parts[0] == package {
                    assert(rest[n] == parts[n + 1]);
                } else {
                    assert(rest[n] == parts[n]);
                }
            }
        }
        lemma_join_settled(root, rest, rest.len() as int);
        assert(rest.take(rest.len() as int) =~= rest);
    }
}

/// Finds where an archive entry goes: the package's own top directory is
/// taken off its path, what is left has to begin with a category, and the
/// rest is put under the install root and its dots resolved. Where the path
/// so aimed at is settled, the entry goes to that very path.
pub fn map_entry(entry: &[u8], package: &[u8], root: &[u8]) -> (m: Mapping)
    ensures
        m@ == mapping(entry@, package@, root@),
        m matches Mapping::Dest(d) ==> is_absolute(d@) && (is_settled(
            target(entry@, package@, root@)->0,
        ) ==> d@ == target(entry@, package@, root@)->0),
{
    let parts = split(entry);
    let start: usize = if parts.len() > 0 && same_bytes(parts[0].as_slice(), package) {
        1
    } else {
        0
    };
    proof {
        assert(views(parts@).subrange(start as int, parts.len() as int) =~= stripped(
            entry@,
            package@,
        ));
    }
    if start == parts.len() {
        return Mapping::Skip;
    }
    assert(stripped(entry@, package@)[0] == parts@[start as int]@);
    if Category::from_name(parts[start].as_slice()).is_none() {
        return Mapping::Skip;
    }
    let rest = render_range(&parts, start, parts.len());
    let aim = join(root, rest.as_slice());
    if !starts_at_root(aim.as_slice()) {
        return Mapping::Unresolved(aim);
    }
    match absolutize(aim.as_slice()) {
        Some(dest) => Mapping::Dest(dest),
        None => Mapping::Unresolved(aim),
    }
}

} // verus!
