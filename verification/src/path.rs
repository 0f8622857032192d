//! Paths as byte strings.
//!
//! A path is read as a sequence of components separated by `/`. A leading `/`
//! is the root component; empty components and `.` are dropped, except a `.`
//! that begins a relative path; `..` is kept as it stands.

use crate::bytes::{
    copy_range, find_byte, lemma_span_end, lemma_span_end_extends, lemma_views_push, opt_view,
    span_end, views,
};
use vstd::prelude::*;

verus! {

/// The byte that separates components.
pub const SEP: u8 = 0x2f;

/// The byte of which the components `.` and `..` are made.
pub const DOT: u8 = 0x2e;

/// The root component.
pub open spec fn root_part() -> Seq<u8> {
    seq![SEP]
}

/// The component `.`.
pub open spec fn dot_part() -> Seq<u8> {
    seq![DOT]
}

/// The component `..`.
pub open spec fn dotdot_part() -> Seq<u8> {
    seq![DOT, DOT]
}

/// Whether the path begins at the root.
pub open spec fn is_absolute(p: Seq<u8>) -> bool {
    p.len() > 0 && p[0] == SEP
}

/// The components of `p` that begin at or after index `i`, the root excluded.
pub open spec fn components_from(p: Seq<u8>, i: int) -> Seq<Seq<u8>>
    decreases p.len() - i,
{
    if i < 0 || i >= p.len() {
        seq![]
    } else if p[i] == SEP {
        components_from(p, i + 1)
    } else {
        let j = span_end(p, i, SEP);
        let part = p.subrange(i, j);
        if j <= i || j > p.len() {
            seq![]
        } else if part == dot_part() && i != 0 {
            components_from(p, j)
        } else {
            seq![part] + components_from(p, j)
        }
    }
}

/// The components of a path.
pub open spec fn components(p: Seq<u8>) -> Seq<Seq<u8>> {
    if is_absolute(p) {
        seq![root_part()] + components_from(p, 0)
    } else {
        components_from(p, 0)
    }
}

/// `rel` appended to the directory `base`: an absolute `rel` replaces `base`,
/// and a separator is put between the two unless `base` is empty or ends
/// with one.
pub open spec fn join_spec(base: Seq<u8>, rel: Seq<u8>) -> Seq<u8> {
    if is_absolute(rel) || base.len() == 0 {
        rel
    } else if base.last() == SEP {
        base + rel
    } else {
        base + seq![SEP] + rel
    }
}

/// The path made of the first `k` of the given components.
pub open spec fn rendered(parts: Seq<Seq<u8>>, k: int) -> Seq<u8>
    decreases k,
{
    if k <= 0 {
        seq![]
    } else {
        join_spec(rendered(parts, k - 1), parts[k - 1])
    }
}

/// The path made of the given components.
pub open spec fn render_spec(parts: Seq<Seq<u8>>) -> Seq<u8> {
    rendered(parts, parts.len() as int)
}

/// Whether a component names an entry of a directory: it is neither the
/// root, nor `.`, nor `..`.
pub open spec fn is_normal(part: Seq<u8>) -> bool {
    part != root_part() && part != dot_part() && part != dotdot_part()
}

/// The path without its last component; `None` for the empty path and for
/// the root.
pub open spec fn parent_spec(p: Seq<u8>) -> Option<Seq<u8>> {
    let parts = components(p);
    if parts.len() == 0 || parts.last() == root_part() {
        None
    } else {
        Some(render_spec(parts.drop_last()))
    }
}

/// The last component of the path, where it names an entry of a directory.
pub open spec fn file_name_spec(p: Seq<u8>) -> Option<Seq<u8>> {
    let parts = components(p);
    if parts.len() > 0 && is_normal(parts.last()) {
        Some(parts.last())
    } else {
        None
    }
}

/// Whether a path begins at the root and is written in the plainest way:
/// with one separator between its components, none at its end, and without
/// `.` and `..`.
pub open spec fn is_settled(p: Seq<u8>) -> bool {
    &&& is_absolute(p)
    &&& render_spec(components(p)) == p
    &&& forall|n: int| 0 <= n < components(p).len() ==> #[trigger] components(p)[n] != dotdot_part()
}

/// A component other than the root is not empty and holds no separator.
pub open spec fn is_plain_part(part: Seq<u8>) -> bool {
    part.len() > 0 && forall|k: int| 0 <= k < part.len() ==> part[k] != SEP
}

/// Every component found after the root is not empty and holds no separator.
proof fn lemma_components_from_plain(p: Seq<u8>, i: int)
    requires
        0 <= i,
    ensures
        forall|n: int|
            0 <= n < components_from(p, i).len() ==> is_plain_part(
                #[trigger] components_from(p, i)[n],
            ),
    decreases p.len() - i,
{
    if i < p.len() {
        if p[i] == SEP {
            lemma_components_from_plain(p, i + 1);
            assert(components_from(p, i) == components_from(p, i + 1));
        } else {
            let j = span_end(p, i, SEP);
            lemma_span_end(p, i, SEP);
            lemma_span_end(p, i + 1, SEP);
            assert(i < j <= p.len());
            lemma_components_from_plain(p, j);
            let part = p.subrange(i, j);
            let rest = components_from(p, j);
            assert(is_plain_part(part));
            assert forall|n: int| 0 <= n < components_from(p, i).len() implies is_plain_part(
                #[trigger] components_from(p, i)[n],
            ) by {
                if !(part == dot_part() && i != 0) {
                    if n > 0 {
                        assert(components_from(p, i)[n] == rest[n - 1]);
                    }
                }
            }
        }
    } else {
        assert(components_from(p, i).len() == 0);
        assert forall|n: int| 0 <= n < components_from(p, i).len() implies is_plain_part(
            #[trigger] components_from(p, i)[n],
        ) by {
        }
    }
}

/// The components of a path are the root, if the path begins there, and
/// after it components that are not empty and hold no separator.
pub proof fn lemma_components_shape(p: Seq<u8>)
    ensures
        forall|n: int|
            0 <= n < components(p).len() ==> (#[trigger] components(p)[n]).len() > 0,
        forall|n: int|
            0 <= n < components(p).len() && !(n == 0 && is_absolute(p)) ==> is_plain_part(
                #[trigger] components(p)[n],
            ),
        is_absolute(p) ==> components(p).len() > 0 && components(p)[0] == root_part(),
{
    lemma_components_from_plain(p, 0);
}

/// A path made of components begins as its first component does, where the
/// later components hold no separator.
pub proof fn lemma_rendered_head(parts: Seq<Seq<u8>>, k: int)
    requires
        1 <= k <= parts.len(),
        parts[0].len() > 0,
        forall|n: int| 1 <= n < parts.len() ==> is_plain_part(#[trigger] parts[n]),
    ensures
        rendered(parts, k).len() > 0,
        rendered(parts, k)[0] == parts[0][0],
    decreases k,
{
    if k == 1 {
        assert(rendered(parts, 0) =~= Seq::<u8>::empty());
    } else {
        lemma_rendered_head(parts, k - 1);
        assert(is_plain_part(parts[k - 1]));
    }
}

/// Whether a sequence of components is one that a path splits into: the
/// root stands first if at all, `.` stands first if at all, and every other
/// component is not empty and holds no separator.
pub open spec fn tidy(parts: Seq<Seq<u8>>) -> bool {
    &&& forall|n: int| 1 <= n < parts.len() ==> #[trigger] parts[n] != dot_part()
    &&& forall|n: int|
        0 <= n < parts.len() ==> (#[trigger] parts[n] == root_part() && n == 0) || is_plain_part(
            parts[n],
        )
}

/// After its beginning a path holds no component `.`.
proof fn lemma_components_from_no_dot(p: Seq<u8>, i: int)
    requires
        0 <= i,
    ensures
        forall|n: int|
            0 <= n < components_from(p, i).len() && !(i == 0 && n == 0) ==> #[trigger] components_from(
                p,
                i,
            )[n] != dot_part(),
    decreases p.len() - i,
{
    if i < p.len() {
        if p[i] == SEP {
            lemma_components_from_no_dot(p, i + 1);
            assert(components_from(p, i) == components_from(p, i + 1));
            if i == 0 {
                assert forall|n: int|
                    0 <= n < components_from(p, i).len() implies #[trigger] components_from(
                    p,
                    i,
                )[n] != dot_part() by {
                    assert(components_from(p, i + 1)[n] != dot_part());
                }
            }
        } else {
            let j = span_end(p, i, SEP);
            lemma_span_end(p, i, SEP);
            lemma_span_end(p, i + 1, SEP);
            lemma_components_from_no_dot(p, j);
            let part = p.subrange(i, j);
            let rest = components_from(p, j);
            assert forall|n: int|
                0 <= n < components_from(p, i).len() && !(i == 0 && n == 0) implies #[trigger] components_from(
                p,
                i,
            )[n] != dot_part() by {
                if part == dot_part() && i != 0 {
                    assert(components_from(p, i)[n] == rest[n]);
                } else if n > 0 {
                    assert(components_from(p, i)[n] == rest[n - 1]);
                }
            }
        }
    } else {
        assert(components_from(p, i).len() == 0);
    }
}

/// The components of a path are tidy.
pub proof fn lemma_components_tidy(p: Seq<u8>)
    ensures
        tidy(components(p)),
{
    lemma_components_from_plain(p, 0);
    lemma_components_from_no_dot(p, 0);
    let parts = components(p);
    let tail = components_from(p, 0);
    if is_absolute(p) {
        assert(components_from(p, 0) == components_from(p, 1));
        lemma_components_from_no_dot(p, 1);
        lemma_components_from_plain(p, 1);
        assert forall|n: int| 1 <= n < parts.len() implies #[trigger] parts[n] != dot_part() by {
            assert(parts[n] == components_from(p, 1)[n - 1]);
        }
        assert forall|n: int| 0 <= n < parts.len() implies (#[trigger] parts[n] == root_part()
            && n == 0) || is_plain_part(parts[n]) by {
            if n > 0 {
                assert(parts[n] == components_from(p, 1)[n - 1]);
            }
        }
    }
}

/// A separator and a component after a path add that component to the
/// path's components.
proof fn lemma_components_from_append(a: Seq<u8>, c: Seq<u8>, i: int)
    requires
        0 <= i <= a.len(),
        is_plain_part(c),
        c != dot_part(),
    ensures
        components_from(a + seq![SEP] + c, i) == components_from(a, i).push(c),
    decreases a.len() - i,
{
    let p = a + seq![SEP] + c;
    if i == a.len() {
        let from = i + 1;
        assert(p[i] == SEP);
        assert(components_from(p, i) == components_from(p, from));
        assert forall|k: int| from <= k < p.len() implies p[k] != SEP by {
            assert(p[k] == c[k - from]);
        }
        lemma_span_end(p, from, SEP);
        assert(span_end(p, from, SEP) == p.len());
        assert(p.subrange(from, p.len() as int) =~= c);
        assert(components_from(p, p.len() as int) =~= Seq::<Seq<u8>>::empty());
        assert(components_from(p, from) =~= seq![c]);
        assert(components_from(a, i) =~= Seq::<Seq<u8>>::empty());
        assert(components_from(a, i).push(c) =~= seq![c]);
    } else if a[i] == SEP {
        assert(p[i] == SEP);
        lemma_components_from_append(a, c, i + 1);
    } else {
        assert(p[i] == a[i]);
        lemma_span_end_extends(a, p, i, SEP);
        lemma_span_end(a, i, SEP);
        lemma_span_end(a, i + 1, SEP);
        let j = span_end(a, i, SEP);
        assert(p.subrange(i, j) =~= a.subrange(i, j));
        lemma_components_from_append(a, c, j);
        let part = a.subrange(i, j);
        if !(part == dot_part() && i != 0) {
            assert(seq![part] + components_from(a, j).push(c) =~= (seq![part] + components_from(
                a,
                j,
            )).push(c));
        }
    }
}

/// Joining a component to a path adds it to the path's components, where
/// the path is empty, the root, or does not end with a separator.
proof fn lemma_components_join(a: Seq<u8>, c: Seq<u8>)
    requires
        is_plain_part(c),
        c != dot_part(),
        a.len() > 0,
        a == root_part() || a.last() != SEP,
    ensures
        components(join_spec(a, c)) == components(a).push(c),
{
    if a == root_part() {
        let none = Seq::<u8>::empty();
        lemma_components_from_append(none, c, 0);
        assert(none + seq![SEP] + c =~= a + c);
        assert(components_from(none, 0) =~= Seq::<Seq<u8>>::empty());
        assert(components_from(a, 1) =~= Seq::<Seq<u8>>::empty());
        assert(components_from(a, 0) == components_from(a, 1));
        assert(seq![root_part()] + Seq::<Seq<u8>>::empty().push(c) =~= (seq![root_part()]
            + Seq::<Seq<u8>>::empty()).push(c));
    } else {
        lemma_components_from_append(a, c, 0);
        let p = a + seq![SEP] + c;
        assert(p[0] == a[0]);
        if is_absolute(a) {
            assert(seq![root_part()] + components_from(a, 0).push(c) =~= (seq![root_part()]
                + components_from(a, 0)).push(c));
        }
    }
}

/// The path made of tidy components is not empty, and it ends with a
/// separator only where it is the root.
proof fn lemma_rendered_shape(parts: Seq<Seq<u8>>, k: int)
    requires
        tidy(parts),
        1 <= k <= parts.len(),
    ensures
        rendered(parts, k).len() > 0,
        rendered(parts, k) == root_part() || rendered(parts, k).last() != SEP,
        rendered(parts, k) == root_part() ==> k == 1,
    decreases k,
{
    if k == 1 {
        assert(rendered(parts, 0) =~= Seq::<u8>::empty());
        assert(rendered(parts, 1) == parts[0]);
        assert(parts[0] == root_part() || is_plain_part(parts[0]));
    } else {
        lemma_rendered_shape(parts, k - 1);
        let c = parts[k - 1];
        assert(is_plain_part(c));
        let r = rendered(parts, k - 1);
        let joined = join_spec(r, c);
        assert(joined.last() == c.last());
        assert(joined.len() >= 2);
    }
}

/// Splitting the path made of tidy components gives the components back.
pub proof fn lemma_split_rendered(parts: Seq<Seq<u8>>, k: int)
    requires
        tidy(parts),
        0 <= k <= parts.len(),
    ensures
        components(rendered(parts, k)) == parts.take(k),
    decreases k,
{
    if k == 0 {
        assert(rendered(parts, 0) =~= Seq::<u8>::empty());
        assert(components(rendered(parts, 0)) =~= parts.take(0));
    } else if k == 1 {
        assert(rendered(parts, 0) =~= Seq::<u8>::empty());
        let c = parts[0];
        assert(rendered(parts, 1) == c);
        if c == root_part() {
            assert(components_from(c, 1) =~= Seq::<Seq<u8>>::empty());
            assert(components_from(c, 0) == components_from(c, 1));
            assert(components(c) =~= parts.take(1));
        } else {
            assert(is_plain_part(c));
            lemma_span_end(c, 0, SEP);
            assert(span_end(c, 0, SEP) == c.len());
            assert(c.subrange(0, c.len() as int) =~= c);
            assert(components_from(c, c.len() as int) =~= Seq::<Seq<u8>>::empty());
            assert(components_from(c, 0) =~= seq![c]);
            assert(components(c) =~= parts.take(1));
        }
    } else {
        lemma_split_rendered(parts, k - 1);
        lemma_rendered_shape(parts, k - 1);
        let c = parts[k - 1];
        assert(is_plain_part(c));
        lemma_components_join(rendered(parts, k - 1), c);
        assert(parts.take(k - 1).push(c) =~= parts.take(k));
    }
}

/// The path made of some components depends on those components alone.
proof fn lemma_rendered_same(a: Seq<Seq<u8>>, b: Seq<Seq<u8>>, k: int)
    requires
        0 <= k <= a.len(),
        k <= b.len(),
        forall|n: int| 0 <= n < k ==> a[n] == b[n],
    ensures
        rendered(a, k) == rendered(b, k),
    decreases k,
{
    if k > 0 {
        lemma_rendered_same(a, b, k - 1);
    }
}

/// A relative path of `k` components joined to a settled directory is
/// settled where it holds no `..`: it is the path made of the components of
/// the directory and its own.
pub proof fn lemma_join_settled(base: Seq<u8>, parts: Seq<Seq<u8>>, k: int)
    requires
        is_settled(base),
        1 <= k <= parts.len(),
        forall|n: int|
            0 <= n < parts.len() ==> is_plain_part(#[trigger] parts[n]) && parts[n] != dot_part()
                && parts[n] != dotdot_part(),
    ensures
        join_spec(base, rendered(parts, k)) == rendered(
            components(base) + parts,
            components(base).len() + k,
        ),
        components(join_spec(base, rendered(parts, k))) == components(base) + parts.take(k),
        is_settled(join_spec(base, rendered(parts, k))),
    decreases k,
{
    let above = components(base);
    let all = above + parts;
    let n = above.len() as int;
    let part = parts[k - 1];
    lemma_components_tidy(base);
    assert(n >= 1);
    lemma_rendered_shape(above, n);
    lemma_rendered_same(all, above, n);
    assert(rendered(all, n) == base);
    assert(all[n + k - 1] == part);
    assert(is_plain_part(part));
    if k == 1 {
        assert(rendered(parts, 0) =~= Seq::<u8>::empty());
        assert(rendered(parts, 1) == part);
        lemma_components_join(base, part);
        assert(parts.take(1) =~= seq![part]);
        assert(above + parts.take(1) =~= above.push(part));
    } else {
        lemma_join_settled(base, parts, k - 1);
        let short = rendered(parts, k - 1);
        let before = join_spec(base, short);
        assert(tidy(parts)) by {
            assert forall|i: int| 0 <= i < parts.len() implies (#[trigger] parts[i] == root_part()
                && i == 0) || is_plain_part(parts[i]) by {
                assert(is_plain_part(parts[i]));
            }
        }
        lemma_rendered_shape(parts, k - 1);
        lemma_rendered_head(parts, k - 1);
        assert(!is_absolute(short));
        assert(short != root_part());
        assert(join_spec(short, part) == short + seq![SEP] + part);
        assert(before.last() == short.last());
        assert(join_spec(before, part) == before + seq![SEP] + part);
        assert(join_spec(base, rendered(parts, k)) =~= join_spec(before, part));
        lemma_components_join(before, part);
        assert(parts.take(k - 1).push(part) =~= parts.take(k));
        assert((above + parts.take(k - 1)).push(part) =~= above + parts.take(k));
    }
    let whole = join_spec(base, rendered(parts, k));
    assert(is_settled(whole)) by {
        let found = components(whole);
        assert(found.len() == n + k);
        lemma_rendered_same(found, all, n + k);
        assert(whole[0] == base[0]);
        assert forall|i: int| 0 <= i < found.len() implies #[trigger] found[i]
            != dotdot_part() by {
            if i < n {
                assert(found[i] == above[i]);
            } else {
                assert(found[i] == parts[i - n]);
            }
        }
    }
}

/// The directory that holds a path has the path's components but the last.
pub proof fn lemma_parent_components(p: Seq<u8>)
    requires
        parent_spec(p) is Some,
    ensures
        components(parent_spec(p)->0) == components(p).drop_last(),
        components(p).len() > 0,
{
    lemma_components_tidy(p);
    let parts = components(p);
    let above = parts.drop_last();
    assert(tidy(above)) by {
        assert forall|n: int| 0 <= n < above.len() implies (#[trigger] above[n] == root_part()
            && n == 0) || is_plain_part(above[n]) by {
            assert(above[n] == parts[n]);
        }
        assert forall|n: int| 1 <= n < above.len() implies #[trigger] above[n] != dot_part() by {
            assert(above[n] == parts[n]);
        }
    }
    lemma_split_rendered(above, above.len() as int);
    assert(above.take(above.len() as int) =~= above);
}

/// Whether the path begins at the root.
pub fn starts_at_root(path: &[u8]) -> (r: bool)
    ensures
        r == is_absolute(path@),
{
    path.len() > 0 && path[0] == SEP
}

/// Splits a path into its components.
pub fn split(path: &[u8]) -> (parts: Vec<Vec<u8>>)
    ensures
        views(parts@) == components(path@),
{
    let mut parts: Vec<Vec<u8>> = Vec::new();
    if starts_at_root(path) {
        let mut root: Vec<u8> = Vec::new();
        root.push(SEP);
        parts.push(root);
        proof {
            assert(parts@[0]@ =~= root_part());
            assert(views(parts@) =~= seq![root_part()]);
        }
    } else {
        proof {
            assert(views(parts@) =~= Seq::<Seq<u8>>::empty());
        }
    }
    let mut i: usize = 0;
    while i < path.len()
        invariant
            i <= path.len(),
            components(path@) == views(parts@) + components_from(path@, i as int),
        decreases path.len() - i,
    {
        if path[i] == SEP {
            i += 1;
        } else {
            let j = find_byte(path, i, SEP);
            proof {
                lemma_span_end(path@, i as int, SEP);
            }
            let part = copy_range(path, i, j);
            let skipped = j - i == 1 && part[0] == DOT && i != 0;
            proof {
                assert(skipped == (part@ == dot_part() && i != 0)) by {
                    if j - i == 1 && part[0] == DOT {
                        assert(part@ =~= dot_part());
                    }
                }
            }
            if !skipped {
                proof {
                    lemma_views_push(parts@, part);
                    assert(views(parts@).push(part@) + components_from(path@, j as int) =~= views(
                        parts@,
                    ) + (seq![part@] + components_from(path@, j as int)));
                }
                parts.push(part);
            }
            i = j;
        }
    }
    proof {
        assert(views(parts@) + Seq::<Seq<u8>>::empty() =~= views(parts@));
    }
    parts
}

/// Appends `rel` to the directory held in `buf`.
pub fn push_joined(buf: &mut Vec<u8>, rel: &[u8])
    ensures
        final(buf)@ == join_spec(old(buf)@, rel@),
{
    if starts_at_root(rel) || buf.len() == 0 {
        buf.clear();
    } else if buf[buf.len() - 1] != SEP {
        buf.push(SEP);
    }
    let ghost head = buf@;
    let mut i: usize = 0;
    while i < rel.len()
        invariant
            i <= rel.len(),
            buf@ == head + rel@.take(i as int),
        decreases rel.len() - i,
    {
        buf.push(rel[i]);
        assert(buf@ =~= head + rel@.take(i + 1));
        i += 1;
    }
    assert(rel@.take(rel.len() as int) =~= rel@);
    assert(Seq::<u8>::empty() + rel@ =~= rel@);
}

/// Appends `rel` to the directory `base`.
pub fn join(base: &[u8], rel: &[u8]) -> (r: Vec<u8>)
    ensures
        r@ == join_spec(base@, rel@),
{
    let mut r = copy_range(base, 0, base.len());
    assert(r@ =~= base@);
    push_joined(&mut r, rel);
    r
}

/// The path made of the components `parts[from..to]`.
pub(crate) fn render_range(parts: &Vec<Vec<u8>>, from: usize, to: usize) -> (r: Vec<u8>)
    requires
        from <= to <= parts.len(),
    ensures
        r@ == render_spec(views(parts@).subrange(from as int, to as int)),
{
    let ghost sub = views(parts@).subrange(from as int, to as int);
    let mut r: Vec<u8> = Vec::new();
    let mut i: usize = from;
    while i < to
        invariant
            from <= i <= to <= parts.len(),
            sub == views(parts@).subrange(from as int, to as int),
            r@ == rendered(sub, i - from),
        decreases to - i,
    {
        assert(sub[i - from] == parts@[i as int]@);
        push_joined(&mut r, parts[i].as_slice());
        i += 1;
    }
    r
}

/// The path made of the given components.
pub fn render(parts: &Vec<Vec<u8>>) -> (r: Vec<u8>)
    ensures
        r@ == render_spec(views(parts@)),
{
    assert(views(parts@).subrange(0, parts.len() as int) =~= views(parts@));
    render_range(parts, 0, parts.len())
}

/// Whether a component names an entry of a directory.
pub fn names_entry(part: &[u8]) -> (r: bool)
    ensures
        r == is_normal(part@),
{
    let root = part.len() == 1 && part[0] == SEP;
    let dot = part.len() == 1 && part[0] == DOT;
    let dotdot = part.len() == 2 && part[0] == DOT && part[1] == DOT;
    proof {
        if root {
            assert(part@ =~= root_part());
        }
        if dot {
            assert(part@ =~= dot_part());
        }
        if dotdot {
            assert(part@ =~= dotdot_part());
        }
    }
    !root && !dot && !dotdot
}

/// The directory that holds the path: the path without its last component.
/// `None` for the empty path and for the root.
pub fn parent(path: &[u8]) -> (r: Option<Vec<u8>>)
    ensures
        opt_view(r) == parent_spec(path@),
{
    let parts = split(path);
    let n = parts.len();
    if n == 0 {
        return None;
    }
    let last = &parts[n - 1];
    if last.len() == 1 && last[0] == SEP {
        assert(last@ =~= root_part());
        return None;
    }
    assert(views(parts@).last() == last@);
    assert(views(parts@).subrange(0, n - 1) =~= views(parts@).drop_last());
    Some(render_range(&parts, 0, n - 1))
}

/// The last component of the path, where it names an entry of a directory.
pub fn file_name(path: &[u8]) -> (r: Option<Vec<u8>>)
    ensures
        opt_view(r) == file_name_spec(path@),
{
    let parts = split(path);
    let n = parts.len();
    if n == 0 {
        return None;
    }
    let last = &parts[n - 1];
    assert(views(parts@).last() == last@);
    if names_entry(last.as_slice()) {
        let name = copy_range(last.as_slice(), 0, last.len());
        assert(name@ =~= last@);
        Some(name)
    } else {
        None
    }
}

} // verus!
