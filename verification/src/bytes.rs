//! Small operations on byte strings.

use vstd::prelude::*;

verus! {

/// Whether `s` begins with `prefix`.
pub open spec fn has_prefix(s: Seq<u8>, prefix: Seq<u8>) -> bool {
    prefix.len() <= s.len() && s.take(prefix.len() as int) == prefix
}

/// Whether `s` ends with `suffix`.
pub open spec fn has_suffix(s: Seq<u8>, suffix: Seq<u8>) -> bool {
    suffix.len() <= s.len() && s.skip(s.len() - suffix.len()) == suffix
}

/// The index of the first `delim` in `s` at or after `i`, or the length of
/// `s` if there is none.
pub open spec fn span_end(s: Seq<u8>, i: int, delim: u8) -> int
    decreases s.len() - i,
{
    if i < 0 || i >= s.len() || s[i] == delim {
        i
    } else {
        span_end(s, i + 1, delim)
    }
}

/// Scanning for a delimiter stops inside the string, at the first delimiter
/// or at the end.
pub proof fn lemma_span_end(s: Seq<u8>, i: int, delim: u8)
    requires
        0 <= i <= s.len(),
    ensures
        i <= span_end(s, i, delim) <= s.len(),
        span_end(s, i, delim) < s.len() ==> s[span_end(s, i, delim)] == delim,
        forall|k: int| i <= k < span_end(s, i, delim) ==> s[k] != delim,
    decreases s.len() - i,
{
    if i < s.len() && s[i] != delim {
        lemma_span_end(s, i + 1, delim);
    }
}

/// Scanning for a delimiter from `i` stops at `j` when `j` holds the first
/// delimiter from `i` on.
pub proof fn lemma_span_end_at(s: Seq<u8>, i: int, j: int, delim: u8)
    requires
        0 <= i <= j < s.len(),
        s[j] == delim,
        forall|k: int| i <= k < j ==> s[k] != delim,
    ensures
        span_end(s, i, delim) == j,
    decreases j - i,
{
    if i < j {
        lemma_span_end_at(s, i + 1, j, delim);
    }
}

/// Scanning for a delimiter goes the same way in two strings that agree up
/// to a delimiter or the end of the first.
pub proof fn lemma_span_end_extends(a: Seq<u8>, p: Seq<u8>, i: int, delim: u8)
    requires
        0 <= i <= a.len(),
        a.len() < p.len(),
        forall|k: int| 0 <= k < a.len() ==> a[k] == p[k],
        p[a.len() as int] == delim,
    ensures
        span_end(p, i, delim) == span_end(a, i, delim),
    decreases a.len() - i,
{
    if i < a.len() && a[i] != delim {
        lemma_span_end_extends(a, p, i + 1, delim);
    }
}

/// The byte strings that a vector of vectors holds.
pub open spec fn views(v: Seq<Vec<u8>>) -> Seq<Seq<u8>> {
    Seq::new(v.len(), |i: int| v[i]@)
}

/// Pushing onto a vector of vectors appends the view of what is pushed.
pub proof fn lemma_views_push(v: Seq<Vec<u8>>, x: Vec<u8>)
    ensures
        views(v.push(x)) == views(v).push(x@),
{
    assert(views(v.push(x)) =~= views(v).push(x@));
}

/// The view of an optional byte string.
pub open spec fn opt_view(o: Option<Vec<u8>>) -> Option<Seq<u8>> {
    match o {
        Some(v) => Some(v@),
        None => None,
    }
}

/// Compares two byte strings.
pub fn same_bytes(a: &[u8], b: &[u8]) -> (r: bool)
    ensures
        r == (a@ == b@),
{
    if a.len() != b.len() {
        return false;
    }
    let mut i: usize = 0;
    while i < a.len()
        invariant
            a.len() == b.len(),
            i <= a.len(),
            forall|k: int| 0 <= k < i ==> a@[k] == b@[k],
        decreases a.len() - i,
    {
        if a[i] != b[i] {
            return false;
        }
        i += 1;
    }
    assert(a@ =~= b@);
    true
}

/// Copies the bytes of `s` from `from` up to `to`.
pub(crate) fn copy_range(s: &[u8], from: usize, to: usize) -> (r: Vec<u8>)
    requires
        from <= to <= s.len(),
    ensures
        r@ == s@.subrange(from as int, to as int),
{
    let mut out: Vec<u8> = Vec::new();
    let mut i: usize = from;
    while i < to
        invariant
            from <= i <= to <= s.len(),
            out@ == s@.subrange(from as int, i as int),
        decreases to - i,
    {
        out.push(s[i]);
        assert(out@ =~= s@.subrange(from as int, i + 1));
        i += 1;
    }
    out
}

/// A copy of `s`.
pub fn copy_bytes(s: &[u8]) -> (r: Vec<u8>)
    ensures
        r@ == s@,
{
    let r = copy_range(s, 0, s.len());
    assert(r@ =~= s@);
    r
}

/// Whether `s` ends with `suffix`.
pub fn ends_with(s: &[u8], suffix: &[u8]) -> (r: bool)
    ensures
        r == has_suffix(s@, suffix@),
{
    if suffix.len() > s.len() {
        return false;
    }
    let off = s.len() - suffix.len();
    let mut i: usize = 0;
    while i < suffix.len()
        invariant
            off + suffix.len() == s.len(),
            i <= suffix.len(),
            forall|k: int| 0 <= k < i ==> s@[off + k] == suffix@[k],
        decreases suffix.len() - i,
    {
        if s[off + i] != suffix[i] {
            assert(s@.skip(off as int)[i as int] != suffix@[i as int]);
            return false;
        }
        i += 1;
    }
    assert(s@.skip(off as int) =~= suffix@);
    true
}

/// Whether `s` begins with `prefix`.
pub fn starts_with(s: &[u8], prefix: &[u8]) -> (r: bool)
    ensures
        r == has_prefix(s@, prefix@),
{
    if prefix.len() > s.len() {
        return false;
    }
    let mut i: usize = 0;
    while i < prefix.len()
        invariant
            prefix.len() <= s.len(),
            i <= prefix.len(),
            forall|k: int| 0 <= k < i ==> s@[k] == prefix@[k],
        decreases prefix.len() - i,
    {
        if s[i] != prefix[i] {
            assert(s@.take(prefix.len() as int)[i as int] != prefix@[i as int]);
            return false;
        }
        i += 1;
    }
    assert(s@.take(prefix.len() as int) =~= prefix@);
    true
}

/// The index of the first `delim` in `s` at or after `from`, or the length
/// of `s`.
pub(crate) fn find_byte(s: &[u8], from: usize, delim: u8) -> (j: usize)
    requires
        from <= s.len(),
    ensures
        j == span_end(s@, from as int, delim),
        from <= j <= s.len(),
{
    let mut j: usize = from;
    while j < s.len() && s[j] != delim
        invariant
            from <= j <= s.len(),
            span_end(s@, from as int, delim) == span_end(s@, j as int, delim),
        decreases s.len() - j,
    {
        j += 1;
    }
    j
}

} // verus!
