//! Resolution of local variables.
//!
//! The locals query of a grammar marks scopes, definitions and references. A
//! reference that finds a definition of the same name in a scope it can see is
//! a local variable, and is highlighted as one whatever the highlight query
//! says of it.

use crate::grammar::ByteRange;
use vstd::prelude::*;

verus! {

/// The range is not empty and lies within a text of `len` bytes.
pub open spec fn well_placed(r: ByteRange, len: int) -> bool {
    r.start < r.end <= len
}

/// The range `outer` contains the range `inner`.
pub open spec fn encloses(outer: ByteRange, inner: ByteRange) -> bool {
    outer.start <= inner.start && inner.end <= outer.end
}

/// The two ranges hold the same bytes of `text`.
pub open spec fn same_text(text: Seq<u8>, a: ByteRange, b: ByteRange) -> bool {
    text.subrange(a.start as int, a.end as int) == text.subrange(b.start as int, b.end as int)
}

/// The definition `d` can be seen from `r`: every scope around the definition
/// is a scope around `r` too.
pub open spec fn visible(scopes: Seq<ByteRange>, d: ByteRange, r: ByteRange) -> bool {
    forall|s: int| 0 <= s < scopes.len() && encloses(#[trigger] scopes[s], d) ==> encloses(scopes[s], r)
}

/// The definition `d` defines the name that `r` refers to.
pub open spec fn defines(text: Seq<u8>, scopes: Seq<ByteRange>, d: ByteRange, r: ByteRange) -> bool {
    &&& well_placed(d, text.len() as int)
    &&& same_text(text, d, r)
    &&& visible(scopes, d, r)
}

/// The reference `r` resolves: it lies in the text, and some definition that it
/// can see has its name.
pub open spec fn resolves(
    text: Seq<u8>,
    scopes: Seq<ByteRange>,
    definitions: Seq<ByteRange>,
    r: ByteRange,
) -> bool {
    &&& well_placed(r, text.len() as int)
    &&& exists|d: int| 0 <= d < definitions.len() && defines(text, scopes, #[trigger] definitions[d], r)
}

/// Whether the two ranges lie in the text and hold the same bytes.
pub fn has_same_text(text: &[u8], a: &ByteRange, b: &ByteRange) -> (same: bool)
    ensures
        same == (well_placed(*a, text@.len() as int) && well_placed(*b, text@.len() as int)
            && same_text(text@, *a, *b)),
{
    if !(a.start < a.end && a.end <= text.len() && b.start < b.end && b.end <= text.len()) {
        return false;
    }
    if a.end - a.start != b.end - b.start {
        proof {
            assert(text@.subrange(a.start as int, a.end as int).len() != text@.subrange(
                b.start as int,
                b.end as int,
            ).len());
        }
        return false;
    }
    let count = a.end - a.start;
    let ghost left = text@.subrange(a.start as int, a.end as int);
    let ghost right = text@.subrange(b.start as int, b.end as int);
    let mut k: usize = 0;
    while k < count
        invariant
            k <= count,
            count == a.end - a.start,
            count == b.end - b.start,
            well_placed(*a, text@.len() as int),
            well_placed(*b, text@.len() as int),
            left == text@.subrange(a.start as int, a.end as int),
            right == text@.subrange(b.start as int, b.end as int),
            forall|i: int| 0 <= i < k ==> left[i] == right[i],
        decreases count - k,
    {
        if text[a.start + k] != text[b.start + k] {
            proof {
                assert(left[k as int] != right[k as int]);
            }
            return false;
        }
        k += 1;
    }
    proof {
        assert(left =~= right);
    }
    true
}

/// Whether the definition `d` can be seen from `r`.
pub fn is_visible(scopes: &Vec<ByteRange>, d: &ByteRange, r: &ByteRange) -> (seen: bool)
    ensures
        seen == visible(scopes@, *d, *r),
{
    let mut s: usize = 0;
    while s < scopes.len()
        invariant
            s <= scopes.len(),
            forall|i: int| 0 <= i < s && encloses(#[trigger] scopes@[i], *d) ==> encloses(scopes@[i], *r),
        decreases scopes.len() - s,
    {
        let scope = &scopes[s];
        let around_definition = scope.start <= d.start && d.end <= scope.end;
        let around_reference = scope.start <= r.start && r.end <= scope.end;
        if around_definition && !around_reference {
            return false;
        }
        s += 1;
    }
    true
}

/// Whether the reference `r` resolves to one of the definitions.
pub fn is_resolved(
    text: &[u8],
    scopes: &Vec<ByteRange>,
    definitions: &Vec<ByteRange>,
    r: &ByteRange,
) -> (resolved: bool)
    ensures
        resolved == resolves(text@, scopes@, definitions@, *r),
{
    if !(r.start < r.end && r.end <= text.len()) {
        return false;
    }
    let mut d: usize = 0;
    while d < definitions.len()
        invariant
            d <= definitions.len(),
            well_placed(*r, text@.len() as int),
            forall|i: int| 0 <= i < d ==> !defines(text@, scopes@, #[trigger] definitions@[i], *r),
        decreases definitions.len() - d,
    {
        let definition = &definitions[d];
        if definition.start < definition.end && definition.end <= text.len() {
            if has_same_text(text, definition, r) && is_visible(scopes, definition, r) {
                return true;
            }
        }
        d += 1;
    }
    false
}

} // verus!
