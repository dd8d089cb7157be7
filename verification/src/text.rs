//! Searching in the bytes of a text.

use vstd::prelude::*;

verus! {

/// `part` stands in `whole` from byte `at` on.
pub open spec fn occurs_at(whole: Seq<u8>, part: Seq<u8>, at: int) -> bool {
    0 <= at && at + part.len() <= whole.len() && whole.subrange(at, at + part.len()) == part
}

/// `whole` starts with `part`.
pub open spec fn starts_with(whole: Seq<u8>, part: Seq<u8>) -> bool {
    occurs_at(whole, part, 0)
}

/// `whole` ends with `part`.
pub open spec fn ends_with(whole: Seq<u8>, part: Seq<u8>) -> bool {
    occurs_at(whole, part, whole.len() - part.len())
}

/// `part` stands somewhere in `whole`.
pub open spec fn contains(whole: Seq<u8>, part: Seq<u8>) -> bool {
    exists|at: int| occurs_at(whole, part, at)
}

/// Whether `part` stands in `whole` from byte `at` on.
pub fn has_at(whole: &[u8], part: &[u8], at: usize) -> (found: bool)
    ensures
        found == occurs_at(whole@, part@, at as int),
{
    if at > whole.len() || part.len() > whole.len() - at {
        return false;
    }
    let ghost window = whole@.subrange(at as int, at + part.len());
    let mut k: usize = 0;
    while k < part.len()
        invariant
            k <= part.len(),
            at + part.len() <= whole.len(),
            window == whole@.subrange(at as int, at + part.len()),
            forall|i: int| 0 <= i < k ==> window[i] == part@[i],
        decreases part.len() - k,
    {
        if whole[at + k] != part[k] {
            proof {
                assert(window[k as int] != part@[k as int]);
            }
            return false;
        }
        k += 1;
    }
    proof {
        assert(window =~= part@);
    }
    true
}

/// Whether `whole` starts with `part`.
pub fn has_prefix(whole: &[u8], part: &[u8]) -> (found: bool)
    ensures
        found == starts_with(whole@, part@),
{
    has_at(whole, part, 0)
}

/// Whether `whole` ends with `part`.
pub fn has_suffix(whole: &[u8], part: &[u8]) -> (found: bool)
    ensures
        found == ends_with(whole@, part@),
{
    if part.len() > whole.len() {
        return false;
    }
    has_at(whole, part, whole.len() - part.len())
}

/// Whether `part` stands somewhere in `whole`.
pub fn has_within(whole: &[u8], part: &[u8]) -> (found: bool)
    ensures
        found == contains(whole@, part@),
{
    if part.len() > whole.len() {
        return false;
    }
    if part.len() == 0 {
        proof {
            assert(whole@.subrange(0, 0) =~= part@);
            assert(occurs_at(whole@, part@, 0));
        }
        return true;
    }
    let last = whole.len() - part.len();
    let mut at: usize = 0;
    while at <= last
        invariant
            at <= last + 1,
            part.len() > 0,
            last == whole.len() - part.len(),
            forall|i: int| 0 <= i < at ==> !occurs_at(whole@, part@, i),
        decreases last + 1 - at,
    {
        if has_at(whole, part, at) {
            return true;
        }
        at += 1;
    }
    false
}

} // verus!
