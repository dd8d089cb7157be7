//! Lists of names.

use vstd::prelude::*;

verus! {

/// The name `name` is among `have`.
pub open spec fn known(have: Seq<String>, name: Seq<char>) -> bool {
    exists|i: int| 0 <= i < have.len() && (#[trigger] have[i])@ == name
}

/// No name stands twice in the list.
pub open spec fn distinct(names: Seq<String>) -> bool {
    forall|j: int, k: int| 0 <= j < k < names.len() ==> (#[trigger] names[j])@ != (#[trigger] names[k])@
}

/// Whether `name` is among `have`.
pub fn is_known(have: &Vec<String>, name: &String) -> (found: bool)
    ensures
        found == known(have@, name@),
{
    let mut i: usize = 0;
    while i < have.len()
        invariant
            i <= have.len(),
            forall|k: int| 0 <= k < i ==> (#[trigger] have@[k])@ != name@,
        decreases have.len() - i,
    {
        if have[i] == *name {
            return true;
        }
        i += 1;
    }
    false
}

} // verus!
