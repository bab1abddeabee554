//! Object paths: slash-delimited identifiers and their validity rule.

use vstd::prelude::*;

verus! {

/// A valid object path is non-empty, begins with `/`, has no empty
/// segment (no two adjacent slashes) and no trailing slash except for
/// the root path `/` itself.
pub open spec fn valid_path(s: Seq<u8>) -> bool {
    &&& s.len() > 0
    &&& s[0] == 47u8
    &&& forall|i: int| 0 < i < s.len() ==> (#[trigger] s[i] == 47u8 ==> s[i - 1] != 47u8)
    &&& s.len() > 1 ==> s[s.len() - 1] != 47u8
}

/// Whether `p` is a valid object path.
pub fn is_valid_path(p: &Vec<u8>) -> (r: bool)
    ensures
        r == valid_path(p@),
{
    if p.len() == 0 {
        return false;
    }
    if p[0] != 47 {
        return false;
    }
    let mut i: usize = 1;
    while i < p.len()
        invariant
            1 <= i <= p@.len(),
            forall|j: int| 0 < j < i ==> (#[trigger] p@[j] == 47u8 ==> p@[j - 1] != 47u8),
        decreases p@.len() - i,
    {
        if p[i] == 47 && p[i - 1] == 47 {
            return false;
        }
        i = i + 1;
    }
    if p.len() > 1 && p[p.len() - 1] == 47 {
        return false;
    }
    true
}

} // verus!
