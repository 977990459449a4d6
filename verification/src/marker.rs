//! The marker: the attribute that selects a matching construct for
//! compilation.

use vstd::prelude::*;

verus! {

/// The name of the marker, `bit_pattern`.
pub open spec fn marker() -> Seq<char> {
    seq!['b', 'i', 't', '_', 'p', 'a', 't', 't', 'e', 'r', 'n']
}

/// Whether `name` is the name of the marker.
pub fn is_marker(name: &str) -> (b: bool)
    ensures
        b == (name@ == marker()),
{
    let expected: [char; 11] = ['b', 'i', 't', '_', 'p', 'a', 't', 't', 'e', 'r', 'n'];
    let mut i: usize = 0;
    proof {
        assert(expected@ =~= marker());
    }
    for c in it: name.chars()
        invariant
            it.seq() == name@,
            expected@ == marker(),
            i == it.index(),
            i <= 11,
            forall|j: int| 0 <= j < i ==> name@[j] == marker()[j],
    {
        if i >= 11 || c != expected[i] {
            proof {
                assert(name@[i as int] == c);
            }
            return false;
        }
        i = i + 1;
    }
    proof {
        if i == 11 {
            assert(name@ =~= marker());
        }
    }
    i == 11
}

/// Index of the first of `names` that is the name of the marker. `names`
/// holds, for each attribute of a construct, the last segment of its path.
pub fn find_marker(names: &Vec<String>) -> (found: Option<usize>)
    ensures
        match found {
            Some(i) => {
                &&& i < names@.len()
                &&& names@[i as int]@ == marker()
                &&& forall|j: int| 0 <= j < i ==> names@[j]@ != marker()
            },
            None => forall|j: int| 0 <= j < names@.len() ==> names@[j]@ != marker(),
        },
{
    let mut i: usize = 0;
    while i < names.len()
        invariant
            0 <= i <= names@.len(),
            forall|j: int| 0 <= j < i ==> names@[j]@ != marker(),
        decreases names@.len() - i,
    {
        if is_marker(names[i].as_str()) {
            return Some(i);
        }
        i = i + 1;
    }
    None
}

} // verus!
