//! Moving a selection through a list, wrapping at either end.
use vstd::prelude::*;

verus! {

/// The index after `selected` in a list of `len` items: the first after the
/// last, and the first when nothing is selected.
pub fn next_index(selected: Option<usize>, len: usize) -> (r: usize)
    requires
        selected is Some ==> len > 0,
    ensures
        r == match selected {
            Some(i) => if i >= len - 1 {
                0
            } else {
                i + 1
            },
            None => 0,
        },
{
    match selected {
        Some(i) => {
            if i >= len - 1 {
                0
            } else {
                i + 1
            }
        },
        None => 0,
    }
}

/// The index before `selected` in a list of `len` items: the last before the
/// first, and the first when nothing is selected.
pub fn previous_index(selected: Option<usize>, len: usize) -> (r: usize)
    requires
        selected is Some ==> len > 0,
    ensures
        r == match selected {
            Some(i) => if i == 0 {
                len - 1
            } else {
                i - 1
            },
            None => 0,
        },
{
    match selected {
        Some(i) => {
            if i == 0 {
                len - 1
            } else {
                i - 1
            }
        },
        None => 0,
    }
}

} // verus!
