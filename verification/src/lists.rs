//! Small searches over lists of indices.

use vstd::prelude::*;

verus! {

/// Where `x` first stands in `list`.
pub open spec fn first_at(list: Seq<usize>, x: usize) -> Option<int>
    decreases list.len(),
{
    if list.len() == 0 {
        None
    } else if list[0] == x {
        Some(0int)
    } else {
        match first_at(list.skip(1), x) {
            Some(i) => Some(i + 1),
            None => None,
        }
    }
}

/// `first_at` by its defining property.
pub proof fn first_at_is_first(list: Seq<usize>, x: usize)
    ensures
        match first_at(list, x) {
            Some(i) => 0 <= i < list.len() && list[i] == x && forall|j: int|
                0 <= j < i ==> list[j] != x,
            None => !list.contains(x),
        },
    decreases list.len(),
{
    if list.len() > 0 && list[0] != x {
        let rest = list.skip(1);
        first_at_is_first(rest, x);
        match first_at(rest, x) {
            Some(i) => {
                assert(list[i + 1] == rest[i]);
                assert forall|j: int| 0 <= j < i + 1 implies list[j] != x by {
                    if j > 0 {
                        assert(rest[j - 1] == list[j]);
                    }
                }
            },
            None => {
                if list.contains(x) {
                    let j = choose|j: int| 0 <= j < list.len() && list[j] == x;
                    assert(rest[j - 1] == x);
                }
            },
        }
    }
}

/// The first index at which `list` holds `x`.
pub fn position(list: &[usize], x: usize) -> (at: Option<usize>)
    ensures
        match at {
            Some(i) => first_at(list@, x) == Some(i as int),
            None => first_at(list@, x) is None,
        },
        at matches Some(i) ==> i < list@.len() && list@[i as int] == x && forall|j: int|
            0 <= j < i ==> list@[j] != x,
        at is None ==> !list@.contains(x),
{
    proof {
        first_at_is_first(list@, x);
    }
    let mut i: usize = 0;
    while i < list.len()
        invariant
            i <= list@.len(),
            forall|j: int| 0 <= j < i ==> list@[j] != x,
            match first_at(list@, x) {
                Some(k) => 0 <= k < list@.len() && list@[k] == x && forall|j: int|
                    0 <= j < k ==> list@[j] != x,
                None => !list@.contains(x),
            },
        decreases list.len() - i,
    {
        if list[i] == x {
            assert(list@.contains(x));
            return Some(i);
        }
        i = i + 1;
    }
    None
}

/// Whether `list` holds `x`.
pub fn holds(list: &[usize], x: usize) -> (found: bool)
    ensures
        found == list@.contains(x),
{
    match position(list, x) {
        Some(_) => true,
        None => false,
    }
}

} // verus!
