//! Tables whose entries are reused: a new entry takes the first empty slot,
//! or goes at the end when every slot is taken.
use vstd::prelude::*;

verus! {

/// `i` is the first empty slot of `s`, or `s.len()` when there is none.
pub open spec fn is_first_free<T>(s: Seq<Option<T>>, i: int) -> bool {
    &&& 0 <= i <= s.len()
    &&& forall|j: int| 0 <= j < i ==> #[trigger] s[j] is Some
    &&& i < s.len() ==> s[i] is None
}

/// `new` is `old` with slot `i` filled and every other slot kept; a slot just
/// past the end is appended.
pub open spec fn filled_at<T>(old: Seq<Option<T>>, new: Seq<Option<T>>, i: int) -> bool {
    &&& new.len() == if i < old.len() { old.len() } else { old.len() + 1 }
    &&& 0 <= i < new.len()
    &&& new[i] is Some
    &&& forall|j: int| 0 <= j < old.len() && j != i ==> #[trigger] new[j] == old[j]
}

/// The index of the first empty slot, or the length when all are full.
pub fn find_free_slot<T>(list: &Vec<Option<T>>) -> (i: usize)
    ensures
        is_first_free(list@, i as int),
{
    let mut i: usize = 0;
    while i < list.len()
        invariant
            i <= list@.len(),
            forall|j: int| 0 <= j < i ==> #[trigger] list@[j] is Some,
        decreases list@.len() - i,
    {
        if list[i].is_none() {
            return i;
        }
        i = i + 1;
    }
    i
}

} // verus!
