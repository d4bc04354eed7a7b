//! Moving the items of one vector into another in a given order.

use vstd::prelude::*;

verus! {

/// The items of `v` from the last to the first.
pub(crate) fn reversed<T>(v: Vec<T>) -> (r: Vec<T>)
    ensures
        r@.len() == v@.len(),
        forall|i: int| 0 <= i < r@.len() ==> #[trigger] r@[i] == v@[v@.len() - 1 - i],
{
    let mut v = v;
    let ghost all = v@;
    let mut r: Vec<T> = Vec::new();
    while v.len() > 0
        invariant
            v@.len() + r@.len() == all.len(),
            v@ == all.subrange(0, v@.len() as int),
            forall|i: int| 0 <= i < r@.len() ==> #[trigger] r@[i] == all[all.len() - 1 - i],
        decreases v.len(),
    {
        let item = v.pop().unwrap();
        r.push(item);
    }
    r
}

/// What the slots of `placed` hold, slot by slot.
pub(crate) fn in_slot_order<T>(placed: Vec<Option<T>>) -> (out: Vec<T>)
    requires
        forall|s: int| 0 <= s < placed@.len() ==> (#[trigger] placed@[s]).is_some(),
    ensures
        out@.len() == placed@.len(),
        forall|s: int| 0 <= s < out@.len() ==> #[trigger] out@[s] == placed@[s].unwrap(),
{
    let mut placed = placed;
    let ghost all = placed@;
    let mut back: Vec<T> = Vec::new();
    while placed.len() > 0
        invariant
            placed@.len() + back@.len() == all.len(),
            placed@ == all.subrange(0, placed@.len() as int),
            forall|s: int| 0 <= s < all.len() ==> (#[trigger] all[s]).is_some(),
            forall|i: int|
                0 <= i < back@.len() ==> #[trigger] back@[i] == all[all.len() - 1 - i].unwrap(),
        decreases placed.len(),
    {
        let slot = placed.pop().unwrap();
        proof {
            assert(all[placed@.len() as int].is_some());
        }
        back.push(slot.unwrap());
    }
    reversed(back)
}

/// The second parts of `pairs`, in the same order.
pub(crate) fn second_parts<A, B>(pairs: Vec<(A, B)>) -> (out: Vec<B>)
    ensures
        out@.len() == pairs@.len(),
        forall|i: int| 0 <= i < out@.len() ==> #[trigger] out@[i] == pairs@[i].1,
{
    let mut pairs = pairs;
    let ghost all = pairs@;
    let mut back: Vec<B> = Vec::new();
    while pairs.len() > 0
        invariant
            pairs@.len() + back@.len() == all.len(),
            pairs@ == all.subrange(0, pairs@.len() as int),
            forall|i: int| 0 <= i < back@.len() ==> #[trigger] back@[i] == all[all.len() - 1 - i].1,
        decreases pairs.len(),
    {
        let pair = pairs.pop().unwrap();
        back.push(pair.1);
    }
    reversed(back)
}

} // verus!
