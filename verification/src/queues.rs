//! What all queues have in common.

use std::collections::VecDeque;
use vstd::prelude::*;

verus! {

/// Takes the oldest item out of a queue that has one.
pub(crate) fn take_front<T>(queue: &mut VecDeque<T>) -> (item: T)
    requires
        old(queue)@.len() > 0,
    ensures
        item == old(queue)@[0],
        final(queue)@ == old(queue)@.remove(0),
{
    match queue.pop_front() {
        Some(item) => {
            assert(queue@ =~= old(queue)@.remove(0));
            item
        },
        None => vstd::pervasive::unreached(),
    }
}

} // verus!
