//! Where a new item goes in a queue ordered by deadline.
//!
//! Points in time are nanoseconds since the start of the simulation.

use vstd::prelude::*;

verus! {

#[derive(Clone, Copy, Debug, PartialEq, Eq, Structural)]
pub enum SchedulingPolicyKind {
    Fifo,
    Edf,
}

impl Default for SchedulingPolicyKind {
    fn default() -> (r: SchedulingPolicyKind)
        ensures
            r == SchedulingPolicyKind::Fifo,
    {
        SchedulingPolicyKind::Fifo
    }
}

/// The queue holds an upstream item at `i` that is due strictly after `deadline`.
pub open spec fn due_later(items: Seq<(bool, u64)>, deadline: u64, i: int) -> bool {
    0 <= i < items.len() && items[i].0 && items[i].1 > deadline
}

/// `at` is the position of the first upstream item due strictly later, or the end.
pub open spec fn is_mixed_edf_index(items: Seq<(bool, u64)>, deadline: u64, at: int) -> bool {
    &&& 0 <= at <= items.len()
    &&& forall|i: int| 0 <= i < at ==> !#[trigger] due_later(items, deadline, i)
    &&& at < items.len() ==> due_later(items, deadline, at)
}

/// Returns the index at which a new upstream hop should be inserted in a mixed queue.
/// An item is marked true when it is an upstream item; the paired deadline is only
/// read for upstream items.
pub fn edf_insert_index_in_mixed_queue(items: &Vec<(bool, u64)>, new_deadline: u64) -> (r: usize)
    ensures
        is_mixed_edf_index(items@, new_deadline, r as int),
{
    let mut index: usize = 0;
    while index < items.len()
        invariant
            index <= items@.len(),
            forall|i: int| 0 <= i < index ==> !#[trigger] due_later(items@, new_deadline, i),
        decreases items@.len() - index,
    {
        let (is_upstream, deadline) = items[index];
        if is_upstream && deadline > new_deadline {
            return index;
        }
        index += 1;
    }
    index
}

/// `at` is the position of the first deadline strictly after `deadline`, or the end.
pub open spec fn is_edf_index(deadlines: Seq<u64>, deadline: u64, at: int) -> bool {
    &&& 0 <= at <= deadlines.len()
    &&& forall|i: int| 0 <= i < at ==> (#[trigger] deadlines[i]) <= deadline
    &&& at < deadlines.len() ==> deadlines[at] > deadline
}

/// Returns the index at which an item with `new_deadline` is inserted: before the first
/// item with a strictly later deadline, so that items with equal deadlines stay in the
/// order of arrival.
pub fn edf_insert_index(deadlines: &Vec<u64>, new_deadline: u64) -> (r: usize)
    ensures
        is_edf_index(deadlines@, new_deadline, r as int),
{
    let mut index: usize = 0;
    while index < deadlines.len()
        invariant
            index <= deadlines@.len(),
            forall|i: int| 0 <= i < index ==> (#[trigger] deadlines@[i]) <= new_deadline,
        decreases deadlines@.len() - index,
    {
        if deadlines[index] > new_deadline {
            return index;
        }
        index += 1;
    }
    index
}

/// Where an item with `deadline` is inserted.
pub open spec fn edf_position(deadlines: Seq<u64>, deadline: u64) -> int {
    choose|at: int| is_edf_index(deadlines, deadline, at)
}

/// There is one place only where an item with `deadline` is inserted.
pub proof fn lemma_edf_position(deadlines: Seq<u64>, deadline: u64, at: int)
    requires
        is_edf_index(deadlines, deadline, at),
    ensures
        edf_position(deadlines, deadline) == at,
{
    let other = edf_position(deadlines, deadline);
    assert(is_edf_index(deadlines, deadline, other));
    if at < other {
        assert(deadlines[at] <= deadline);
    } else if other < at {
        assert(deadlines[other] <= deadline);
    }
}

/// The place where an item with `deadline` is inserted is in the queue or at its end.
pub proof fn lemma_edf_in_range(deadlines: Seq<u64>, deadline: u64, from: int)
    requires
        0 <= from <= deadlines.len(),
        forall|i: int| 0 <= i < from ==> (#[trigger] deadlines[i]) <= deadline,
    ensures
        0 <= edf_position(deadlines, deadline) <= deadlines.len(),
        is_edf_index(deadlines, deadline, edf_position(deadlines, deadline)),
    decreases deadlines.len() - from,
{
    if from == deadlines.len() || deadlines[from] > deadline {
        lemma_edf_position(deadlines, deadline, from);
    } else {
        lemma_edf_in_range(deadlines, deadline, from + 1);
    }
}

/// No deadline stands before an earlier one.
pub open spec fn by_deadline(deadlines: Seq<u64>) -> bool {
    forall|i: int, j: int|
        #![trigger deadlines[i], deadlines[j]]
        0 <= i < j < deadlines.len() ==> deadlines[i] <= deadlines[j]
}

/// Inserting at the earliest-deadline-first position keeps a queue ordered by deadline,
/// and puts the new item behind every item that is due no later.
pub proof fn law_edf_insert_keeps_order(deadlines: Seq<u64>, deadline: u64, at: int)
    requires
        by_deadline(deadlines),
        is_edf_index(deadlines, deadline, at),
    ensures
        by_deadline(deadlines.insert(at, deadline)),
        forall|i: int| 0 <= i < deadlines.len() ==> ((#[trigger] deadlines[i]) <= deadline <==> i < at),
{
    let after = deadlines.insert(at, deadline);
    assert forall|i: int| 0 <= i < deadlines.len() implies ((#[trigger] deadlines[i]) <= deadline
        <==> i < at) by {
        if at < i {
            assert(deadlines[at] <= deadlines[i]);
        }
    }
    assert forall|i: int, j: int|
        #![trigger after[i], after[j]]
        0 <= i < j < after.len() implies after[i] <= after[j] by {
        let a = if i < at {
            i
        } else {
            i - 1
        };
        let b = if j < at {
            j
        } else {
            j - 1
        };
        if i != at {
            assert(after[i] == deadlines[a]);
        }
        if j != at {
            assert(after[j] == deadlines[b]);
        }
    }
}

/// The deadlines of the upstream items of a mixed queue, in order.
pub open spec fn upstream_deadlines(items: Seq<(bool, u64)>) -> Seq<u64>
    decreases items.len(),
{
    if items.len() == 0 {
        Seq::empty()
    } else {
        let before = upstream_deadlines(items.drop_last());
        if items.last().0 {
            before.push(items.last().1)
        } else {
            before
        }
    }
}

proof fn lemma_upstream_append(a: Seq<(bool, u64)>, b: Seq<(bool, u64)>)
    ensures
        upstream_deadlines(a + b) == upstream_deadlines(a) + upstream_deadlines(b),
    decreases b.len(),
{
    if b.len() == 0 {
        assert(a + b =~= a);
        assert(upstream_deadlines(a) + upstream_deadlines(b) =~= upstream_deadlines(a));
    } else {
        assert((a + b).drop_last() =~= a + b.drop_last());
        lemma_upstream_append(a, b.drop_last());
        assert(upstream_deadlines(a + b) =~= upstream_deadlines(a) + upstream_deadlines(b));
    }
}

proof fn lemma_upstream_within(items: Seq<(bool, u64)>, deadline: u64)
    requires
        forall|i: int| 0 <= i < items.len() ==> !#[trigger] due_later(items, deadline, i),
    ensures
        forall|i: int|
            0 <= i < upstream_deadlines(items).len() ==> (#[trigger] upstream_deadlines(items)[i])
                <= deadline,
    decreases items.len(),
{
    if items.len() > 0 {
        let rest = items.drop_last();
        assert forall|i: int| 0 <= i < rest.len() implies !#[trigger] due_later(
            rest,
            deadline,
            i,
        ) by {
            assert(!due_later(items, deadline, i));
        }
        lemma_upstream_within(rest, deadline);
        assert(!due_later(items, deadline, items.len() - 1));
        let before = upstream_deadlines(rest);
        assert forall|i: int| 0 <= i < upstream_deadlines(items).len() implies (
        #[trigger] upstream_deadlines(items)[i]) <= deadline by {
            if i < before.len() {
                assert(upstream_deadlines(items)[i] == before[i]);
            }
        }
    }
}

/// Inserting an upstream item into a mixed queue keeps its upstream items ordered by
/// deadline, whatever other items stand between them.
pub proof fn law_mixed_edf_insert_keeps_order(items: Seq<(bool, u64)>, deadline: u64, at: int)
    requires
        by_deadline(upstream_deadlines(items)),
        is_mixed_edf_index(items, deadline, at),
    ensures
        by_deadline(upstream_deadlines(items.insert(at, (true, deadline)))),
{
    let head = items.take(at);
    let tail = items.skip(at);
    let item = seq![(true, deadline)];
    assert(items =~= head + tail);
    assert(items.insert(at, (true, deadline)) =~= head + item + tail);
    lemma_upstream_append(head, tail);
    lemma_upstream_append(head, item);
    lemma_upstream_append(head + item, tail);
    assert(upstream_deadlines(item) =~= seq![deadline]) by {
        reveal_with_fuel(upstream_deadlines, 2);
        assert(item.drop_last() =~= Seq::empty());
    }
    let before = upstream_deadlines(head);
    let after = upstream_deadlines(tail);
    let all = before + after;
    assert forall|i: int| 0 <= i < head.len() implies !#[trigger] due_later(head, deadline, i) by {
        assert(!due_later(items, deadline, i));
    }
    lemma_upstream_within(head, deadline);
    assert(is_edf_index(all, deadline, before.len() as int)) by {
        if at < items.len() {
            let first = seq![items[at]];
            let rest = items.skip(at + 1);
            assert(tail =~= first + rest);
            lemma_upstream_append(first, rest);
            assert(upstream_deadlines(first) =~= seq![items[at].1]) by {
                assert(due_later(items, deadline, at));
                reveal_with_fuel(upstream_deadlines, 2);
                assert(first.drop_last() =~= Seq::empty());
            }
            assert(after[0] == items[at].1);
            assert(all[before.len() as int] == after[0]);
        } else {
            assert(tail.len() == 0);
        }
    }
    law_edf_insert_keeps_order(all, deadline, before.len() as int);
    assert(all.insert(before.len() as int, deadline) =~= before + seq![deadline] + after);
}

/// An item goes behind every item that is due no later, and before the first that is due
/// later: of items that are due at one time, the one that came first stays first. An item that
/// is due last of all goes to the end.
pub proof fn law_equal_deadlines_keep_their_order(deadlines: Seq<u64>, deadline: u64)
    ensures
        0 <= edf_position(deadlines, deadline) <= deadlines.len(),
        forall|i: int|
            0 <= i < edf_position(deadlines, deadline) ==> (#[trigger] deadlines[i]) <= deadline,
        edf_position(deadlines, deadline) < deadlines.len() ==> deadlines[edf_position(
            deadlines,
            deadline,
        )] > deadline,
        (forall|i: int| 0 <= i < deadlines.len() ==> (#[trigger] deadlines[i]) <= deadline)
            ==> edf_position(deadlines, deadline) == deadlines.len(),
{
    lemma_edf_in_range(deadlines, deadline, 0);
}

/// An upstream item of a mixed queue goes right before an upstream item that is due later, or to
/// the end, and every upstream item before it is due no later.
pub proof fn law_mixed_items_keep_their_order(items: Seq<(bool, u64)>, deadline: u64, at: int)
    requires
        is_mixed_edf_index(items, deadline, at),
    ensures
        0 <= at <= items.len(),
        forall|i: int| 0 <= i < at && (#[trigger] items[i]).0 ==> items[i].1 <= deadline,
        at < items.len() ==> items[at].0 && items[at].1 > deadline,
{
    assert forall|i: int| 0 <= i < at && (#[trigger] items[i]).0 implies items[i].1 <= deadline by {
        assert(!due_later(items, deadline, i));
    }
}

} // verus!
