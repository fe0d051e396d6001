//! Changes in the order in which they are applied.

use crate::change::Change;
use vstd::prelude::*;
use vstd::seq_lib::to_multiset_build;

verus! {

/// A list in descending order of start with one more change put in: behind
/// every change that starts at or after it.
pub open spec fn put_in(sorted: Seq<Change>, change: Change) -> Seq<Change>
    decreases sorted.len(),
{
    if sorted.len() == 0 {
        seq![change]
    } else if sorted.last().start() >= change.start() {
        sorted.push(change)
    } else {
        put_in(sorted.drop_last(), change).push(sorted.last())
    }
}

/// The changes in descending order of start; changes that start alike keep
/// the order in which they were given.
pub open spec fn by_descending_start(changes: Seq<Change>) -> Seq<Change>
    decreases changes.len(),
{
    if changes.len() == 0 {
        changes
    } else {
        put_in(by_descending_start(changes.drop_last()), changes.last())
    }
}

/// Putting a change into a sorted list places it at the offset behind which
/// every change starts before it, and before which none does.
pub proof fn lemma_put_in_at(sorted: Seq<Change>, change: Change, at: int)
    requires
        0 <= at <= sorted.len(),
        forall|k: int| at <= k < sorted.len() ==> (#[trigger] sorted[k]).start() < change.start(),
        at > 0 ==> sorted[at - 1].start() >= change.start(),
    ensures
        put_in(sorted, change) == sorted.insert(at, change),
    decreases sorted.len() - at,
{
    if sorted.len() != 0 && at != sorted.len() {
        lemma_put_in_at(sorted.drop_last(), change, at);
    }
}

/// Putting a change into a list adds it and keeps the others.
pub proof fn lemma_put_in_keeps(sorted: Seq<Change>, change: Change, holds: spec_fn(Change) -> bool)
    requires
        forall|i: int| 0 <= i < sorted.len() ==> holds(#[trigger] sorted[i]),
        holds(change),
    ensures
        put_in(sorted, change).len() == sorted.len() + 1,
        forall|i: int|
            0 <= i < put_in(sorted, change).len() ==> holds(#[trigger] put_in(sorted, change)[i]),
    decreases sorted.len(),
{
    if sorted.len() != 0 && sorted.last().start() < change.start() {
        lemma_put_in_keeps(sorted.drop_last(), change, holds);
    }
}

/// Sorting keeps the number of changes, and whatever holds of each of them.
pub proof fn lemma_sorting_keeps(changes: Seq<Change>, holds: spec_fn(Change) -> bool)
    requires
        forall|i: int| 0 <= i < changes.len() ==> holds(#[trigger] changes[i]),
    ensures
        by_descending_start(changes).len() == changes.len(),
        forall|i: int|
            0 <= i < changes.len() ==> holds(#[trigger] by_descending_start(changes)[i]),
    decreases changes.len(),
{
    if changes.len() != 0 {
        lemma_sorting_keeps(changes.drop_last(), holds);
        lemma_put_in_keeps(by_descending_start(changes.drop_last()), changes.last(), holds);
    }
}

/// Sorts the changes by descending start. Changes that start alike keep
/// their order.
pub fn sort_changes(changes: &Vec<Change>) -> (r: Vec<Change>)
    ensures
        r@ == by_descending_start(changes@),
{
    let mut sorted: Vec<Change> = Vec::new();
    let mut i: usize = 0;
    while i < changes.len()
        invariant
            i <= changes.len(),
            sorted@ == by_descending_start(changes@.take(i as int)),
        decreases changes.len() - i,
    {
        let change = changes[i];
        let key = change.start_offset();
        let mut at = sorted.len();
        while at > 0 && sorted[at - 1].start_offset() < key
            invariant
                at <= sorted.len(),
                key == change.start(),
                forall|k: int| at <= k < sorted.len() ==> (#[trigger] sorted@[k]).start() < key,
            decreases at,
        {
            at = at - 1;
        }
        proof {
            lemma_put_in_at(sorted@, change, at as int);
            assert(changes@.take(i as int + 1).drop_last() =~= changes@.take(i as int));
        }
        sorted.insert(at, change);
        i = i + 1;
    }
    assert(changes@.take(changes.len() as int) =~= changes@);
    sorted
}

/// A pair in descending order of start: as given if the first starts at or
/// after the second, else turned round.
pub proof fn lemma_sorted_pair(one: Change, other: Change)
    ensures
        by_descending_start(seq![one, other]) == (if one.start() >= other.start() {
            seq![one, other]
        } else {
            seq![other, one]
        }),
{
    let pair = seq![one, other];
    assert(pair.drop_last() =~= seq![one]);
    assert(by_descending_start(seq![one]) =~= seq![one]) by {
        reveal_with_fuel(by_descending_start, 2);
    }
    assert(put_in(seq![one], other) =~= (if one.start() >= other.start() {
        seq![one, other]
    } else {
        seq![other, one]
    })) by {
        reveal_with_fuel(put_in, 2);
    }
}

/// The list of one change, whose order is its own.
pub proof fn lemma_sorted_single(change: Change)
    ensures
        by_descending_start(seq![change]) == seq![change],
{
    assert(by_descending_start(seq![change]) =~= seq![change]) by {
        reveal_with_fuel(by_descending_start, 2);
    }
}

/// Whether no change of the list starts before one that follows it.
pub open spec fn descending(changes: Seq<Change>) -> bool {
    forall|i: int, j: int|
        0 <= i < j < changes.len() ==> (#[trigger] changes[i]).start() >= (
        #[trigger] changes[j]).start()
}

/// Whether no two changes of the list start at the same offset.
pub open spec fn starts_differ(changes: Seq<Change>) -> bool {
    forall|i: int, j: int|
        0 <= i < j < changes.len() ==> (#[trigger] changes[i]).start() != (
        #[trigger] changes[j]).start()
}

/// Putting a change into a list that is in descending order leaves it so.
proof fn lemma_put_in_descending(sorted: Seq<Change>, change: Change)
    requires
        descending(sorted),
    ensures
        descending(put_in(sorted, change)),
    decreases sorted.len(),
{
    if sorted.len() != 0 && sorted.last().start() < change.start() {
        let before = sorted.drop_last();
        let last = sorted.last();
        lemma_put_in_descending(before, change);
        lemma_put_in_keeps(before, change, |c: Change| c.start() >= last.start());
    }
}

/// The sorted list is in descending order of start.
pub proof fn lemma_sorted_descending(changes: Seq<Change>)
    ensures
        descending(by_descending_start(changes)),
    decreases changes.len(),
{
    if changes.len() != 0 {
        lemma_sorted_descending(changes.drop_last());
        lemma_put_in_descending(by_descending_start(changes.drop_last()), changes.last());
    }
}

/// Putting a change into a list adds that change to what the list holds.
proof fn lemma_put_in_holds(sorted: Seq<Change>, change: Change)
    ensures
        put_in(sorted, change).to_multiset() == sorted.to_multiset().insert(change),
    decreases sorted.len(),
{
    if sorted.len() == 0 {
        to_multiset_build(sorted, change);
        assert(seq![change] =~= sorted.push(change));
    } else if sorted.last().start() >= change.start() {
        to_multiset_build(sorted, change);
    } else {
        let before = sorted.drop_last();
        let last = sorted.last();
        lemma_put_in_holds(before, change);
        to_multiset_build(put_in(before, change), last);
        to_multiset_build(before, last);
        assert(before.push(last) =~= sorted);
    }
}

/// The sorted list holds the changes that were given, each as often as it
/// was given.
pub proof fn lemma_sorted_holds_the_same(changes: Seq<Change>)
    ensures
        by_descending_start(changes).to_multiset() == changes.to_multiset(),
    decreases changes.len(),
{
    if changes.len() != 0 {
        let before = changes.drop_last();
        lemma_sorted_holds_the_same(before);
        lemma_put_in_holds(by_descending_start(before), changes.last());
        to_multiset_build(before, changes.last());
        assert(before.push(changes.last()) =~= changes);
    }
}

/// A list that is in descending order already is left as it is: changes that
/// start alike are not moved past each other.
pub proof fn lemma_sorted_stays(changes: Seq<Change>)
    requires
        descending(changes),
    ensures
        by_descending_start(changes) == changes,
    decreases changes.len(),
{
    if changes.len() != 0 {
        lemma_sorted_stays(changes.drop_last());
    }
}

/// Two lists in descending order that hold the same changes, no two of which
/// start alike, are one list.
proof fn lemma_descending_is_unique(one: Seq<Change>, other: Seq<Change>)
    requires
        one.to_multiset() == other.to_multiset(),
        descending(one),
        descending(other),
        starts_differ(one),
    ensures
        one == other,
    decreases one.len(),
{
    one.to_multiset_ensures();
    other.to_multiset_ensures();
    if one.len() != 0 {
        // Each list holds the last change of the other, and no change of a
        // list starts before its last: the two end with the same change.
        let last = one.last();
        assert(one.to_multiset().count(last) > 0);
        assert(other.to_multiset().count(other.last()) > 0);
        assert(other.last() == last);
        let shorter = one.drop_last();
        let shorter_other = other.drop_last();
        to_multiset_build(shorter, last);
        to_multiset_build(shorter_other, last);
        assert(shorter.push(last) =~= one);
        assert(shorter_other.push(last) =~= other);
        assert(shorter.to_multiset() =~= one.to_multiset().remove(last));
        assert(shorter_other.to_multiset() =~= other.to_multiset().remove(last));
        assert(descending(shorter) && descending(shorter_other) && starts_differ(shorter));
        lemma_descending_is_unique(shorter, shorter_other);
    }
}

/// Two lists that hold the same changes, no two of which start alike, are
/// sorted into one list.
pub proof fn lemma_sorted_whatever_the_order(given: Seq<Change>, other: Seq<Change>)
    requires
        given.to_multiset() == other.to_multiset(),
        starts_differ(given),
    ensures
        by_descending_start(given) == by_descending_start(other),
{
    lemma_sorted_holds_the_same(given);
    lemma_sorted_holds_the_same(other);
    lemma_sorted_descending(given);
    lemma_sorted_descending(other);
    lemma_sorted_starts_differ(given);
    lemma_descending_is_unique(by_descending_start(given), by_descending_start(other));
}

/// Putting in a change that starts where no change of the list does leaves
/// no two that start alike.
proof fn lemma_put_in_starts_differ(sorted: Seq<Change>, change: Change)
    requires
        starts_differ(sorted),
        forall|i: int| 0 <= i < sorted.len() ==> (#[trigger] sorted[i]).start() != change.start(),
    ensures
        starts_differ(put_in(sorted, change)),
    decreases sorted.len(),
{
    if sorted.len() != 0 && sorted.last().start() < change.start() {
        let before = sorted.drop_last();
        let last = sorted.last();
        assert(starts_differ(before));
        lemma_put_in_starts_differ(before, change);
        lemma_put_in_keeps(before, change, |c: Change| c.start() != last.start());
    }
}

/// Sorting changes of which no two start alike leaves no two that start
/// alike.
proof fn lemma_sorted_starts_differ(changes: Seq<Change>)
    requires
        starts_differ(changes),
    ensures
        starts_differ(by_descending_start(changes)),
    decreases changes.len(),
{
    if changes.len() != 0 {
        let before = changes.drop_last();
        let last = changes.last();
        assert(starts_differ(before));
        lemma_sorted_starts_differ(before);
        lemma_sorting_keeps(before, |c: Change| c.start() != last.start());
        lemma_put_in_starts_differ(by_descending_start(before), last);
    }
}

} // verus!
