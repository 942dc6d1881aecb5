//! Counts of id pairs, priorities of id pairs, and sets of positions by id pair.

use crate::collections::count_entries;
use crate::collections::counts_entry_at;
use crate::collections::counts_get;
use crate::collections::counts_insert;
use crate::collections::counts_len;
use crate::collections::distinct_keys;
use crate::collections::has_key;
use crate::collections::items_appended;
use crate::collections::location_entries;
use crate::collections::locations_entry_at;
use crate::collections::locations_index_of;
use crate::collections::locations_insert;
use crate::collections::locations_len;
use crate::collections::locations_new;
use crate::collections::locations_set_at_mut;
use crate::collections::locations_swap_remove;
use crate::collections::priorities;
use crate::collections::priority_of;
use crate::collections::queue_get;
use crate::collections::queue_push;
use crate::collections::queue_remove;
use crate::collections::set_append;
use crate::collections::set_insert;
use crate::collections::set_items;
use crate::collections::set_item_at;
use crate::collections::set_len;
use crate::collections::set_new;
use crate::collections::set_swap_remove;
use crate::token::IdPair;
use indexmap::IndexMap;
use indexmap::IndexSet;
use keyed_priority_queue::KeyedPriorityQueue;
use vstd::prelude::*;

verus! {

/// The position of the entry stored under `key`, where there is one.
pub open spec fn position_of<V>(entries: Seq<(IdPair, V)>, key: IdPair) -> int {
    choose|i: int| 0 <= i < entries.len() && (#[trigger] entries[i]).0 == key
}

/// The entries after `amount` was added to the count of `key`: an entry under
/// `key` keeps its place, a new one goes last.
pub open spec fn bumped(entries: Seq<(IdPair, usize)>, key: IdPair, amount: usize) -> Seq<
    (IdPair, usize),
> {
    if has_key(entries, key) {
        let i = position_of(entries, key);
        entries.update(i, (key, (entries[i].1 + amount) as usize))
    } else {
        entries.push((key, amount))
    }
}

/// The count stored under `key`, or zero.
pub open spec fn count_of(entries: Seq<(IdPair, usize)>, key: IdPair) -> nat {
    if has_key(entries, key) {
        entries[position_of(entries, key)].1 as nat
    } else {
        0
    }
}

/// The entries after every entry of `more` was added, in order.
pub open spec fn sum_of_counts(entries: Seq<(IdPair, usize)>, more: Seq<(IdPair, usize)>) -> Seq<
    (IdPair, usize),
>
    decreases more.len(),
{
    if more.len() == 0 {
        entries
    } else {
        bumped(sum_of_counts(entries, more.drop_last()), more.last().0, more.last().1)
    }
}

/// With distinct keys an entry is found at its own position.
pub proof fn lemma_position_of<V>(entries: Seq<(IdPair, V)>, i: int)
    requires
        distinct_keys(entries),
        0 <= i < entries.len(),
    ensures
        has_key(entries, entries[i].0),
        position_of(entries, entries[i].0) == i,
{
    let key = entries[i].0;
    let j = position_of(entries, key);
    if i < j {
        assert(entries[i].0 != entries[j].0);
    } else if j < i {
        assert(entries[j].0 != entries[i].0);
    }
}

/// Adding to a count keeps the keys distinct and changes only that count.
pub proof fn lemma_bumped(entries: Seq<(IdPair, usize)>, key: IdPair, amount: usize)
    requires
        distinct_keys(entries),
        count_of(entries, key) + amount <= usize::MAX,
    ensures
        distinct_keys(bumped(entries, key, amount)),
        count_of(bumped(entries, key, amount), key) == count_of(entries, key) + amount,
        forall|other: IdPair|
            other != key ==> #[trigger] count_of(bumped(entries, key, amount), other) == count_of(
                entries,
                other,
            ),
        forall|other: IdPair|
            #[trigger] has_key(bumped(entries, key, amount), other) <==> (other == key || has_key(
                entries,
                other,
            )),
{
    let after = bumped(entries, key, amount);
    if has_key(entries, key) {
        let i = position_of(entries, key);
        assert forall|a: int, b: int| 0 <= a < b < after.len() implies (#[trigger] after[a]).0 != (
        #[trigger] after[b]).0 by {
            assert(entries[a].0 != entries[b].0);
        }
        lemma_position_of(after, i);
        assert forall|other: IdPair| other != key implies #[trigger] count_of(after, other)
            == count_of(entries, other) by {
            if has_key(entries, other) {
                let j = position_of(entries, other);
                assert(after[j].0 == other);
                lemma_position_of(after, j);
            } else if has_key(after, other) {
                let j = position_of(after, other);
                assert(entries[j].0 == other);
            }
        }
        assert forall|other: IdPair| #[trigger] has_key(after, other) <==> (other == key || has_key(
            entries,
            other,
        )) by {
            if has_key(after, other) {
                let j = position_of(after, other);
                assert(entries[j].0 == other);
            }
            if has_key(entries, other) {
                let j = position_of(entries, other);
                assert(after[j].0 == other);
            }
        }
    } else {
        let n = entries.len() as int;
        assert forall|a: int, b: int| 0 <= a < b < after.len() implies (#[trigger] after[a]).0 != (
        #[trigger] after[b]).0 by {
            if b == n {
                assert(entries[a].0 != key);
            } else {
                assert(entries[a].0 != entries[b].0);
            }
        }
        assert(after[n].0 == key);
        lemma_position_of(after, n);
        assert forall|other: IdPair| other != key implies #[trigger] count_of(after, other)
            == count_of(entries, other) by {
            if has_key(entries, other) {
                let j = position_of(entries, other);
                assert(after[j].0 == other);
                lemma_position_of(after, j);
            } else if has_key(after, other) {
                let j = position_of(after, other);
                assert(entries[j].0 == other);
            }
        }
        assert forall|other: IdPair| #[trigger] has_key(after, other) <==> (other == key || has_key(
            entries,
            other,
        )) by {
            if has_key(after, other) {
                let j = position_of(after, other);
                if j < n {
                    assert(entries[j].0 == other);
                }
            }
            if has_key(entries, other) {
                let j = position_of(entries, other);
                assert(after[j].0 == other);
            }
        }
    }
}

/// Adds `amount` to the count of `key`; a key that is not there yet enters last
/// with count `amount`.
fn add_count(acc: &mut IndexMap<IdPair, usize>, key: IdPair, amount: usize)
    requires
        distinct_keys(count_entries(*old(acc))),
        count_of(count_entries(*old(acc)), key) + amount <= usize::MAX,
    ensures
        count_entries(*final(acc)) == bumped(count_entries(*old(acc)), key, amount),
        distinct_keys(count_entries(*final(acc))),
{
    let ghost before = count_entries(*acc);
    let found = counts_get(acc, key);
    proof {
        if found is Some {
            let i = choose|i: int| 0 <= i < before.len() && #[trigger] before[i] == (key, found->0);
            lemma_position_of(before, i);
        }
        lemma_bumped(before, key, amount);
    }
    let replaced = match found {
        Some(count) => counts_insert(acc, key, count + amount),
        None => counts_insert(acc, key, amount),
    };
    proof {
        if replaced is Some {
            let i = choose|i: int|
                0 <= i < before.len() && #[trigger] before[i] == (key, replaced->0)
                    && count_entries(*acc) == before.update(
                    i,
                    (key, if found is Some { (found->0 + amount) as usize } else { amount }),
                );
            lemma_position_of(before, i);
        }
    }
}

/// Adds one to the count of `key`.
pub fn increment(acc: &mut IndexMap<IdPair, usize>, key: IdPair)
    requires
        distinct_keys(count_entries(*old(acc))),
        count_of(count_entries(*old(acc)), key) < usize::MAX,
    ensures
        count_entries(*final(acc)) == bumped(count_entries(*old(acc)), key, 1),
        distinct_keys(count_entries(*final(acc))),
{
    add_count(acc, key, 1);
}

/// Adds every count of `x` to the count that `acc` holds under the same key,
/// in the order of `x`; keys that `acc` does not hold yet enter last.
pub fn add_to_counts(acc: &mut IndexMap<IdPair, usize>, x: &IndexMap<IdPair, usize>)
    requires
        distinct_keys(count_entries(*old(acc))),
        distinct_keys(count_entries(*x)),
        forall|key: IdPair|
            count_of(count_entries(*old(acc)), key) + #[trigger] count_of(count_entries(*x), key)
                <= usize::MAX,
    ensures
        count_entries(*final(acc)) == sum_of_counts(count_entries(*old(acc)), count_entries(*x)),
        distinct_keys(count_entries(*final(acc))),
{
    let ghost before = count_entries(*acc);
    let ghost more = count_entries(*x);
    let n = counts_len(x);
    let mut i: usize = 0;
    assert(more.take(0) =~= Seq::<(IdPair, usize)>::empty());
    while i < n
        invariant
            n == more.len(),
            more == count_entries(*x),
            i <= n,
            distinct_keys(more),
            distinct_keys(count_entries(*acc)),
            count_entries(*acc) == sum_of_counts(before, more.take(i as int)),
            forall|key: IdPair|
                count_of(before, key) + #[trigger] count_of(more, key) <= usize::MAX,
            forall|key: IdPair|
                !has_key(more.take(i as int), key) ==> #[trigger] count_of(count_entries(*acc), key)
                    == count_of(before, key),
        decreases n - i,
    {
        let entry = counts_entry_at(x, i);
        let (key, count) = entry.unwrap();
        let ghost current = count_entries(*acc);
        proof {
            lemma_position_of(more, i as int);
            assert(count_of(more, key) == count);
            assert(!has_key(more.take(i as int), key)) by {
                if has_key(more.take(i as int), key) {
                    let j = position_of(more.take(i as int), key);
                    assert(more[j].0 == more[i as int].0);
                }
            }
            lemma_bumped(current, key, count);
            assert(more.take(i + 1).drop_last() =~= more.take(i as int));
            assert(more.take(i + 1).last() == more[i as int]);
        }
        add_count(acc, key, count);
        proof {
            assert forall|other: IdPair| !has_key(more.take(i + 1), other) implies #[trigger] count_of(
                count_entries(*acc),
                other,
            ) == count_of(before, other) by {
                assert(other != key) by {
                    if other == key {
                        assert(more.take(i + 1)[i as int].0 == key);
                    }
                }
                if has_key(more.take(i as int), other) {
                    let j = position_of(more.take(i as int), other);
                    assert(more.take(i + 1)[j].0 == other);
                }
            }
        }
        i = i + 1;
    }
    assert(more.take(n as int) =~= more);
}

// ---------------------------------------------------------------------------
// Priorities
// ---------------------------------------------------------------------------

/// Why the priorities could not be lowered.
#[derive(Clone, Copy, Debug, PartialEq, Eq, Structural)]
pub enum PriorityError {
    /// A priority was to be lowered by more than it holds.
    Overdrawn,
    /// A priority was to be lowered for a key that has none.
    Absent,
}

impl PriorityError {
    /// The cause in words, as a sequence of characters.
    pub open spec fn text(self) -> Seq<char> {
        match self {
            PriorityError::Overdrawn => "overdrawn priority"@,
            PriorityError::Absent => "decreasing absent priority"@,
        }
    }

    /// The cause in words.
    pub fn message(&self) -> (text: &'static str)
        ensures
            text@ == self.text(),
    {
        match self {
            PriorityError::Overdrawn => "overdrawn priority",
            PriorityError::Absent => "decreasing absent priority",
        }
    }
}

/// The priorities after `amount` was added to the priority of `key`; a key
/// without a priority starts from none.
pub open spec fn raised(p: Map<IdPair, usize>, key: IdPair, amount: usize) -> Map<IdPair, usize> {
    match priority_of(p, key) {
        Some(current) => p.insert(key, (current + amount) as usize),
        None => p.insert(key, amount),
    }
}

/// The priorities after every item of `items` was added, in order.
pub open spec fn raised_all(p: Map<IdPair, usize>, items: Seq<(IdPair, usize)>) -> Map<
    IdPair,
    usize,
>
    decreases items.len(),
{
    if items.len() == 0 {
        p
    } else {
        raised(raised_all(p, items.drop_last()), items.last().0, items.last().1)
    }
}

/// Every addition of `items` to the priorities, in order, fits the priority type.
pub open spec fn can_raise_all(p: Map<IdPair, usize>, items: Seq<(IdPair, usize)>) -> bool
    decreases items.len(),
{
    if items.len() == 0 {
        true
    } else {
        &&& can_raise_all(p, items.drop_last())
        &&& match priority_of(raised_all(p, items.drop_last()), items.last().0) {
            Some(current) => current + items.last().1 <= usize::MAX,
            None => true,
        }
    }
}

/// The priorities after `amount` was taken from the priority of `key`. A priority
/// that reaches zero leaves the queue. A key without a priority, or with less
/// than `amount`, is an error; an overdrawn key leaves the queue.
pub open spec fn lowered(p: Map<IdPair, usize>, key: IdPair, amount: usize) -> Result<
    Map<IdPair, usize>,
    PriorityError,
> {
    match priority_of(p, key) {
        Some(current) => if current > amount {
            Ok(p.insert(key, (current - amount) as usize))
        } else if current == amount {
            Ok(p.remove(key))
        } else {
            Err(PriorityError::Overdrawn)
        },
        None => Err(PriorityError::Absent),
    }
}

/// The priorities after every item of `items` was taken, in order, or the
/// first error on the way.
pub open spec fn lowered_all(p: Map<IdPair, usize>, items: Seq<(IdPair, usize)>) -> Result<
    Map<IdPair, usize>,
    PriorityError,
>
    decreases items.len(),
{
    if items.len() == 0 {
        Ok(p)
    } else {
        match lowered_all(p, items.drop_last()) {
            Ok(q) => lowered(q, items.last().0, items.last().1),
            Err(e) => Err(e),
        }
    }
}

/// The priorities that an attempt to take `amount` from the priority of
/// `key` leaves behind, whether it succeeds or not.
pub open spec fn lowering_left(p: Map<IdPair, usize>, key: IdPair, amount: usize) -> Map<
    IdPair,
    usize,
> {
    match priority_of(p, key) {
        Some(current) => if current > amount {
            p.insert(key, (current - amount) as usize)
        } else {
            p.remove(key)
        },
        None => p,
    }
}

/// The priorities that an attempt to take every item of `items`, in order,
/// leaves behind: it stops at the first item that fails.
pub open spec fn lowering_left_all(p: Map<IdPair, usize>, items: Seq<(IdPair, usize)>) -> Map<
    IdPair,
    usize,
>
    decreases items.len(),
{
    if items.len() == 0 {
        p
    } else {
        match lowered_all(p, items.drop_last()) {
            Ok(q) => lowering_left(q, items.last().0, items.last().1),
            Err(_) => lowering_left_all(p, items.drop_last()),
        }
    }
}

/// The sizes of the sets of a [`MappedSets`], key by key, in its order.
pub struct Lengths {
    items: Vec<(IdPair, usize)>,
    position: usize,
}

impl View for Lengths {
    type V = Seq<(IdPair, usize)>;

    /// The items that are still to come.
    closed spec fn view(&self) -> Seq<(IdPair, usize)> {
        if self.position <= self.items@.len() {
            self.items@.skip(self.position as int)
        } else {
            Seq::empty()
        }
    }
}

impl Lengths {
    /// The next item, if any is left.
    pub fn next(&mut self) -> (r: Option<(IdPair, usize)>)
        ensures
            match r {
                Some(item) => old(self)@.len() > 0 && item == old(self)@[0] && final(self)@ == old(
                    self,
                )@.drop_first(),
                None => old(self)@.len() == 0 && final(self)@ == old(self)@,
            },
    {
        if self.position < self.items.len() {
            let item = self.items[self.position];
            assert(self.items@.skip(self.position as int).drop_first() =~= self.items@.skip(
                self.position + 1,
            ));
            self.position = self.position + 1;
            Some(item)
        } else {
            None
        }
    }
}

/// Adds each length to the priority of its key; a key that has no priority
/// yet enters the queue with its length.
pub fn increase_priorities(acc: &mut KeyedPriorityQueue<IdPair, usize>, iterable: Lengths)
    requires
        can_raise_all(priorities(*old(acc)), iterable@),
    ensures
        priorities(*final(acc)) == raised_all(priorities(*old(acc)), iterable@),
{
    let ghost start = priorities(*acc);
    let ghost items = iterable@;
    let ghost mut done: int = 0;
    let mut rest = iterable;
    assert(items.take(0) =~= Seq::<(IdPair, usize)>::empty());
    assert(items.skip(0) =~= items);
    loop
        invariant_except_break
            0 <= done <= items.len(),
            rest@ == items.skip(done),
            can_raise_all(start, items),
            priorities(*acc) == raised_all(start, items.take(done)),
        ensures
            priorities(*acc) == raised_all(start, items),
        decreases items.len() - done,
    {
        match rest.next() {
            Some((key, value)) => {
                proof {
                    assert(items.skip(done)[0] == items[done]);
                    assert(items.take(done + 1).drop_last() =~= items.take(done));
                    assert(items.take(done + 1).last() == items[done]);
                    lemma_can_raise_prefix(start, items, done + 1);
                    assert(items.skip(done).drop_first() =~= items.skip(done + 1));
                }
                match queue_get(acc, key) {
                    Some(current) => {
                        queue_push(acc, key, current + value);
                    },
                    None => {
                        queue_push(acc, key, value);
                    },
                }
                proof {
                    done = done + 1;
                }
            },
            None => {
                assert(items.take(done) =~= items);
                break ;
            },
        }
    }
}

/// What fits for all items fits for the first few.
pub proof fn lemma_can_raise_prefix(p: Map<IdPair, usize>, items: Seq<(IdPair, usize)>, n: int)
    requires
        can_raise_all(p, items),
        0 <= n <= items.len(),
    ensures
        can_raise_all(p, items.take(n)),
    decreases items.len(),
{
    if n == items.len() {
        assert(items.take(n) =~= items);
    } else {
        assert(items.drop_last().take(n) =~= items.take(n));
        lemma_can_raise_prefix(p, items.drop_last(), n);
    }
}

/// Takes each length from the priority of its key; a priority that reaches
/// zero leaves the queue. Stops at the first key that has no priority or less
/// than its length; an overdrawn key leaves the queue.
pub fn decrease_priorities(acc: &mut KeyedPriorityQueue<IdPair, usize>, iterable: Lengths) -> (r:
    Result<(), PriorityError>)
    ensures
        match r {
            Ok(()) => lowered_all(priorities(*old(acc)), iterable@) == Ok::<
                Map<IdPair, usize>,
                PriorityError,
            >(priorities(*final(acc))),
            Err(e) => lowered_all(priorities(*old(acc)), iterable@) == Err::<
                Map<IdPair, usize>,
                PriorityError,
            >(e),
        },
        priorities(*final(acc)) == lowering_left_all(priorities(*old(acc)), iterable@),
{
    let ghost start = priorities(*acc);
    let ghost items = iterable@;
    let ghost mut done: int = 0;
    let mut rest = iterable;
    let mut outcome: Result<(), PriorityError> = Ok(());
    assert(items.take(0) =~= Seq::<(IdPair, usize)>::empty());
    assert(items.skip(0) =~= items);
    loop
        invariant_except_break
            0 <= done <= items.len(),
            rest@ == items.skip(done),
            lowered_all(start, items.take(done)) == Ok::<Map<IdPair, usize>, PriorityError>(
                priorities(*acc),
            ),
            priorities(*acc) == lowering_left_all(start, items.take(done)),
        ensures
            match outcome {
                Ok(()) => lowered_all(start, items) == Ok::<Map<IdPair, usize>, PriorityError>(
                    priorities(*acc),
                ),
                Err(e) => lowered_all(start, items) == Err::<Map<IdPair, usize>, PriorityError>(e),
            },
            priorities(*acc) == lowering_left_all(start, items),
        decreases items.len() - done,
    {
        let ghost before = priorities(*acc);
        match rest.next() {
            Some((key, value)) => {
                proof {
                    assert(items.skip(done)[0] == items[done]);
                    assert(items.take(done + 1).drop_last() =~= items.take(done));
                    assert(items.take(done + 1).last() == items[done]);
                    assert(items.skip(done).drop_first() =~= items.skip(done + 1));
                    assert(lowered_all(start, items.take(done + 1)) == lowered(before, key, value));
                }
                match queue_get(acc, key) {
                    Some(current) => {
                        if current > value {
                            queue_push(acc, key, current - value);
                        } else if current == value {
                            queue_remove(acc, key);
                        } else {
                            queue_remove(acc, key);
                            proof {
                                lemma_lowered_error(start, items, done + 1);
                            }
                            outcome = Err(PriorityError::Overdrawn);
                            break ;
                        }
                    },
                    None => {
                        proof {
                            lemma_lowered_error(start, items, done + 1);
                        }
                        outcome = Err(PriorityError::Absent);
                        break ;
                    },
                }
                proof {
                    done = done + 1;
                }
            },
            None => {
                assert(items.take(done) =~= items);
                outcome = Ok(());
                break ;
            },
        }
    }
    outcome
}

/// An error among the first few items is the error of all items.
pub proof fn lemma_lowered_error(p: Map<IdPair, usize>, items: Seq<(IdPair, usize)>, n: int)
    requires
        0 <= n <= items.len(),
        lowered_all(p, items.take(n)) is Err,
    ensures
        lowered_all(p, items) == lowered_all(p, items.take(n)),
        lowering_left_all(p, items) == lowering_left_all(p, items.take(n)),
    decreases items.len(),
{
    if n == items.len() {
        assert(items.take(n) =~= items);
    } else {
        assert(items.drop_last().take(n) =~= items.take(n));
        lemma_lowered_error(p, items.drop_last(), n);
    }
}

// ---------------------------------------------------------------------------
// Sets of positions by id pair
// ---------------------------------------------------------------------------

/// Ordered entries of sets of positions, each set by its ordered items.
pub type SetEntries = Seq<(IdPair, Seq<usize>)>;

/// The place of `value` among `items`, where it is there.
pub open spec fn item_position(items: Seq<usize>, value: usize) -> int {
    choose|j: int| 0 <= j < items.len() && items[j] == value
}

/// The items after `value` was removed by swapping: its place is taken by
/// the last item.
pub open spec fn without_item(items: Seq<usize>, value: usize) -> Seq<usize> {
    if items.contains(value) {
        items.update(item_position(items, value), items.last()).drop_last()
    } else {
        items
    }
}

/// The items after every item of `gone` was removed by swapping, in order.
pub open spec fn without_items(items: Seq<usize>, gone: Seq<usize>) -> Seq<usize>
    decreases gone.len(),
{
    if gone.len() == 0 {
        items
    } else {
        without_item(without_items(items, gone.drop_last()), gone.last())
    }
}

/// The entries after `value` entered the set of `key`; a key that is not
/// there yet enters last with a set of `value` alone.
pub open spec fn with_location(entries: SetEntries, key: IdPair, value: usize) -> SetEntries {
    if has_key(entries, key) {
        let i = position_of(entries, key);
        if entries[i].1.contains(value) {
            entries
        } else {
            entries.update(i, (key, entries[i].1.push(value)))
        }
    } else {
        entries.push((key, seq![value]))
    }
}

/// The entries after every pair of `more` entered, in order.
pub open spec fn with_locations(entries: SetEntries, more: Seq<(IdPair, usize)>) -> SetEntries
    decreases more.len(),
{
    if more.len() == 0 {
        entries
    } else {
        with_location(with_locations(entries, more.drop_last()), more.last().0, more.last().1)
    }
}

/// The entries after the items of `set` entered the set of `key`; a key that
/// is not there yet enters last with `set`.
pub open spec fn with_set(entries: SetEntries, key: IdPair, set: Seq<usize>) -> SetEntries {
    if has_key(entries, key) {
        let i = position_of(entries, key);
        entries.update(i, (key, items_appended(entries[i].1, set)))
    } else {
        entries.push((key, set))
    }
}

/// The entries after every set of `more` entered, in order.
pub open spec fn merged_in(entries: SetEntries, more: SetEntries) -> SetEntries
    decreases more.len(),
{
    if more.len() == 0 {
        entries
    } else {
        with_set(merged_in(entries, more.drop_last()), more.last().0, more.last().1)
    }
}

/// The entries after `key` left by swapping: its place is taken by the last entry.
pub open spec fn without_key(entries: SetEntries, key: IdPair) -> SetEntries {
    if has_key(entries, key) {
        entries.update(position_of(entries, key), entries.last()).drop_last()
    } else {
        entries
    }
}

/// The entries after the items of `gone` left the set of `key`; a set that
/// is left empty leaves with its key.
pub open spec fn without_set(entries: SetEntries, key: IdPair, gone: Seq<usize>) -> SetEntries {
    if has_key(entries, key) {
        let i = position_of(entries, key);
        let left = without_items(entries[i].1, gone);
        if left.len() == 0 {
            without_key(entries, key)
        } else {
            entries.update(i, (key, left))
        }
    } else {
        entries
    }
}

/// The entries after every set of `gone` left, in order.
pub open spec fn taken_out(entries: SetEntries, gone: SetEntries) -> SetEntries
    decreases gone.len(),
{
    if gone.len() == 0 {
        entries
    } else {
        without_set(taken_out(entries, gone.drop_last()), gone.last().0, gone.last().1)
    }
}

/// The size of each set, key by key.
pub open spec fn lengths_of(entries: SetEntries) -> Seq<(IdPair, usize)> {
    Seq::new(entries.len(), |i: int| (entries[i].0, entries[i].1.len() as usize))
}

/// No key and no item of a set occurs twice.
pub open spec fn sets_wf(entries: SetEntries) -> bool {
    &&& distinct_keys(entries)
    &&& forall|i: int| 0 <= i < entries.len() ==> (#[trigger] entries[i]).1.no_duplicates()
}

/// The set of `key` holds `value`.
pub open spec fn holds(entries: SetEntries, key: IdPair, value: usize) -> bool {
    exists|i: int|
        0 <= i < entries.len() && (#[trigger] entries[i]).0 == key && entries[i].1.contains(value)
}

/// Without duplicates an item is found at its own place.
pub proof fn lemma_item_position(items: Seq<usize>, j: int)
    requires
        items.no_duplicates(),
        0 <= j < items.len(),
    ensures
        items.contains(items[j]),
        item_position(items, items[j]) == j,
{
}

/// Removing an item keeps the others, once each.
pub proof fn lemma_without_item(items: Seq<usize>, value: usize)
    requires
        items.no_duplicates(),
    ensures
        without_item(items, value).no_duplicates(),
        forall|other: usize|
            #[trigger] without_item(items, value).contains(other) <==> (other != value
                && items.contains(other)),
{
    let after = without_item(items, value);
    if items.contains(value) {
        let j = item_position(items, value);
        let last = items.len() - 1;
        assert forall|a: int, b: int| 0 <= a < after.len() && 0 <= b < after.len() && a != b implies after[a]
            != after[b] by {
            let source_a = if a == j { last } else { a };
            let source_b = if b == j { last } else { b };
            assert(after[a] == items[source_a] && after[b] == items[source_b]);
        }
        assert forall|other: usize| #[trigger] after.contains(other) <==> (other != value
            && items.contains(other)) by {
            if after.contains(other) {
                let a = choose|a: int| 0 <= a < after.len() && after[a] == other;
                let source = if a == j { last } else { a };
                assert(items[source] == other);
            }
            if other != value && items.contains(other) {
                let b = choose|b: int| 0 <= b < items.len() && items[b] == other;
                if b == last {
                    assert(after[j] == other);
                } else {
                    assert(after[b] == other);
                }
            }
        }
    } else {
        assert forall|other: usize| #[trigger] after.contains(other) <==> (other != value
            && items.contains(other)) by {}
    }
}

/// Removing items keeps the others, once each.
pub proof fn lemma_without_items(items: Seq<usize>, gone: Seq<usize>)
    requires
        items.no_duplicates(),
    ensures
        without_items(items, gone).no_duplicates(),
        forall|other: usize|
            #[trigger] without_items(items, gone).contains(other) <==> (!gone.contains(other)
                && items.contains(other)),
    decreases gone.len(),
{
    if gone.len() > 0 {
        let front = without_items(items, gone.drop_last());
        lemma_without_items(items, gone.drop_last());
        lemma_without_item(front, gone.last());
        assert forall|other: usize| #[trigger] without_items(items, gone).contains(other) <==> (
        !gone.contains(other) && items.contains(other)) by {
            assert(without_item(front, gone.last()).contains(other) <==> (other != gone.last()
                && front.contains(other)));
            if gone.contains(other) {
                let k = choose|k: int| 0 <= k < gone.len() && gone[k] == other;
                if k < gone.len() - 1 {
                    assert(gone.drop_last()[k] == other);
                }
            }
            if gone.drop_last().contains(other) {
                let k = choose|k: int| 0 <= k < gone.drop_last().len() && gone.drop_last()[k] == other;
                assert(gone[k] == other);
            }
            if other == gone.last() {
                assert(gone[gone.len() - 1] == other);
            }
        }
    }
}

/// Appending items keeps the old ones and adds the new ones, once each.
pub proof fn lemma_items_appended(a: Seq<usize>, b: Seq<usize>)
    requires
        a.no_duplicates(),
    ensures
        items_appended(a, b).no_duplicates(),
        forall|other: usize|
            #[trigger] items_appended(a, b).contains(other) <==> (a.contains(other) || b.contains(
                other,
            )),
        a.len() <= items_appended(a, b).len() <= a.len() + b.len(),
    decreases b.len(),
{
    if b.len() > 0 {
        let front = items_appended(a, b.drop_last());
        lemma_items_appended(a, b.drop_last());
        let after = items_appended(a, b);
        assert forall|other: usize| #[trigger] after.contains(other) <==> (a.contains(other)
            || b.contains(other)) by {
            assert(front.contains(other) <==> (a.contains(other) || b.drop_last().contains(other)));
            if b.contains(other) {
                let k = choose|k: int| 0 <= k < b.len() && b[k] == other;
                if k < b.len() - 1 {
                    assert(b.drop_last()[k] == other);
                }
            }
            if b.drop_last().contains(other) {
                let k = choose|k: int| 0 <= k < b.drop_last().len() && b.drop_last()[k] == other;
                assert(b[k] == other);
            }
            if other == b.last() {
                assert(b[b.len() - 1] == other);
            }
            if !front.contains(b.last()) {
                assert(after =~= front.push(b.last()));
                if after.contains(other) {
                    let k = choose|k: int| 0 <= k < after.len() && after[k] == other;
                    if k < front.len() {
                        assert(front[k] == other);
                    }
                }
                if front.contains(other) {
                    let k = choose|k: int| 0 <= k < front.len() && front[k] == other;
                    assert(after[k] == other);
                }
                assert(after[front.len() as int] == b.last());
            }
        }
    }
}

/// Appending to nothing gives the items themselves where none occurs twice.
pub proof fn lemma_appended_to_empty(b: Seq<usize>)
    requires
        b.no_duplicates(),
    ensures
        items_appended(Seq::<usize>::empty(), b) == b,
    decreases b.len(),
{
    if b.len() > 0 {
        lemma_appended_to_empty(b.drop_last());
        assert(b.drop_last().no_duplicates());
        let front = b.drop_last();
        assert(!front.contains(b.last())) by {
            if front.contains(b.last()) {
                let k = choose|k: int| 0 <= k < front.len() && front[k] == b.last();
                assert(b[k] == b[b.len() - 1]);
            }
        }
        assert(front.push(b.last()) =~= b);
    } else {
        assert(items_appended(Seq::<usize>::empty(), b) =~= b);
    }
}

/// Sets of positions by id pair, in the order in which the pairs entered.
pub struct MappedSets(IndexMap<IdPair, IndexSet<usize>>);

impl View for MappedSets {
    type V = SetEntries;

    /// The entries in order, each set by its items in order.
    closed spec fn view(&self) -> SetEntries {
        location_entries(self.0)
    }
}

impl MappedSets {
    /// Well-formedness: no key and no item of a set occurs twice.
    pub open spec fn wf(&self) -> bool {
        sets_wf(self@)
    }

    /// No sets.
    pub fn new() -> (sets: MappedSets)
        ensures
            sets.wf(),
            sets@.len() == 0,
    {
        MappedSets(locations_new())
    }

    /// The size of each set, key by key.
    pub fn lengths(&self) -> (lengths: Lengths)
        ensures
            lengths@ == lengths_of(self@),
    {
        let n = locations_len(&self.0);
        let mut items: Vec<(IdPair, usize)> = Vec::new();
        let mut i: usize = 0;
        while i < n
            invariant
                n == self@.len(),
                i <= n,
                items@.len() == i,
                forall|k: int|
                    0 <= k < i ==> #[trigger] items@[k] == (self@[k].0, self@[k].1.len() as usize),
            decreases n - i,
        {
            let (key, set) = locations_entry_at(&self.0, i).unwrap();
            items.push((key, set_len(set)));
            i = i + 1;
        }
        let lengths = Lengths { items, position: 0 };
        assert(lengths@ =~= lengths_of(self@));
        lengths
    }

    /// Puts `value` into the set of `key`.
    pub fn insert(&mut self, key: IdPair, value: usize)
        requires
            old(self).wf(),
        ensures
            final(self).wf(),
            final(self)@ == with_location(old(self)@, key, value),
    {
        let ghost before = self@;
        match locations_index_of(&self.0, key) {
            Some(i) => {
                proof {
                    lemma_position_of(before, i as int);
                }
                let set = locations_set_at_mut(&mut self.0, i);
                set_insert(set, value);
                proof {
                    if before[i as int].1.contains(value) {
                        assert(self@ =~= before);
                    }
                    lemma_with_location(before, key, value);
                }
            },
            None => {
                let mut set = set_new();
                set_insert(&mut set, value);
                assert(set_items(set) =~= seq![value]);
                let replaced = locations_insert(&mut self.0, key, set);
                proof {
                    lemma_with_location(before, key, value);
                }
            },
        }
    }

    /// Puts every pair of `more` into the set of its key, in order.
    pub fn extend(&mut self, more: &Vec<(IdPair, usize)>)
        requires
            old(self).wf(),
        ensures
            final(self).wf(),
            final(self)@ == with_locations(old(self)@, more@),
    {
        let ghost before = self@;
        let n = more.len();
        let mut i: usize = 0;
        assert(more@.take(0) =~= Seq::<(IdPair, usize)>::empty());
        while i < n
            invariant
                n == more@.len(),
                i <= n,
                self.wf(),
                self@ == with_locations(before, more@.take(i as int)),
            decreases n - i,
        {
            let (key, value) = more[i];
            proof {
                assert(more@.take(i + 1).drop_last() =~= more@.take(i as int));
                assert(more@.take(i + 1).last() == more@[i as int]);
            }
            self.insert(key, value);
            i = i + 1;
        }
        assert(more@.take(n as int) =~= more@);
    }

    /// The sets that hold the pairs of `more`.
    pub fn from_iter(more: &Vec<(IdPair, usize)>) -> (sets: MappedSets)
        ensures
            sets.wf(),
            sets@ == with_locations(Seq::<(IdPair, Seq<usize>)>::empty(), more@),
    {
        let mut sets = MappedSets::new();
        assert(sets@ =~= Seq::<(IdPair, Seq<usize>)>::empty());
        sets.extend(more);
        sets
    }

    /// Takes the set of `key` out, if there is one; the last entry takes its place.
    pub fn take(&mut self, key: IdPair) -> (set: Option<IndexSet<usize>>)
        requires
            old(self).wf(),
        ensures
            final(self).wf(),
            final(self)@ == without_key(old(self)@, key),
            match set {
                Some(s) => has_key(old(self)@, key) && set_items(s) == old(self)@[position_of(
                    old(self)@,
                    key,
                )].1 && set_items(s).no_duplicates(),
                None => !has_key(old(self)@, key),
            },
    {
        let ghost before = self@;
        let removed = locations_swap_remove(&mut self.0, key);
        proof {
            if removed is Some {
                let i = choose|i: int|
                    0 <= i < before.len() && #[trigger] before[i] == (key, set_items(removed->0))
                        && self@ == before.update(i, before.last()).drop_last();
                lemma_position_of(before, i);
            }
            lemma_without_key(before, key);
        }
        removed
    }

    /// Adds every set of `rhs` to the set under the same key; keys that are
    /// not there yet enter last.
    pub fn add_assign(&mut self, rhs: MappedSets)
        requires
            old(self).wf(),
            rhs.wf(),
        ensures
            final(self).wf(),
            final(self)@ == merged_in(old(self)@, rhs@),
    {
        let ghost before = self@;
        let ghost more = rhs@;
        let mut rhs = rhs;
        let n = locations_len(&rhs.0);
        let mut i: usize = 0;
        assert(more.take(0) =~= Seq::<(IdPair, Seq<usize>)>::empty());
        while i < n
            invariant
                n == more.len(),
                i <= n,
                sets_wf(more),
                rhs@.len() == n,
                forall|k: int| i <= k < n ==> #[trigger] rhs@[k] == more[k],
                self.wf(),
                self@ == merged_in(before, more.take(i as int)),
            decreases n - i,
        {
            let ghost current = self@;
            let ghost source_before = rhs@;
            let (key, _) = locations_entry_at(&rhs.0, i).unwrap();
            let source = locations_set_at_mut(&mut rhs.0, i);
            proof {
                assert(more.take(i + 1).drop_last() =~= more.take(i as int));
                assert(more.take(i + 1).last() == more[i as int]);
                lemma_with_set(current, key, more[i as int].1);
            }
            match locations_index_of(&self.0, key) {
                Some(j) => {
                    proof {
                        lemma_position_of(current, j as int);
                    }
                    let target = locations_set_at_mut(&mut self.0, j);
                    set_append(target, source);
                },
                None => {
                    let mut fresh = set_new();
                    proof {
                        assert(set_items(fresh) =~= Seq::<usize>::empty());
                        lemma_appended_to_empty(more[i as int].1);
                    }
                    set_append(&mut fresh, source);
                    locations_insert(&mut self.0, key, fresh);
                },
            }
            i = i + 1;
        }
        assert(more.take(n as int) =~= more);
    }

    /// Takes every item of every set of `rhs` out of the set under the same
    /// key; a set that is left empty leaves with its key.
    pub fn sub_assign(&mut self, rhs: MappedSets)
        requires
            old(self).wf(),
        ensures
            final(self).wf(),
            final(self)@ == taken_out(old(self)@, rhs@),
    {
        let ghost before = self@;
        let ghost gone = rhs@;
        let n = locations_len(&rhs.0);
        let mut i: usize = 0;
        assert(gone.take(0) =~= Seq::<(IdPair, Seq<usize>)>::empty());
        while i < n
            invariant
                n == gone.len(),
                gone == rhs@,
                i <= n,
                self.wf(),
                self@ == taken_out(before, gone.take(i as int)),
            decreases n - i,
        {
            let ghost current = self@;
            let (key, set) = locations_entry_at(&rhs.0, i).unwrap();
            proof {
                assert(gone.take(i + 1).drop_last() =~= gone.take(i as int));
                assert(gone.take(i + 1).last() == gone[i as int]);
                lemma_without_set(current, key, gone[i as int].1);
            }
            match locations_index_of(&self.0, key) {
                Some(j) => {
                    proof {
                        lemma_position_of(current, j as int);
                    }
                    let target = locations_set_at_mut(&mut self.0, j);
                    remove_items(target, set);
                    let emptied = set_len(target) == 0;
                    if emptied {
                        let ghost emptied_entries = self@;
                        proof {
                            lemma_position_of(emptied_entries, j as int);
                        }
                        let removed = locations_swap_remove(&mut self.0, key);
                        proof {
                            if removed is Some {
                                let k = choose|k: int|
                                    0 <= k < emptied_entries.len() && #[trigger] emptied_entries[k] == (
                                        key,
                                        set_items(removed->0),
                                    ) && self@ == emptied_entries.update(
                                        k,
                                        emptied_entries.last(),
                                    ).drop_last();
                                lemma_position_of(emptied_entries, k);
                            } else {
                                assert(emptied_entries[j as int].0 == key);
                            }
                            assert(self@ =~= without_key(current, key));
                        }
                    }
                },
                None => {},
            }
            i = i + 1;
        }
        assert(gone.take(n as int) =~= gone);
    }
}

/// Takes every item of `gone` out of `target`, in order.
fn remove_items(target: &mut IndexSet<usize>, gone: &IndexSet<usize>)
    requires
        set_items(*old(target)).no_duplicates(),
    ensures
        set_items(*final(target)) == without_items(set_items(*old(target)), set_items(*gone)),
        set_items(*final(target)).no_duplicates(),
{
    let ghost before = set_items(*target);
    let ghost items = set_items(*gone);
    let n = set_len(gone);
    let mut k: usize = 0;
    assert(items.take(0) =~= Seq::<usize>::empty());
    while k < n
        invariant
            n == items.len(),
            items == set_items(*gone),
            k <= n,
            before.no_duplicates(),
            set_items(*target) == without_items(before, items.take(k as int)),
        decreases n - k,
    {
        let item = set_item_at(gone, k).unwrap();
        let ghost current = set_items(*target);
        proof {
            assert(items.take(k + 1).drop_last() =~= items.take(k as int));
            assert(items.take(k + 1).last() == items[k as int]);
            lemma_without_items(before, items.take(k as int));
        }
        let removed = set_swap_remove(target, item);
        proof {
            if removed {
                let j = choose|j: int|
                    0 <= j < current.len() && #[trigger] current[j] == item && set_items(*target)
                        == current.update(j, current.last()).drop_last();
                lemma_item_position(current, j);
            }
        }
        k = k + 1;
    }
    proof {
        assert(items.take(n as int) =~= items);
        lemma_without_items(before, items);
    }
}

/// Putting a position into a set keeps the sets well-formed.
pub proof fn lemma_with_location(entries: SetEntries, key: IdPair, value: usize)
    requires
        sets_wf(entries),
    ensures
        sets_wf(with_location(entries, key, value)),
        forall|k: IdPair, v: usize|
            #[trigger] holds(with_location(entries, key, value), k, v) <==> (holds(entries, k, v) || (k
                == key && v == value)),
{
    let after = with_location(entries, key, value);
    lemma_entries_changed(entries, key, after);
    if has_key(entries, key) {
        let i = position_of(entries, key);
        if !entries[i].1.contains(value) {
            let set = entries[i].1.push(value);
            assert(set.no_duplicates());
            assert forall|k: IdPair, v: usize| #[trigger] holds(after, k, v) <==> (holds(entries, k, v)
                || (k == key && v == value)) by {
                if holds(after, k, v) {
                    let a = choose|a: int|
                        0 <= a < after.len() && (#[trigger] after[a]).0 == k && after[a].1.contains(v);
                    if a == i {
                        let b = choose|b: int| 0 <= b < set.len() && set[b] == v;
                        if b < entries[i].1.len() {
                            assert(entries[i].1[b] == v);
                        }
                    }
                    assert(entries[a].0 == k);
                }
                if holds(entries, k, v) {
                    let a = choose|a: int|
                        0 <= a < entries.len() && (#[trigger] entries[a]).0 == k && entries[a].1.contains(v);
                    if a == i {
                        let b = choose|b: int| 0 <= b < entries[i].1.len() && entries[i].1[b] == v;
                        assert(set[b] == v);
                    }
                    assert(after[a].0 == k);
                }
                if k == key && v == value {
                    assert(set[set.len() - 1] == value);
                    assert(after[i].0 == key);
                }
            }
        } else {
            assert forall|k: IdPair, v: usize| #[trigger] holds(after, k, v) <==> (holds(entries, k, v)
                || (k == key && v == value)) by {
                if k == key && v == value {
                    assert(entries[i].0 == key);
                }
            }
        }
    } else {
        let n = entries.len() as int;
        assert(seq![value].no_duplicates());
        assert forall|k: IdPair, v: usize| #[trigger] holds(after, k, v) <==> (holds(entries, k, v) || (k
            == key && v == value)) by {
            if holds(after, k, v) {
                let a = choose|a: int|
                    0 <= a < after.len() && (#[trigger] after[a]).0 == k && after[a].1.contains(v);
                if a < n {
                    assert(entries[a].0 == k);
                }
            }
            if holds(entries, k, v) {
                let a = choose|a: int|
                    0 <= a < entries.len() && (#[trigger] entries[a]).0 == k && entries[a].1.contains(v);
                assert(after[a].0 == k);
            }
            if k == key && v == value {
                assert(seq![value][0] == value);
                assert(after[n].0 == key);
            }
        }
    }
}

/// Entries that differ only under `key`, in place or by one more entry under
/// `key` at the end, still have distinct keys and the other sets unchanged.
proof fn lemma_entries_changed(entries: SetEntries, key: IdPair, after: SetEntries)
    requires
        sets_wf(entries),
        has_key(entries, key) ==> after.len() == entries.len() && after[position_of(entries, key)].0
            == key && forall|a: int|
            0 <= a < entries.len() && a != position_of(entries, key) ==> #[trigger] after[a]
                == entries[a],
        !has_key(entries, key) ==> after.len() == entries.len() + 1 && after.last().0 == key
            && after.drop_last() =~= entries,
    ensures
        distinct_keys(after),
        forall|a: int|
            0 <= a < after.len() && (#[trigger] after[a]).0 != key ==> after[a].1.no_duplicates(),
{
    if has_key(entries, key) {
        let i = position_of(entries, key);
        assert forall|a: int, b: int| 0 <= a < b < after.len() implies (#[trigger] after[a]).0 != (
        #[trigger] after[b]).0 by {
            assert(entries[a].0 != entries[b].0);
        }
        assert forall|a: int| 0 <= a < after.len() && (#[trigger] after[a]).0 != key implies after[a].1.no_duplicates() by {
            assert(after[a] == entries[a]);
        }
    } else {
        let n = entries.len() as int;
        assert forall|a: int, b: int| 0 <= a < b < after.len() implies (#[trigger] after[a]).0 != (
        #[trigger] after[b]).0 by {
            assert(after.drop_last()[a] == entries[a]);
            if b < n {
                assert(after.drop_last()[b] == entries[b]);
                assert(entries[a].0 != entries[b].0);
            } else {
                assert(entries[a].0 != key);
            }
        }
        assert forall|a: int| 0 <= a < after.len() && (#[trigger] after[a]).0 != key implies after[a].1.no_duplicates() by {
            assert(after.drop_last()[a] == entries[a]);
        }
    }
}

/// Adding a set keeps the sets well-formed.
pub proof fn lemma_with_set(entries: SetEntries, key: IdPair, set: Seq<usize>)
    requires
        sets_wf(entries),
        set.no_duplicates(),
    ensures
        sets_wf(with_set(entries, key, set)),
{
    let after = with_set(entries, key, set);
    lemma_entries_changed(entries, key, after);
    if has_key(entries, key) {
        let i = position_of(entries, key);
        lemma_items_appended(entries[i].1, set);
    }
    assert forall|a: int| 0 <= a < after.len() implies (#[trigger] after[a]).1.no_duplicates() by {
        if after[a].0 == key {
            if has_key(entries, key) {
                lemma_position_of(after, a);
                lemma_position_of(after, position_of(entries, key));
            } else {
                lemma_position_of(after, a);
                lemma_position_of(after, entries.len() as int);
            }
        }
    }
}

/// Taking a key out keeps the sets well-formed and the other sets as they are.
pub proof fn lemma_without_key(entries: SetEntries, key: IdPair)
    requires
        sets_wf(entries),
    ensures
        sets_wf(without_key(entries, key)),
        !has_key(without_key(entries, key), key),
        forall|k: IdPair, v: usize|
            #[trigger] holds(without_key(entries, key), k, v) <==> (k != key && holds(entries, k, v)),
{
    let after = without_key(entries, key);
    if has_key(entries, key) {
        let i = position_of(entries, key);
        let last = entries.len() - 1;
        assert forall|a: int| 0 <= a < after.len() implies #[trigger] after[a] == entries[if a == i {
            last
        } else {
            a
        }] by {}
        assert forall|a: int, b: int| 0 <= a < b < after.len() implies (#[trigger] after[a]).0 != (
        #[trigger] after[b]).0 by {
            let source_a = if a == i { last } else { a };
            let source_b = if b == i { last } else { b };
            assert(after[a] == entries[source_a] && after[b] == entries[source_b]);
            if source_a < source_b {
                assert(entries[source_a].0 != entries[source_b].0);
            } else {
                assert(entries[source_b].0 != entries[source_a].0);
            }
        }
        assert forall|a: int| 0 <= a < after.len() implies (#[trigger] after[a]).1.no_duplicates() by {
            let source = if a == i { last } else { a };
            assert(after[a] == entries[source]);
        }
        assert(!has_key(after, key)) by {
            if has_key(after, key) {
                let a = position_of(after, key);
                let source = if a == i { last } else { a };
                assert(after[a] == entries[source]);
                lemma_position_of(entries, source);
            }
        }
        assert forall|k: IdPair, v: usize| #[trigger] holds(after, k, v) <==> (k != key && holds(
            entries,
            k,
            v,
        )) by {
            if holds(after, k, v) {
                let a = choose|a: int|
                    0 <= a < after.len() && (#[trigger] after[a]).0 == k && after[a].1.contains(v);
                let source = if a == i { last } else { a };
                assert(after[a] == entries[source]);
                assert(entries[source].0 == k);
            }
            if k != key && holds(entries, k, v) {
                let b = choose|b: int|
                    0 <= b < entries.len() && (#[trigger] entries[b]).0 == k && entries[b].1.contains(v);
                if b == last {
                    assert(after[i].0 == k);
                } else {
                    assert(after[b].0 == k);
                }
            }
        }
    } else {
        assert forall|k: IdPair, v: usize| #[trigger] holds(after, k, v) <==> (k != key && holds(
            entries,
            k,
            v,
        )) by {
            if holds(entries, k, v) {
                let b = choose|b: int|
                    0 <= b < entries.len() && (#[trigger] entries[b]).0 == k && entries[b].1.contains(v);
            }
        }
    }
}

/// Taking items out of a set keeps the sets well-formed.
pub proof fn lemma_without_set(entries: SetEntries, key: IdPair, gone: Seq<usize>)
    requires
        sets_wf(entries),
    ensures
        sets_wf(without_set(entries, key, gone)),
{
    let after = without_set(entries, key, gone);
    if has_key(entries, key) {
        let i = position_of(entries, key);
        lemma_without_items(entries[i].1, gone);
        lemma_without_key(entries, key);
        if without_items(entries[i].1, gone).len() > 0 {
            lemma_entries_changed(entries, key, after);
            assert forall|a: int| 0 <= a < after.len() implies (#[trigger] after[a]).1.no_duplicates() by {
                if after[a].0 == key {
                    lemma_position_of(after, a);
                    lemma_position_of(after, i);
                }
            }
        }
    }
}

/// Distinct positions below `n` are at most `n`.
pub proof fn lemma_distinct_below(items: Seq<usize>, n: nat)
    requires
        items.no_duplicates(),
        forall|j: int| 0 <= j < items.len() ==> #[trigger] items[j] < n,
    ensures
        items.len() <= n,
    decreases n,
{
    if n == 0 {
        if items.len() > 0 {
            assert(items[0] < n);
        }
    } else {
        let top = (n - 1) as usize;
        if exists|j: int| 0 <= j < items.len() && items[j] == n - 1 {
            let j = choose|j: int| 0 <= j < items.len() && items[j] == n - 1;
            let rest = items.remove(j);
            assert forall|a: int, b: int| 0 <= a < rest.len() && 0 <= b < rest.len() && a != b implies rest[a]
                != rest[b] by {
                let source_a = if a < j { a } else { a + 1 };
                let source_b = if b < j { b } else { b + 1 };
                assert(rest[a] == items[source_a] && rest[b] == items[source_b]);
            }
            assert forall|a: int| 0 <= a < rest.len() implies #[trigger] rest[a] < n - 1 by {
                let source = if a < j { a } else { a + 1 };
                assert(rest[a] == items[source]);
                assert(items[source] != items[j]);
                assert(items[source] < n);
            }
            lemma_distinct_below(rest, (n - 1) as nat);
        } else {
            assert forall|a: int| 0 <= a < items.len() implies #[trigger] items[a] < n - 1 by {
                assert(items[a] < n);
            }
            lemma_distinct_below(items, (n - 1) as nat);
        }
    }
}

/// What the sets hold after a set was added: what they held and the items
/// of that set under its key.
pub proof fn lemma_with_set_holds(entries: SetEntries, key: IdPair, set: Seq<usize>)
    requires
        sets_wf(entries),
        set.no_duplicates(),
    ensures
        forall|k: IdPair, v: usize|
            #[trigger] holds(with_set(entries, key, set), k, v) <==> (holds(entries, k, v) || (k == key
                && set.contains(v))),
{
    let after = with_set(entries, key, set);
    lemma_with_set(entries, key, set);
    if has_key(entries, key) {
        let i = position_of(entries, key);
        lemma_items_appended(entries[i].1, set);
        assert forall|k: IdPair, v: usize| #[trigger] holds(after, k, v) <==> (holds(entries, k, v) || (k
            == key && set.contains(v))) by {
            if holds(after, k, v) {
                let a = choose|a: int|
                    0 <= a < after.len() && (#[trigger] after[a]).0 == k && after[a].1.contains(v);
                assert(entries[a].0 == k);
                if a == i {
                    assert(items_appended(entries[i].1, set).contains(v));
                    if entries[i].1.contains(v) {
                        assert(holds(entries, k, v));
                    }
                } else {
                    assert(after[a] == entries[a]);
                }
            }
            if holds(entries, k, v) {
                let a = choose|a: int|
                    0 <= a < entries.len() && (#[trigger] entries[a]).0 == k && entries[a].1.contains(v);
                assert(after[a].0 == k);
                if a == i {
                    assert(items_appended(entries[i].1, set).contains(v));
                }
            }
            if k == key && set.contains(v) {
                assert(items_appended(entries[i].1, set).contains(v));
                assert(after[i].0 == key);
            }
        }
    } else {
        let n = entries.len() as int;
        assert forall|k: IdPair, v: usize| #[trigger] holds(after, k, v) <==> (holds(entries, k, v) || (k
            == key && set.contains(v))) by {
            if holds(after, k, v) {
                let a = choose|a: int|
                    0 <= a < after.len() && (#[trigger] after[a]).0 == k && after[a].1.contains(v);
                if a < n {
                    assert(entries[a].0 == k);
                }
            }
            if holds(entries, k, v) {
                let a = choose|a: int|
                    0 <= a < entries.len() && (#[trigger] entries[a]).0 == k && entries[a].1.contains(v);
                assert(after[a].0 == k);
            }
            if k == key && set.contains(v) {
                assert(after[n].0 == key);
            }
        }
    }
}

/// What the sets hold after other sets were added: what either held.
pub proof fn lemma_merged_in_holds(entries: SetEntries, more: SetEntries)
    requires
        sets_wf(entries),
        sets_wf(more),
    ensures
        sets_wf(merged_in(entries, more)),
        forall|k: IdPair, v: usize|
            #[trigger] holds(merged_in(entries, more), k, v) <==> (holds(entries, k, v) || holds(
                more,
                k,
                v,
            )),
    decreases more.len(),
{
    if more.len() > 0 {
        let front = more.drop_last();
        let (key, set) = more.last();
        assert(sets_wf(front)) by {
            assert forall|i: int, j: int| 0 <= i < j < front.len() implies (#[trigger] front[i]).0 != (
            #[trigger] front[j]).0 by {
                assert(more[i].0 != more[j].0);
            }
            assert forall|i: int| 0 <= i < front.len() implies (#[trigger] front[i]).1.no_duplicates() by {
                assert(more[i].1.no_duplicates());
            }
        }
        lemma_merged_in_holds(entries, front);
        let so_far = merged_in(entries, front);
        assert(more[more.len() - 1].1.no_duplicates());
        lemma_with_set(so_far, key, set);
        lemma_with_set_holds(so_far, key, set);
        assert forall|k: IdPair, v: usize| #[trigger] holds(merged_in(entries, more), k, v) <==> (holds(
            entries,
            k,
            v,
        ) || holds(more, k, v)) by {
            assert(holds(with_set(so_far, key, set), k, v) <==> (holds(so_far, k, v) || (k == key
                && set.contains(v))));
            if holds(more, k, v) {
                let a = choose|a: int|
                    0 <= a < more.len() && (#[trigger] more[a]).0 == k && more[a].1.contains(v);
                if a < front.len() {
                    assert(front[a].0 == k);
                }
            }
            if holds(front, k, v) {
                let a = choose|a: int|
                    0 <= a < front.len() && (#[trigger] front[a]).0 == k && front[a].1.contains(v);
                assert(more[a].0 == k);
            }
            if k == key && set.contains(v) {
                assert(more[more.len() - 1].0 == k);
            }
        }
    } else {
        assert forall|k: IdPair, v: usize| !holds(more, k, v) by {}
    }
}

/// What the sets hold after items left a set: what they held but those
/// items under that key.
pub proof fn lemma_without_set_holds(entries: SetEntries, key: IdPair, gone: Seq<usize>)
    requires
        sets_wf(entries),
    ensures
        forall|k: IdPair, v: usize|
            #[trigger] holds(without_set(entries, key, gone), k, v) <==> (holds(entries, k, v) && !(k
                == key && gone.contains(v))),
{
    let after = without_set(entries, key, gone);
    if has_key(entries, key) {
        let i = position_of(entries, key);
        let left = without_items(entries[i].1, gone);
        lemma_without_items(entries[i].1, gone);
        lemma_without_key(entries, key);
        assert forall|k: IdPair, v: usize| #[trigger] holds(after, k, v) <==> (holds(entries, k, v) && !(k
            == key && gone.contains(v))) by {
            if left.len() == 0 {
                assert(holds(without_key(entries, key), k, v) <==> (k != key && holds(entries, k, v)));
                if holds(entries, k, v) && k == key {
                    let a = choose|a: int|
                        0 <= a < entries.len() && (#[trigger] entries[a]).0 == k && entries[a].1.contains(v);
                    lemma_position_of(entries, a);
                    assert(!left.contains(v));
                }
            } else {
                if holds(after, k, v) {
                    let a = choose|a: int|
                        0 <= a < after.len() && (#[trigger] after[a]).0 == k && after[a].1.contains(v);
                    assert(entries[a].0 == k);
                    if a == i {
                        assert(left.contains(v));
                        assert(entries[i].1.contains(v));
                    } else {
                        assert(after[a] == entries[a]);
                        lemma_position_of(entries, a);
                    }
                }
                if holds(entries, k, v) && !(k == key && gone.contains(v)) {
                    let a = choose|a: int|
                        0 <= a < entries.len() && (#[trigger] entries[a]).0 == k && entries[a].1.contains(v);
                    assert(after[a].0 == k);
                    if a == i {
                        assert(left.contains(v));
                    } else {
                        lemma_position_of(entries, a);
                    }
                }
            }
        }
    } else {
        assert forall|k: IdPair, v: usize| #[trigger] holds(after, k, v) <==> (holds(entries, k, v) && !(k
            == key && gone.contains(v))) by {
            if holds(entries, k, v) {
                let a = choose|a: int|
                    0 <= a < entries.len() && (#[trigger] entries[a]).0 == k && entries[a].1.contains(v);
            }
        }
    }
}

/// What the sets hold after other sets were taken out: what they held and
/// the others did not.
pub proof fn lemma_taken_out_holds(entries: SetEntries, gone: SetEntries)
    requires
        sets_wf(entries),
    ensures
        sets_wf(taken_out(entries, gone)),
        forall|k: IdPair, v: usize|
            #[trigger] holds(taken_out(entries, gone), k, v) <==> (holds(entries, k, v) && !holds(
                gone,
                k,
                v,
            )),
    decreases gone.len(),
{
    if gone.len() > 0 {
        let front = gone.drop_last();
        let (key, set) = gone.last();
        lemma_taken_out_holds(entries, front);
        let so_far = taken_out(entries, front);
        lemma_without_set(so_far, key, set);
        lemma_without_set_holds(so_far, key, set);
        assert forall|k: IdPair, v: usize| #[trigger] holds(taken_out(entries, gone), k, v) <==> (holds(
            entries,
            k,
            v,
        ) && !holds(gone, k, v)) by {
            assert(holds(without_set(so_far, key, set), k, v) <==> (holds(so_far, k, v) && !(k == key
                && set.contains(v))));
            if holds(gone, k, v) {
                let a = choose|a: int|
                    0 <= a < gone.len() && (#[trigger] gone[a]).0 == k && gone[a].1.contains(v);
                if a < front.len() {
                    assert(front[a].0 == k);
                }
            }
            if holds(front, k, v) {
                let a = choose|a: int|
                    0 <= a < front.len() && (#[trigger] front[a]).0 == k && front[a].1.contains(v);
                assert(gone[a].0 == k);
            }
            if k == key && set.contains(v) {
                assert(gone[gone.len() - 1].0 == k);
            }
        }
    } else {
        assert forall|k: IdPair, v: usize| !holds(gone, k, v) by {}
    }
}

/// What sets built from pairs hold: the pairs.
pub proof fn lemma_with_locations_holds(entries: SetEntries, more: Seq<(IdPair, usize)>)
    requires
        sets_wf(entries),
    ensures
        sets_wf(with_locations(entries, more)),
        forall|k: IdPair, v: usize|
            #[trigger] holds(with_locations(entries, more), k, v) <==> (holds(entries, k, v)
                || more.contains((k, v))),
    decreases more.len(),
{
    if more.len() > 0 {
        let front = more.drop_last();
        let (key, value) = more.last();
        lemma_with_locations_holds(entries, front);
        let so_far = with_locations(entries, front);
        lemma_with_location(so_far, key, value);
        assert forall|k: IdPair, v: usize| #[trigger] holds(with_locations(entries, more), k, v) <==> (
        holds(entries, k, v) || more.contains((k, v))) by {
            assert(holds(with_location(so_far, key, value), k, v) <==> (holds(so_far, k, v) || (k == key
                && v == value)));
            if more.contains((k, v)) {
                let a = choose|a: int| 0 <= a < more.len() && more[a] == (k, v);
                if a < front.len() {
                    assert(front[a] == (k, v));
                }
            }
            if front.contains((k, v)) {
                let a = choose|a: int| 0 <= a < front.len() && front[a] == (k, v);
                assert(more[a] == (k, v));
            }
            if k == key && v == value {
                assert(more[more.len() - 1] == (k, v));
            }
        }
    } else {
        assert forall|k: IdPair, v: usize| !more.contains((k, v)) by {}
    }
}

} // verus!
