//! Why the counts of the pairs stay true to the indexes: the count of a
//! pair is the number of locations that the indexes of all patterns hold
//! for it.

use crate::collections::distinct_keys;
use crate::collections::has_key;
use crate::index::consistent;
use crate::index::lemma_replaced_all_accounted;
use crate::index::lemma_replaced_all_consistent;
use crate::index::pair_at;
use crate::index::pending;
use crate::training::involves;
use crate::re_pair::lemma_live_in_range;
use crate::re_pair::replaced_all;
use crate::re_pair::vacant;
use crate::sizes::lemma_merged_in_size;
use crate::sizes::lemma_size_holds;
use crate::sizes::lemma_taken_out_size;
use crate::sizes::lemma_without_key_size;
use crate::sizes::sets_nonempty;
use crate::sizes::size_of;
use crate::token::IdPair;
use crate::token::TokenId;
use crate::utils::can_raise_all;
use crate::utils::holds;
use crate::utils::lemma_merged_in_holds;
use crate::utils::lemma_position_of;
use crate::utils::lemma_without_key;
use crate::utils::lengths_of;
use crate::utils::lowered;
use crate::utils::lowered_all;
use crate::utils::merged_in;
use crate::utils::position_of;
use crate::utils::raised;
use crate::utils::raised_all;
use crate::utils::sets_wf;
use crate::utils::taken_out;
use crate::utils::without_key;
use crate::utils::SetEntries;
use vstd::prelude::*;

verus! {

/// The count of a pair; zero where it has none.
pub open spec fn count_in(counts: Map<IdPair, usize>, pair: IdPair) -> nat {
    if counts.contains_key(pair) {
        counts[pair] as nat
    } else {
        0
    }
}

/// What the items hold for a pair; zero where they hold nothing.
pub open spec fn amount_of(items: Seq<(IdPair, usize)>, pair: IdPair) -> nat {
    if has_key(items, pair) {
        items[position_of(items, pair)].1 as nat
    } else {
        0
    }
}

/// Number of locations that the indexes hold for a pair, all together.
pub open spec fn locations_total(indexes: Seq<SetEntries>, pair: IdPair) -> nat
    decreases indexes.len(),
{
    if indexes.len() == 0 {
        0
    } else {
        locations_total(indexes.drop_last(), pair) + size_of(indexes.last(), pair)
    }
}

/// The counts are true to the indexes: the count of a pair is the number of
/// its locations, and a pair without locations has no count.
pub open spec fn counts_match(indexes: Seq<SetEntries>, counts: Map<IdPair, usize>) -> bool {
    forall|pair: IdPair|
        #[trigger] count_in(counts, pair) == locations_total(indexes, pair) && (counts.contains_key(
            pair,
        ) ==> counts[pair] >= 1)
}

/// The counts are true to the indexes but for the pair that is being
/// merged: it has no count, and the first `done` indexes hold it no more.
pub open spec fn counts_match_but(
    indexes: Seq<SetEntries>,
    counts: Map<IdPair, usize>,
    merging: IdPair,
    done: int,
) -> bool {
    &&& !counts.contains_key(merging)
    &&& forall|pair: IdPair|
        pair != merging ==> #[trigger] count_in(counts, pair) == locations_total(indexes, pair)
    &&& forall|pair: IdPair| #[trigger] counts.contains_key(pair) ==> counts[pair] >= 1
    &&& forall|p: int| 0 <= p < done && p < indexes.len() ==> size_of(#[trigger] indexes[p], merging) == 0
}

/// The sizes of the sets are what the list of their lengths holds.
pub proof fn lemma_amount_of_lengths(entries: SetEntries, len: nat, pair: IdPair)
    requires
        sets_wf(entries),
        forall|i: int, j: int|
            0 <= i < entries.len() && 0 <= j < entries[i].1.len() ==> #[trigger] entries[i].1[j]
                < len,
        len <= usize::MAX,
    ensures
        amount_of(lengths_of(entries), pair) == size_of(entries, pair),
        distinct_keys(lengths_of(entries)),
{
    let items = lengths_of(entries);
    assert forall|i: int| 0 <= i < entries.len() implies (#[trigger] entries[i]).1.len() <= len by {
        assert forall|j: int| 0 <= j < entries[i].1.len() implies #[trigger] entries[i].1[j] < len by {}
        crate::utils::lemma_distinct_below(entries[i].1, len);
    }
    assert forall|i: int, j: int| 0 <= i < j < items.len() implies (#[trigger] items[i]).0 != (
    #[trigger] items[j]).0 by {
        assert(entries[i].0 != entries[j].0);
    }
    if has_key(entries, pair) {
        let i = position_of(entries, pair);
        assert(items[i].0 == pair);
        lemma_position_of(items, i);
        assert(entries[i].1.len() <= len);
    } else if has_key(items, pair) {
        let i = position_of(items, pair);
        assert(entries[i].0 == pair);
    }
}

/// Raising under distinct keys adds to each count what the items hold for
/// its pair.
pub proof fn lemma_raised_all_exact(counts: Map<IdPair, usize>, items: Seq<(IdPair, usize)>)
    requires
        distinct_keys(items),
        forall|i: int|
            0 <= i < items.len() ==> count_in(counts, (#[trigger] items[i]).0) + items[i].1
                <= usize::MAX,
    ensures
        can_raise_all(counts, items),
        forall|pair: IdPair|
            #[trigger] count_in(raised_all(counts, items), pair) == count_in(counts, pair) + amount_of(
                items,
                pair,
            ),
        forall|pair: IdPair|
            #[trigger] raised_all(counts, items).contains_key(pair) <==> (counts.contains_key(pair)
                || has_key(items, pair)),
    decreases items.len(),
{
    if items.len() > 0 {
        let front = items.drop_last();
        let (key, value) = items.last();
        let last = items.len() - 1;
        assert(items[last] == (key, value));
        assert forall|i: int, j: int| 0 <= i < j < front.len() implies (#[trigger] front[i]).0 != (
        #[trigger] front[j]).0 by {
            assert(items[i].0 != items[j].0);
        }
        assert forall|i: int| 0 <= i < front.len() implies count_in(counts, (#[trigger] front[i]).0)
            + front[i].1 <= usize::MAX by {
            assert(items[i] == front[i]);
        }
        lemma_raised_all_exact(counts, front);
        let so_far = raised_all(counts, front);
        assert(!has_key(front, key)) by {
            if has_key(front, key) {
                let i = position_of(front, key);
                assert(items[i].0 != items[last].0);
            }
        }
        lemma_position_of(items, last);
        assert(count_in(so_far, key) == count_in(counts, key));
        let after = raised_all(counts, items);
        assert(after == raised(so_far, key, value));
        assert forall|pair: IdPair| #[trigger] count_in(after, pair) == count_in(counts, pair)
            + amount_of(items, pair) by {
            assert(count_in(so_far, pair) == count_in(counts, pair) + amount_of(front, pair));
            if pair != key {
                if has_key(front, pair) {
                    let i = position_of(front, pair);
                    assert(items[i] == front[i]);
                    lemma_position_of(items, i);
                } else if has_key(items, pair) {
                    let i = position_of(items, pair);
                    assert(front[i].0 == pair);
                }
            }
        }
        assert forall|pair: IdPair| #[trigger] after.contains_key(pair) <==> (counts.contains_key(pair)
            || has_key(items, pair)) by {
            assert(so_far.contains_key(pair) <==> (counts.contains_key(pair) || has_key(front, pair)));
            if has_key(front, pair) {
                let i = position_of(front, pair);
                assert(items[i].0 == pair);
            }
            if has_key(items, pair) && pair != key {
                let i = position_of(items, pair);
                assert(front[i].0 == pair);
            }
        }
    }
}

/// Lowering under distinct keys, where each count covers what is taken,
/// goes through and takes from each count what the items hold for its pair;
/// a count that is used up is gone.
pub proof fn lemma_lowered_all_exact(counts: Map<IdPair, usize>, items: Seq<(IdPair, usize)>)
    requires
        distinct_keys(items),
        forall|i: int|
            0 <= i < items.len() ==> counts.contains_key((#[trigger] items[i]).0) && counts[items[i].0]
                >= items[i].1,
    ensures
        lowered_all(counts, items) is Ok,
        forall|pair: IdPair|
            #[trigger] count_in(lowered_all(counts, items)->Ok_0, pair) + amount_of(items, pair)
                == count_in(counts, pair),
        forall|pair: IdPair| #[trigger]
            lowered_all(counts, items)->Ok_0.contains_key(pair) ==> counts.contains_key(pair) && (
            counts[pair] >= 1 ==> lowered_all(counts, items)->Ok_0[pair] >= 1),
    decreases items.len(),
{
    if items.len() > 0 {
        let front = items.drop_last();
        let (key, value) = items.last();
        let last = items.len() - 1;
        assert(items[last] == (key, value));
        assert forall|i: int, j: int| 0 <= i < j < front.len() implies (#[trigger] front[i]).0 != (
        #[trigger] front[j]).0 by {
            assert(items[i].0 != items[j].0);
        }
        assert forall|i: int| 0 <= i < front.len() implies counts.contains_key(
            (#[trigger] front[i]).0,
        ) && counts[front[i].0] >= front[i].1 by {
            assert(items[i] == front[i]);
        }
        lemma_lowered_all_exact(counts, front);
        let so_far = lowered_all(counts, front)->Ok_0;
        assert(!has_key(front, key)) by {
            if has_key(front, key) {
                let i = position_of(front, key);
                assert(items[i].0 != items[last].0);
            }
        }
        lemma_position_of(items, last);
        assert(count_in(so_far, key) + amount_of(front, key) == count_in(counts, key));
        assert(counts.contains_key(key) && counts[key] >= value);
        lemma_lowered_keeps_zero(counts, front, key);
        let after = lowered_all(counts, items)->Ok_0;
        assert(lowered_all(counts, items) == lowered(so_far, key, value));
        assert forall|pair: IdPair| #[trigger] count_in(after, pair) + amount_of(items, pair)
            == count_in(counts, pair) by {
            assert(count_in(so_far, pair) + amount_of(front, pair) == count_in(counts, pair));
            if pair != key {
                if has_key(front, pair) {
                    let i = position_of(front, pair);
                    assert(items[i] == front[i]);
                    lemma_position_of(items, i);
                } else if has_key(items, pair) {
                    let i = position_of(items, pair);
                    assert(front[i].0 == pair);
                }
            }
        }
        assert forall|pair: IdPair| #[trigger] after.contains_key(pair) implies counts.contains_key(
            pair,
        ) && (counts[pair] >= 1 ==> after[pair] >= 1) by {
            assert(so_far.contains_key(pair));
        }
    }
}

/// Lowering keeps a key whose count nothing is taken from.
pub proof fn lemma_lowered_keeps_zero(
    counts: Map<IdPair, usize>,
    items: Seq<(IdPair, usize)>,
    key: IdPair,
)
    requires
        lowered_all(counts, items) is Ok,
        counts.contains_key(key),
        !has_key(items, key),
    ensures
        lowered_all(counts, items)->Ok_0.contains_key(key),
        lowered_all(counts, items)->Ok_0[key] == counts[key],
    decreases items.len(),
{
    if items.len() > 0 {
        let front = items.drop_last();
        assert(!has_key(front, key)) by {
            if has_key(front, key) {
                let i = position_of(front, key);
                assert(items[i].0 == key);
            }
        }
        lemma_lowered_keeps_zero(counts, front, key);
        assert(items[items.len() - 1].0 != key);
    }
}

/// Replacing one index changes the number of locations of a pair by what
/// that index changes.
pub proof fn lemma_locations_total_update(
    indexes: Seq<SetEntries>,
    p: int,
    index: SetEntries,
    pair: IdPair,
)
    requires
        0 <= p < indexes.len(),
    ensures
        locations_total(indexes.update(p, index), pair) + size_of(indexes[p], pair) == locations_total(
            indexes,
            pair,
        ) + size_of(index, pair),
        size_of(indexes[p], pair) <= locations_total(indexes, pair),
    decreases indexes.len(),
{
    let after = indexes.update(p, index);
    if p == indexes.len() - 1 {
        assert(after.drop_last() =~= indexes.drop_last());
    } else {
        assert(after.drop_last() =~= indexes.drop_last().update(p, index));
        lemma_locations_total_update(indexes.drop_last(), p, index, pair);
    }
}

/// Where no index holds a pair, the pair has no locations.
pub proof fn lemma_locations_total_zero(indexes: Seq<SetEntries>, pair: IdPair)
    requires
        forall|p: int| 0 <= p < indexes.len() ==> size_of(#[trigger] indexes[p], pair) == 0,
    ensures
        locations_total(indexes, pair) == 0,
    decreases indexes.len(),
{
    if indexes.len() > 0 {
        assert forall|p: int| 0 <= p < indexes.drop_last().len() implies size_of(
            #[trigger] indexes.drop_last()[p],
            pair,
        ) == 0 by {
            assert(indexes.drop_last()[p] == indexes[p]);
        }
        lemma_locations_total_zero(indexes.drop_last(), pair);
        assert(size_of(indexes[indexes.len() - 1], pair) == 0);
    }
}

/// The locations of the first few indexes and of one more.
pub proof fn lemma_locations_total_take(indexes: Seq<SetEntries>, p: int, pair: IdPair)
    requires
        0 <= p < indexes.len(),
    ensures
        locations_total(indexes.take(p + 1), pair) == locations_total(indexes.take(p), pair)
            + size_of(indexes[p], pair),
{
    assert(indexes.take(p + 1).drop_last() =~= indexes.take(p));
    assert(indexes.take(p + 1).last() == indexes[p]);
}

/// What the merge of a pair does to the sizes of the sets of one index: for
/// every pair, what the index holds afterwards and what it lost is what it
/// held, without the merged pair, and what it gained.
pub proof fn lemma_merged_sizes(
    buffer: Seq<TokenId>,
    index: SetEntries,
    id0: TokenId,
    id1: TokenId,
    replacement: TokenId,
)
    requires
        sets_wf(index),
        sets_nonempty(index),
        consistent(buffer, index),
        buffer.len() <= usize::MAX,
        replacement != vacant(),
        replacement != id0,
        replacement != id1,
        id0 != vacant(),
        forall|i: int| 0 <= i < buffer.len() ==> #[trigger] buffer[i] != replacement,
        has_key(index, (id0, id1)),
        replaced_all(
            (buffer, Seq::empty(), Seq::empty()),
            id0,
            id1,
            replacement,
            index[position_of(index, (id0, id1))].1,
        ) is Some,
    ensures
        ({
            let (rewritten, added, removed) = replaced_all(
                (buffer, Seq::empty(), Seq::empty()),
                id0,
                id1,
                replacement,
                index[position_of(index, (id0, id1))].1,
            )->0;
            let base = without_key(index, (id0, id1));
            let after = taken_out(merged_in(base, added), removed);
            &&& sets_wf(added)
            &&& sets_wf(removed)
            &&& sets_nonempty(added)
            &&& sets_nonempty(removed)
            &&& sets_nonempty(after)
            &&& forall|pair: IdPair| has_key(added, pair) ==> involves(pair, replacement)
            &&& forall|pair: IdPair|
                #[trigger] size_of(after, pair) + size_of(removed, pair) == size_of(base, pair)
                    + size_of(added, pair)
            &&& forall|pair: IdPair|
                pair != (id0, id1) ==> #[trigger] size_of(base, pair) == size_of(index, pair)
            &&& size_of(base, (id0, id1)) == 0
            &&& size_of(added, (id0, id1)) == 0
        }),
{
    let key = (id0, id1);
    let at = position_of(index, key);
    let all = index[at].1;
    let base = without_key(index, key);
    lemma_without_key(index, key);
    lemma_without_key_size(index, key);
    assert forall|i: usize| pending(all, 0, i) <==> #[trigger] holds(index, key, i) by {
        if pending(all, 0, i) {
            let s = choose|s: int| 0 <= s < all.len() && #[trigger] all[s] == i;
            assert(index[at].0 == key && index[at].1.contains(i));
        }
        if holds(index, key, i) {
            let a = choose|a: int|
                0 <= a < index.len() && (#[trigger] index[a]).0 == key && index[a].1.contains(i);
            lemma_position_of(index, a);
            let s = choose|s: int| 0 <= s < all.len() && all[s] == i;
            assert(all[s] == i);
        }
    }
    assert forall|pair: IdPair, i: usize| !pending(all, 0, i) implies (#[trigger] holds(base, pair, i)
        <==> pair_at(buffer, i as int) == Some(pair)) by {
        assert(holds(index, pair, i) <==> pair_at(buffer, i as int) == Some(pair));
        assert(holds(index, key, i) <==> pair_at(buffer, i as int) == Some(key));
    }
    assert forall|pair: IdPair, i: usize| pending(all, 0, i) implies !#[trigger] holds(base, pair, i) by {
        assert(holds(index, pair, i) <==> pair_at(buffer, i as int) == Some(pair));
        assert(holds(index, key, i) <==> pair_at(buffer, i as int) == Some(key));
    }
    assert(all.take(all.len() as int) =~= all);
    lemma_replaced_all_consistent(base, buffer, all, all.len() as int, id0, id1, replacement);
    lemma_replaced_all_accounted(base, buffer, all, all.len() as int, id0, id1, replacement);
    let (rewritten, added, removed) = replaced_all(
        (buffer, Seq::empty(), Seq::empty()),
        id0,
        id1,
        replacement,
        all,
    )->0;
    // What the index holds is free of the new id; what it gains is not.
    assert forall|k: IdPair, v: usize| !(holds(base, k, v) && holds(added, k, v)) by {
        if holds(base, k, v) && holds(added, k, v) {
            assert(holds(index, k, v));
            assert(pair_at(buffer, v as int) == Some(k));
            lemma_live_in_range(buffer, v as int);
            assert(involves(k, replacement));
        }
    }
    lemma_merged_in_size(base, added);
    lemma_merged_in_holds(base, added);
    let middle = merged_in(base, added);
    assert forall|k: IdPair, v: usize| holds(removed, k, v) implies holds(middle, k, v) by {}
    lemma_taken_out_size(middle, removed);
    assert forall|pair: IdPair| has_key(added, pair) implies involves(pair, replacement) by {
        lemma_size_holds(added, pair);
        let i = position_of(added, pair);
        assert(added[i].1.len() >= 1);
        let v = choose|v: usize| holds(added, pair, v);
    }
}

} // verus!
