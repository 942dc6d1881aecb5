//! How many positions the sets of an index hold under a key, and how that
//! number changes when sets are added and taken out.

use crate::collections::has_key;
use crate::collections::items_appended;
use crate::token::IdPair;
use crate::utils::holds;
use crate::utils::item_position;
use crate::utils::lemma_items_appended;
use crate::utils::lemma_merged_in_holds;
use crate::utils::lemma_position_of;
use crate::utils::lemma_taken_out_holds;
use crate::utils::lemma_with_set;
use crate::utils::lemma_without_items;
use crate::utils::lemma_without_key;
use crate::utils::lemma_without_set;
use crate::utils::merged_in;
use crate::utils::position_of;
use crate::utils::sets_wf;
use crate::utils::taken_out;
use crate::utils::with_set;
use crate::utils::without_item;
use crate::utils::without_items;
use crate::utils::without_key;
use crate::utils::without_set;
use crate::utils::SetEntries;
use vstd::prelude::*;

verus! {

/// Number of positions in the set of `key`; zero where the key is missing.
pub open spec fn size_of(entries: SetEntries, key: IdPair) -> nat {
    if has_key(entries, key) {
        entries[position_of(entries, key)].1.len()
    } else {
        0
    }
}

/// No set is empty.
pub open spec fn sets_nonempty(entries: SetEntries) -> bool {
    forall|i: int| 0 <= i < entries.len() ==> (#[trigger] entries[i]).1.len() >= 1
}

/// A set that holds something has a size, and a key with a set that is not
/// empty holds something.
pub proof fn lemma_size_holds(entries: SetEntries, key: IdPair)
    requires
        sets_wf(entries),
    ensures
        forall|v: usize| holds(entries, key, v) ==> size_of(entries, key) >= 1,
        size_of(entries, key) >= 1 ==> exists|v: usize| holds(entries, key, v),
        forall|v: usize|
            holds(entries, key, v) <==> has_key(entries, key) && entries[position_of(
                entries,
                key,
            )].1.contains(v),
{
    assert forall|v: usize| holds(entries, key, v) <==> has_key(entries, key) && entries[position_of(
        entries,
        key,
    )].1.contains(v) by {
        if holds(entries, key, v) {
            let a = choose|a: int|
                0 <= a < entries.len() && (#[trigger] entries[a]).0 == key && entries[a].1.contains(v);
            lemma_position_of(entries, a);
        }
        if has_key(entries, key) && entries[position_of(entries, key)].1.contains(v) {
            assert(entries[position_of(entries, key)].0 == key);
        }
    }
    if size_of(entries, key) >= 1 {
        let at = position_of(entries, key);
        let v = entries[at].1[0];
        assert(entries[at].1.contains(v));
        assert(holds(entries, key, v));
    }
    assert forall|v: usize| holds(entries, key, v) implies size_of(entries, key) >= 1 by {
        let at = position_of(entries, key);
        let j = choose|j: int| 0 <= j < entries[at].1.len() && entries[at].1[j] == v;
    }
}

/// Items that are new to a sequence lengthen it by their number.
pub proof fn lemma_appended_len(a: Seq<usize>, b: Seq<usize>)
    requires
        a.no_duplicates(),
        b.no_duplicates(),
        forall|v: usize| !(a.contains(v) && b.contains(v)),
    ensures
        items_appended(a, b).len() == a.len() + b.len(),
    decreases b.len(),
{
    if b.len() > 0 {
        let front = b.drop_last();
        assert(front.no_duplicates());
        assert forall|v: usize| !(a.contains(v) && front.contains(v)) by {
            if front.contains(v) {
                let k = choose|k: int| 0 <= k < front.len() && front[k] == v;
                assert(b[k] == v);
                assert(b.contains(v));
            }
        }
        lemma_appended_len(a, front);
        lemma_items_appended(a, front);
        let last = b.last();
        assert(b[b.len() - 1] == last);
        assert(b.contains(last));
        assert(!front.contains(last)) by {
            if front.contains(last) {
                let k = choose|k: int| 0 <= k < front.len() && front[k] == last;
                assert(b[k] == b[b.len() - 1]);
            }
        }
        assert(!items_appended(a, front).contains(last));
    }
}

/// Removing an item that is there shortens the sequence by one.
pub proof fn lemma_without_item_len(items: Seq<usize>, value: usize)
    ensures
        without_item(items, value).len() + (if items.contains(value) {
            1nat
        } else {
            0nat
        }) == items.len(),
{
    if items.contains(value) {
        let j = item_position(items, value);
    }
}

/// Removing items that are there shortens the sequence by their number.
pub proof fn lemma_without_items_len(items: Seq<usize>, gone: Seq<usize>)
    requires
        items.no_duplicates(),
        gone.no_duplicates(),
        forall|v: usize| gone.contains(v) ==> items.contains(v),
    ensures
        without_items(items, gone).len() + gone.len() == items.len(),
    decreases gone.len(),
{
    if gone.len() > 0 {
        let front = gone.drop_last();
        let last = gone.last();
        assert(front.no_duplicates());
        assert(gone[gone.len() - 1] == last);
        assert forall|v: usize| front.contains(v) implies items.contains(v) by {
            let k = choose|k: int| 0 <= k < front.len() && front[k] == v;
            assert(gone[k] == v);
            assert(gone.contains(v));
        }
        lemma_without_items_len(items, front);
        lemma_without_items(items, front);
        assert(!front.contains(last)) by {
            if front.contains(last) {
                let k = choose|k: int| 0 <= k < front.len() && front[k] == last;
                assert(gone[k] == gone[gone.len() - 1]);
            }
        }
        assert(gone.contains(last));
        assert(without_items(items, front).contains(last));
        lemma_without_item_len(without_items(items, front), last);
    }
}

/// A set that is added where nothing of it is held yet adds its size to the
/// size under its key and leaves the other sizes alone.
pub proof fn lemma_with_set_size(entries: SetEntries, key: IdPair, set: Seq<usize>)
    requires
        sets_wf(entries),
        set.no_duplicates(),
        forall|v: usize| !(holds(entries, key, v) && set.contains(v)),
    ensures
        size_of(with_set(entries, key, set), key) == size_of(entries, key) + set.len(),
        forall|other: IdPair|
            other != key ==> #[trigger] size_of(with_set(entries, key, set), other) == size_of(
                entries,
                other,
            ),
        sets_nonempty(entries) && set.len() >= 1 ==> sets_nonempty(with_set(entries, key, set)),
{
    let after = with_set(entries, key, set);
    lemma_with_set(entries, key, set);
    lemma_size_holds(entries, key);
    if has_key(entries, key) {
        let i = position_of(entries, key);
        assert forall|v: usize| !(entries[i].1.contains(v) && set.contains(v)) by {
            if entries[i].1.contains(v) {
                assert(holds(entries, key, v));
            }
        }
        lemma_appended_len(entries[i].1, set);
        assert(after[i].0 == key);
        lemma_position_of(after, i);
        assert forall|other: IdPair| other != key implies #[trigger] size_of(after, other) == size_of(
            entries,
            other,
        ) by {
            if has_key(entries, other) {
                let j = position_of(entries, other);
                assert(after[j] == entries[j]);
                lemma_position_of(after, j);
            } else if has_key(after, other) {
                let j = position_of(after, other);
                assert(entries[j].0 == other);
            }
        }
        if sets_nonempty(entries) && set.len() >= 1 {
            assert forall|a: int| 0 <= a < after.len() implies (#[trigger] after[a]).1.len() >= 1 by {
                if a != i {
                    assert(after[a] == entries[a]);
                }
            }
        }
    } else {
        let n = entries.len() as int;
        assert(after[n].0 == key);
        lemma_position_of(after, n);
        assert forall|other: IdPair| other != key implies #[trigger] size_of(after, other) == size_of(
            entries,
            other,
        ) by {
            if has_key(entries, other) {
                let j = position_of(entries, other);
                assert(after[j] == entries[j]);
                lemma_position_of(after, j);
            } else if has_key(after, other) {
                let j = position_of(after, other);
                if j < n {
                    assert(entries[j].0 == other);
                }
            }
        }
        if sets_nonempty(entries) && set.len() >= 1 {
            assert forall|a: int| 0 <= a < after.len() implies (#[trigger] after[a]).1.len() >= 1 by {
                if a < n {
                    assert(after[a] == entries[a]);
                }
            }
        }
    }
}

/// Sets that are added where nothing of them is held yet add their sizes.
pub proof fn lemma_merged_in_size(entries: SetEntries, more: SetEntries)
    requires
        sets_wf(entries),
        sets_wf(more),
        forall|k: IdPair, v: usize| !(holds(entries, k, v) && holds(more, k, v)),
    ensures
        forall|k: IdPair|
            #[trigger] size_of(merged_in(entries, more), k) == size_of(entries, k) + size_of(more, k),
        sets_nonempty(entries) && sets_nonempty(more) ==> sets_nonempty(merged_in(entries, more)),
    decreases more.len(),
{
    if more.len() > 0 {
        let front = more.drop_last();
        let (key, set) = more.last();
        let last = more.len() - 1;
        assert(more[last] == (key, set));
        assert(sets_wf(front)) by {
            assert forall|i: int, j: int| 0 <= i < j < front.len() implies (#[trigger] front[i]).0 != (
            #[trigger] front[j]).0 by {
                assert(more[i].0 != more[j].0);
            }
            assert forall|i: int| 0 <= i < front.len() implies (#[trigger] front[i]).1.no_duplicates() by {
                assert(more[i].1.no_duplicates());
            }
        }
        assert forall|k: IdPair, v: usize| !(holds(entries, k, v) && holds(front, k, v)) by {
            if holds(front, k, v) {
                let a = choose|a: int|
                    0 <= a < front.len() && (#[trigger] front[a]).0 == k && front[a].1.contains(v);
                assert(more[a].0 == k);
                assert(holds(more, k, v));
            }
        }
        lemma_merged_in_size(entries, front);
        lemma_merged_in_holds(entries, front);
        let so_far = merged_in(entries, front);
        assert(!has_key(front, key)) by {
            if has_key(front, key) {
                let a = position_of(front, key);
                assert(more[a].0 != more[last].0);
            }
        }
        assert forall|v: usize| !(holds(so_far, key, v) && set.contains(v)) by {
            if set.contains(v) {
                assert(holds(more, key, v));
                if holds(front, key, v) {
                    let a = choose|a: int|
                        0 <= a < front.len() && (#[trigger] front[a]).0 == key && front[a].1.contains(v);
                }
            }
        }
        lemma_with_set_size(so_far, key, set);
        lemma_position_of(more, last);
        assert forall|k: IdPair| #[trigger] size_of(merged_in(entries, more), k) == size_of(entries, k)
            + size_of(more, k) by {
            assert(size_of(so_far, k) == size_of(entries, k) + size_of(front, k));
            if k == key {
                assert(size_of(front, key) == 0);
            } else {
                assert(size_of(with_set(so_far, key, set), k) == size_of(so_far, k));
                if has_key(front, k) {
                    let a = position_of(front, k);
                    assert(more[a] == front[a]);
                    lemma_position_of(more, a);
                } else if has_key(more, k) {
                    let a = position_of(more, k);
                    assert(front[a].0 == k);
                }
            }
        }
        if sets_nonempty(entries) && sets_nonempty(more) {
            assert forall|i: int| 0 <= i < front.len() implies (#[trigger] front[i]).1.len() >= 1 by {
                assert(more[i].1.len() >= 1);
            }
        }
    } else {
        assert forall|k: IdPair| size_of(more, k) == 0 by {}
    }
}

/// Items that leave the set of a key, all of them held there, take their
/// number from the size under that key and leave the other sizes alone.
pub proof fn lemma_without_set_size(entries: SetEntries, key: IdPair, gone: Seq<usize>)
    requires
        sets_wf(entries),
        gone.no_duplicates(),
        forall|v: usize| gone.contains(v) ==> holds(entries, key, v),
    ensures
        size_of(without_set(entries, key, gone), key) + gone.len() == size_of(entries, key),
        forall|other: IdPair|
            other != key ==> #[trigger] size_of(without_set(entries, key, gone), other) == size_of(
                entries,
                other,
            ),
        sets_nonempty(entries) ==> sets_nonempty(without_set(entries, key, gone)),
{
    let after = without_set(entries, key, gone);
    lemma_without_set(entries, key, gone);
    lemma_size_holds(entries, key);
    if has_key(entries, key) {
        let i = position_of(entries, key);
        let left = without_items(entries[i].1, gone);
        lemma_without_items_len(entries[i].1, gone);
        if left.len() == 0 {
            lemma_without_key_size(entries, key);
        } else {
            assert(after[i].0 == key);
            lemma_position_of(after, i);
            assert forall|other: IdPair| other != key implies #[trigger] size_of(after, other)
                == size_of(entries, other) by {
                if has_key(entries, other) {
                    let j = position_of(entries, other);
                    assert(after[j] == entries[j]);
                    lemma_position_of(after, j);
                } else if has_key(after, other) {
                    let j = position_of(after, other);
                    assert(entries[j].0 == other);
                }
            }
            if sets_nonempty(entries) {
                assert forall|a: int| 0 <= a < after.len() implies (#[trigger] after[a]).1.len()
                    >= 1 by {
                    if a != i {
                        assert(after[a] == entries[a]);
                    }
                }
            }
        }
    } else {
        if gone.len() > 0 {
            assert(gone.contains(gone[0]));
        }
    }
}

/// A key that leaves takes its size with it and leaves the other sizes alone.
pub proof fn lemma_without_key_size(entries: SetEntries, key: IdPair)
    requires
        sets_wf(entries),
    ensures
        size_of(without_key(entries, key), key) == 0,
        forall|other: IdPair|
            other != key ==> #[trigger] size_of(without_key(entries, key), other) == size_of(
                entries,
                other,
            ),
        sets_nonempty(entries) ==> sets_nonempty(without_key(entries, key)),
{
    let after = without_key(entries, key);
    lemma_without_key(entries, key);
    if has_key(entries, key) {
        let i = position_of(entries, key);
        let last = entries.len() - 1;
        assert forall|a: int| 0 <= a < after.len() implies #[trigger] after[a] == entries[if a == i {
            last
        } else {
            a
        }] by {}
        assert forall|other: IdPair| other != key implies #[trigger] size_of(after, other) == size_of(
            entries,
            other,
        ) by {
            if has_key(entries, other) {
                let j = position_of(entries, other);
                let target = if j == last { i } else { j };
                assert(after[target] == entries[j]);
                lemma_position_of(after, target);
            } else if has_key(after, other) {
                let a = position_of(after, other);
                let source = if a == i { last } else { a };
                assert(entries[source].0 == other);
            }
        }
        if sets_nonempty(entries) {
            assert forall|a: int| 0 <= a < after.len() implies (#[trigger] after[a]).1.len() >= 1 by {
                let source = if a == i { last } else { a };
                assert(after[a] == entries[source]);
            }
        }
    }
}

/// Sets that are taken out, all of their positions held, take their sizes
/// with them.
pub proof fn lemma_taken_out_size(entries: SetEntries, gone: SetEntries)
    requires
        sets_wf(entries),
        sets_wf(gone),
        forall|k: IdPair, v: usize| holds(gone, k, v) ==> holds(entries, k, v),
    ensures
        forall|k: IdPair|
            #[trigger] size_of(taken_out(entries, gone), k) + size_of(gone, k) == size_of(entries, k),
        sets_nonempty(entries) ==> sets_nonempty(taken_out(entries, gone)),
    decreases gone.len(),
{
    if gone.len() > 0 {
        let front = gone.drop_last();
        let (key, set) = gone.last();
        let last = gone.len() - 1;
        assert(gone[last] == (key, set));
        assert(sets_wf(front)) by {
            assert forall|i: int, j: int| 0 <= i < j < front.len() implies (#[trigger] front[i]).0 != (
            #[trigger] front[j]).0 by {
                assert(gone[i].0 != gone[j].0);
            }
            assert forall|i: int| 0 <= i < front.len() implies (#[trigger] front[i]).1.no_duplicates() by {
                assert(gone[i].1.no_duplicates());
            }
        }
        assert forall|k: IdPair, v: usize| holds(front, k, v) implies holds(entries, k, v) by {
            let a = choose|a: int|
                0 <= a < front.len() && (#[trigger] front[a]).0 == k && front[a].1.contains(v);
            assert(gone[a].0 == k);
            assert(holds(gone, k, v));
        }
        lemma_taken_out_size(entries, front);
        lemma_taken_out_holds(entries, front);
        let so_far = taken_out(entries, front);
        assert(!has_key(front, key)) by {
            if has_key(front, key) {
                let a = position_of(front, key);
                assert(gone[a].0 != gone[last].0);
            }
        }
        assert(gone[last].1.no_duplicates());
        assert forall|v: usize| set.contains(v) implies holds(so_far, key, v) by {
            assert(holds(gone, key, v));
            if holds(front, key, v) {
                let a = choose|a: int|
                    0 <= a < front.len() && (#[trigger] front[a]).0 == key && front[a].1.contains(v);
            }
        }
        lemma_without_set_size(so_far, key, set);
        lemma_position_of(gone, last);
        assert forall|k: IdPair| #[trigger] size_of(taken_out(entries, gone), k) + size_of(gone, k)
            == size_of(entries, k) by {
            assert(size_of(so_far, k) + size_of(front, k) == size_of(entries, k));
            if k == key {
                assert(size_of(front, key) == 0);
            } else {
                assert(size_of(without_set(so_far, key, set), k) == size_of(so_far, k));
                if has_key(front, k) {
                    let a = position_of(front, k);
                    assert(gone[a] == front[a]);
                    lemma_position_of(gone, a);
                } else if has_key(gone, k) {
                    let a = position_of(gone, k);
                    assert(front[a].0 == k);
                }
            }
        }
    } else {
        assert forall|k: IdPair| size_of(gone, k) == 0 by {}
    }
}

} // verus!
