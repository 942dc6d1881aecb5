//! Counting adjacent id pairs: which occurrences count, how often a pair
//! occurs, and which pair is the most common one.

use crate::collections::count_entries;
use crate::collections::counts_entry_at;
use crate::collections::counts_len;
use crate::collections::counts_new;
use crate::collections::distinct_keys;
use crate::collections::has_key;
use crate::engine::MIN_PAIR_COUNT;
use crate::token::IdPair;
use crate::token::TokenId;
use crate::utils::bumped;
use crate::utils::count_of;
use crate::utils::increment;
use crate::utils::lemma_bumped;
use crate::utils::lemma_position_of;
use crate::utils::position_of;
use vstd::prelude::*;

verus! {

/// The patterns as sequences of ids.
pub open spec fn pattern_views(patterns: Seq<Vec<TokenId>>) -> Seq<Seq<TokenId>> {
    Seq::new(patterns.len(), |i: int| patterns[i]@)
}

/// Sum of the lengths of the sequences.
pub open spec fn total_len<T>(patterns: Seq<Seq<T>>) -> nat
    decreases patterns.len(),
{
    if patterns.len() == 0 {
        0
    } else {
        total_len(patterns.drop_last()) + patterns.last().len()
    }
}

/// The pair that starts at position `k`.
pub open spec fn window(ids: Seq<TokenId>, k: int) -> IdPair {
    (ids[k], ids[k + 1])
}

/// Whether the pair at position `k` counts. A counted occurrence uses up its
/// two positions: the pair at `k` does not count when it is the same pair as
/// the counted one at `k - 1`, which it then overlaps.
pub open spec fn is_counted(ids: Seq<TokenId>, k: int) -> bool
    decreases k,
{
    if k <= 0 {
        true
    } else {
        !(ids[k - 1] == ids[k] && ids[k] == ids[k + 1] && is_counted(ids, k - 1))
    }
}

/// The counted pairs among the first `n` positions, in scan order.
pub open spec fn counted_upto(ids: Seq<TokenId>, n: int) -> Seq<IdPair>
    decreases n,
{
    if n <= 0 {
        Seq::empty()
    } else if is_counted(ids, n - 1) {
        counted_upto(ids, n - 1).push(window(ids, n - 1))
    } else {
        counted_upto(ids, n - 1)
    }
}

/// The counted pairs of one pattern, in scan order.
pub open spec fn counted(ids: Seq<TokenId>) -> Seq<IdPair> {
    counted_upto(ids, ids.len() - 1)
}

/// The counted pairs of all patterns, pattern after pattern.
pub open spec fn all_counted(patterns: Seq<Seq<TokenId>>) -> Seq<IdPair>
    decreases patterns.len(),
{
    if patterns.len() == 0 {
        Seq::empty()
    } else {
        all_counted(patterns.drop_last()) + counted(patterns.last())
    }
}

/// How often `pair` occurs in `seen`.
pub open spec fn occurrences(seen: Seq<IdPair>, pair: IdPair) -> nat
    decreases seen.len(),
{
    if seen.len() == 0 {
        0
    } else {
        occurrences(seen.drop_last(), pair) + if seen.last() == pair {
            1nat
        } else {
            0nat
        }
    }
}

/// `pair` is seen at a position before which `other` has not been seen.
pub open spec fn seen_no_later(seen: Seq<IdPair>, pair: IdPair, other: IdPair) -> bool {
    exists|i: int|
        0 <= i < seen.len() && #[trigger] seen[i] == pair && forall|j: int|
            0 <= j < i ==> #[trigger] seen[j] != other
}

/// `pair` is seen at a position up to which `other` has not been seen.
pub open spec fn seen_before(seen: Seq<IdPair>, pair: IdPair, other: IdPair) -> bool {
    exists|i: int|
        0 <= i < seen.len() && #[trigger] seen[i] == pair && forall|j: int|
            0 <= j <= i ==> #[trigger] seen[j] != other
}

/// `pair` is the most common pair of `seen`: no pair occurs more often, and
/// of the pairs that occur as often it is the one seen first.
pub open spec fn is_most_common(seen: Seq<IdPair>, pair: IdPair) -> bool {
    &&& seen.contains(pair)
    &&& forall|other: IdPair|
        #[trigger] occurrences(seen, other) < occurrences(seen, pair) || (occurrences(seen, other)
            == occurrences(seen, pair) && seen_no_later(seen, pair, other))
}

/// The most common pair of `seen` with its count, where that count is at least two.
pub open spec fn most_common_duplicate(seen: Seq<IdPair>) -> Option<(IdPair, nat)> {
    if exists|pair: IdPair| is_most_common(seen, pair) && occurrences(seen, pair) >= 2 {
        let pair = choose|pair: IdPair| is_most_common(seen, pair) && occurrences(seen, pair) >= 2;
        Some((pair, occurrences(seen, pair)))
    } else {
        None
    }
}

/// `entries` lists the pairs of `seen` in the order in which they were first
/// seen, each with the number of its occurrences.
pub open spec fn tallies(entries: Seq<(IdPair, usize)>, seen: Seq<IdPair>) -> bool {
    &&& distinct_keys(entries)
    &&& forall|i: int|
        0 <= i < entries.len() ==> (#[trigger] entries[i]).1 == occurrences(seen, entries[i].0)
            && entries[i].1 >= 1
    &&& forall|pair: IdPair| #[trigger] seen.contains(pair) ==> has_key(entries, pair)
    &&& forall|i: int, j: int|
        0 <= i < j < entries.len() ==> seen_before(
            seen,
            (#[trigger] entries[i]).0,
            (#[trigger] entries[j]).0,
        )
}

// ---------------------------------------------------------------------------
// Facts about counting
// ---------------------------------------------------------------------------

/// A pair occurs at least once exactly if the sequence contains it, and never
/// more often than the sequence is long.
pub proof fn lemma_occurrences(seen: Seq<IdPair>, pair: IdPair)
    ensures
        occurrences(seen, pair) >= 1 <==> seen.contains(pair),
        occurrences(seen, pair) <= seen.len(),
    decreases seen.len(),
{
    if seen.len() > 0 {
        lemma_occurrences(seen.drop_last(), pair);
        if seen.drop_last().contains(pair) {
            let i = choose|i: int| 0 <= i < seen.drop_last().len() && seen.drop_last()[i] == pair;
            assert(seen[i] == pair);
        }
        if seen.contains(pair) && seen.last() != pair {
            let i = choose|i: int| 0 <= i < seen.len() && seen[i] == pair;
            assert(seen.drop_last()[i] == pair);
        }
        if seen.last() == pair {
            assert(seen[seen.len() - 1] == pair);
        }
    }
}

/// One more pair seen adds one to its occurrences and nothing to the others'.
pub proof fn lemma_occurrences_push(seen: Seq<IdPair>, last: IdPair, pair: IdPair)
    ensures
        occurrences(seen.push(last), pair) == occurrences(seen, pair) + if last == pair {
            1nat
        } else {
            0nat
        },
{
    assert(seen.push(last).drop_last() =~= seen);
}

/// The occurrences in a concatenation are the sum of the occurrences in its parts.
pub proof fn lemma_occurrences_concat(a: Seq<IdPair>, b: Seq<IdPair>, pair: IdPair)
    ensures
        occurrences(a + b, pair) == occurrences(a, pair) + occurrences(b, pair),
    decreases b.len(),
{
    if b.len() == 0 {
        assert(a + b =~= a);
    } else {
        assert((a + b).drop_last() =~= a + b.drop_last());
        lemma_occurrences_concat(a, b.drop_last(), pair);
    }
}

/// A pair that is seen is seen for a first time.
pub proof fn lemma_first_seen(seen: Seq<IdPair>, pair: IdPair)
    requires
        seen.contains(pair),
    ensures
        seen_no_later(seen, pair, pair),
    decreases seen.len(),
{
    if seen.drop_last().contains(pair) {
        lemma_first_seen(seen.drop_last(), pair);
        let i = choose|i: int|
            0 <= i < seen.drop_last().len() && #[trigger] seen.drop_last()[i] == pair && forall|j: int|
                0 <= j < i ==> #[trigger] seen.drop_last()[j] != pair;
        assert(seen[i] == pair);
        assert forall|j: int| 0 <= j < i implies #[trigger] seen[j] != pair by {
            assert(seen.drop_last()[j] != pair);
        }
    } else {
        let i = choose|i: int| 0 <= i < seen.len() && seen[i] == pair;
        if i < seen.len() - 1 {
            assert(seen.drop_last()[i] == pair);
        }
        let last = seen.len() - 1;
        assert(seen[last] == pair);
        assert forall|j: int| 0 <= j < last implies #[trigger] seen[j] != pair by {
            if seen[j] == pair {
                assert(seen.drop_last()[j] == pair);
            }
        }
    }
}

/// There is at most one most common pair.
pub proof fn lemma_most_common_unique(seen: Seq<IdPair>, a: IdPair, b: IdPair)
    requires
        is_most_common(seen, a),
        is_most_common(seen, b),
    ensures
        a == b,
{
    assert(occurrences(seen, b) < occurrences(seen, a) || (occurrences(seen, b) == occurrences(seen, a)
        && seen_no_later(seen, a, b)));
    assert(occurrences(seen, a) < occurrences(seen, b) || (occurrences(seen, a) == occurrences(seen, b)
        && seen_no_later(seen, b, a)));
    let i = choose|i: int|
        0 <= i < seen.len() && #[trigger] seen[i] == a && forall|j: int|
            0 <= j < i ==> #[trigger] seen[j] != b;
    let k = choose|k: int|
        0 <= k < seen.len() && #[trigger] seen[k] == b && forall|j: int|
            0 <= j < k ==> #[trigger] seen[j] != a;
    if i < k {
        assert(seen[i] != a);
    } else if k < i {
        assert(seen[k] != b);
    }
}

/// Counting one more pair keeps the tally.
pub proof fn lemma_tally_step(entries: Seq<(IdPair, usize)>, seen: Seq<IdPair>, pair: IdPair)
    requires
        tallies(entries, seen),
        seen.len() < usize::MAX,
    ensures
        count_of(entries, pair) == occurrences(seen, pair),
        count_of(entries, pair) < usize::MAX,
        tallies(bumped(entries, pair, 1), seen.push(pair)),
{
    let after = bumped(entries, pair, 1);
    let more = seen.push(pair);
    lemma_occurrences(seen, pair);
    if has_key(entries, pair) {
        let i = position_of(entries, pair);
        assert(entries[i].1 == occurrences(seen, entries[i].0));
    }
    lemma_bumped(entries, pair, 1);
    assert forall|i: int| 0 <= i < after.len() implies (#[trigger] after[i]).1 == occurrences(
        more,
        after[i].0,
    ) && after[i].1 >= 1 by {
        let key = after[i].0;
        lemma_position_of(after, i);
        lemma_occurrences_push(seen, pair, key);
        if key != pair {
            assert(entries[i].0 == key);
            lemma_position_of(entries, i);
        }
    }
    assert forall|other: IdPair| #[trigger] more.contains(other) implies has_key(after, other) by {
        let i = choose|i: int| 0 <= i < more.len() && more[i] == other;
        if i < seen.len() {
            assert(seen[i] == other);
            assert(seen.contains(other));
            assert(has_key(entries, other));
        } else {
            assert(other == pair);
        }
        assert(has_key(bumped(entries, pair, 1), other) <==> (other == pair || has_key(entries, other)));
    }
    assert forall|i: int, j: int| 0 <= i < j < after.len() implies seen_before(
        more,
        (#[trigger] after[i]).0,
        (#[trigger] after[j]).0,
    ) by {
        if j < entries.len() {
            assert(after[i].0 == entries[i].0 && after[j].0 == entries[j].0);
            assert(seen_before(seen, entries[i].0, entries[j].0));
            let k = choose|k: int|
                0 <= k < seen.len() && #[trigger] seen[k] == entries[i].0 && forall|m: int|
                    0 <= m <= k ==> #[trigger] seen[m] != entries[j].0;
            assert(more[k] == after[i].0);
            assert forall|m: int| 0 <= m <= k implies #[trigger] more[m] != after[j].0 by {
                assert(seen[m] != entries[j].0);
            }
        } else {
            assert(after[j].0 == pair && !has_key(entries, pair));
            assert(after[i].0 == entries[i].0);
            assert(entries[i].1 == occurrences(seen, entries[i].0));
            lemma_occurrences(seen, entries[i].0);
            let k = choose|k: int| 0 <= k < seen.len() && seen[k] == entries[i].0;
            assert(more[k] == after[i].0);
            assert forall|m: int| 0 <= m <= k implies #[trigger] more[m] != pair by {
                if seen[m] == pair {
                    assert(seen.contains(pair));
                }
            }
        }
    }
}

/// The first entry with the largest count names the most common pair.
pub proof fn lemma_tally_best(entries: Seq<(IdPair, usize)>, seen: Seq<IdPair>, best: int)
    requires
        tallies(entries, seen),
        0 <= best < entries.len(),
        forall|j: int| 0 <= j < entries.len() ==> (#[trigger] entries[j]).1 <= entries[best].1,
        forall|j: int| 0 <= j < best ==> (#[trigger] entries[j]).1 < entries[best].1,
    ensures
        is_most_common(seen, entries[best].0),
        occurrences(seen, entries[best].0) == entries[best].1,
{
    let pair = entries[best].0;
    assert(entries[best].1 == occurrences(seen, pair));
    lemma_occurrences(seen, pair);
    assert forall|other: IdPair|
        #[trigger] occurrences(seen, other) < occurrences(seen, pair) || (occurrences(seen, other)
            == occurrences(seen, pair) && seen_no_later(seen, pair, other)) by {
        lemma_occurrences(seen, other);
        if seen.contains(other) {
            let j = position_of(entries, other);
            assert(entries[j].1 == occurrences(seen, entries[j].0));
            if occurrences(seen, other) == occurrences(seen, pair) {
                if j == best {
                    lemma_first_seen(seen, pair);
                } else {
                    assert(best < j);
                    assert(seen_before(seen, entries[best].0, entries[j].0));
                    let k = choose|k: int|
                        0 <= k < seen.len() && #[trigger] seen[k] == pair && forall|m: int|
                            0 <= m <= k ==> #[trigger] seen[m] != other;
                    assert forall|m: int| 0 <= m < k implies #[trigger] seen[m] != other by {}
                }
            }
        }
    }
}

/// In a tally without an entry of count two or more no pair occurs twice.
pub proof fn lemma_tally_no_duplicate(entries: Seq<(IdPair, usize)>, seen: Seq<IdPair>)
    requires
        tallies(entries, seen),
        forall|j: int| 0 <= j < entries.len() ==> (#[trigger] entries[j]).1 < 2,
    ensures
        forall|pair: IdPair| #[trigger] occurrences(seen, pair) < 2,
        most_common_duplicate(seen) is None,
{
    assert forall|pair: IdPair| #[trigger] occurrences(seen, pair) < 2 by {
        lemma_occurrences(seen, pair);
        if seen.contains(pair) {
            let j = position_of(entries, pair);
            assert(entries[j].1 == occurrences(seen, entries[j].0));
        }
    }
}

/// The counted pairs of the patterns are fewer than their ids.
pub proof fn lemma_counted_len(ids: Seq<TokenId>, n: int)
    ensures
        counted_upto(ids, n).len() <= if n <= 0 {
            0
        } else {
            n
        },
    decreases n,
{
    if n > 0 {
        lemma_counted_len(ids, n - 1);
    }
}

/// The total length grows with every pattern.
pub proof fn lemma_total_len_take(patterns: Seq<Seq<TokenId>>, p: int)
    requires
        0 <= p < patterns.len(),
    ensures
        total_len(patterns.take(p)) + patterns[p].len() == total_len(patterns.take(p + 1)),
        total_len(patterns.take(p + 1)) <= total_len(patterns),
        all_counted(patterns.take(p + 1)) == all_counted(patterns.take(p)) + counted(patterns[p]),
        all_counted(patterns.take(p)).len() <= total_len(patterns.take(p)),
    decreases patterns.len() - p,
{
    assert(patterns.take(p + 1).drop_last() =~= patterns.take(p));
    assert(patterns.take(p + 1).last() == patterns[p]);
    if p + 1 < patterns.len() {
        lemma_total_len_take(patterns, p + 1);
    } else {
        assert(patterns.take(p + 1) =~= patterns);
    }
    lemma_all_counted_len(patterns.take(p));
}

/// There are no more counted pairs than ids.
pub proof fn lemma_all_counted_len(patterns: Seq<Seq<TokenId>>)
    ensures
        all_counted(patterns).len() <= total_len(patterns),
    decreases patterns.len(),
{
    if patterns.len() > 0 {
        lemma_all_counted_len(patterns.drop_last());
        lemma_counted_len(patterns.last(), patterns.last().len() - 1);
    }
}

/// The most common adjacent id pair over all patterns, with its count, where
/// that count is at least two. Within a pattern the scan runs left to right
/// and a counted occurrence uses up its two positions; of the pairs that are
/// as common, the one seen first wins.
pub fn find_most_common_duplicate_id_pair(patterns: &Vec<Vec<TokenId>>) -> (r: Option<
    (IdPair, usize),
>)
    requires
        total_len(pattern_views(patterns@)) <= usize::MAX,
    ensures
        match r {
            Some((pair, count)) => is_most_common(all_counted(pattern_views(patterns@)), pair)
                && count == occurrences(all_counted(pattern_views(patterns@)), pair) && count >= 2,
            None => forall|pair: IdPair|
                #[trigger] occurrences(all_counted(pattern_views(patterns@)), pair) < 2,
        },
        match r {
            Some((pair, count)) => most_common_duplicate(all_counted(pattern_views(patterns@)))
                == Some((pair, count as nat)),
            None => most_common_duplicate(all_counted(pattern_views(patterns@))) is None,
        },
{
    let ghost views = pattern_views(patterns@);
    let mut counts = counts_new();
    let ghost mut seen: Seq<IdPair> = Seq::empty();
    let mut p: usize = 0;
    assert(views.take(0) =~= Seq::<Seq<TokenId>>::empty());
    while p < patterns.len()
        invariant
            views == pattern_views(patterns@),
            total_len(views) <= usize::MAX,
            p <= patterns@.len(),
            tallies(count_entries(counts), seen),
            seen == all_counted(views.take(p as int)),
        decreases patterns@.len() - p,
    {
        let pattern = &patterns[p];
        let n = pattern.len();
        let ghost ids = pattern@;
        let ghost base = seen;
        let windows = if n == 0 {
            0
        } else {
            n - 1
        };
        let mut k: usize = 0;
        let mut previous_counted = false;
        proof {
            lemma_total_len_take(views, p as int);
            assert(views[p as int] == ids);
            assert(base + counted_upto(ids, 0) =~= base);
        }
        while k < windows
            invariant
                n == ids.len(),
                ids == pattern@,
                windows == if n == 0 { 0 } else { n - 1 },
                k <= windows,
                k == 0 || previous_counted == is_counted(ids, k - 1),
                tallies(count_entries(counts), seen),
                seen == base + counted_upto(ids, k as int),
                base.len() + n <= usize::MAX,
            decreases n - k,
        {
            let counted_here = !(k > 0 && previous_counted && pattern[k - 1] == pattern[k]
                && pattern[k] == pattern[k + 1]);
            assert(counted_here == is_counted(ids, k as int));
            if counted_here {
                let pair = (pattern[k], pattern[k + 1]);
                proof {
                    lemma_counted_len(ids, k as int);
                    lemma_tally_step(count_entries(counts), seen, pair);
                    assert(seen.push(pair) =~= base + counted_upto(ids, k + 1));
                }
                increment(&mut counts, pair);
                proof {
                    seen = seen.push(pair);
                }
            }
            previous_counted = counted_here;
            k = k + 1;
        }
        proof {
            assert(counted_upto(ids, k as int) == counted(ids));
            assert(seen == all_counted(views.take(p + 1)));
        }
        p = p + 1;
    }
    assert(views.take(p as int) =~= views);
    let n = counts_len(&counts);
    let mut best: Option<(IdPair, usize)> = None;
    let ghost mut best_index: int = 0;
    let mut i: usize = 0;
    while i < n
        invariant
            n == count_entries(counts).len(),
            i <= n,
            tallies(count_entries(counts), seen),
            i == 0 ==> best is None,
            i > 0 ==> 0 <= best_index < i && best == Some(count_entries(counts)[best_index]),
            forall|j: int|
                0 <= j < i ==> (#[trigger] count_entries(counts)[j]).1 <= count_entries(
                    counts,
                )[best_index].1,
            forall|j: int|
                0 <= j < best_index ==> (#[trigger] count_entries(counts)[j]).1 < count_entries(
                    counts,
                )[best_index].1,
        decreases n - i,
    {
        let (pair, count) = counts_entry_at(&counts, i).unwrap();
        match best {
            Some((_, most)) => {
                if count > most {
                    best = Some((pair, count));
                    proof {
                        best_index = i as int;
                    }
                }
            },
            None => {
                best = Some((pair, count));
                proof {
                    best_index = i as int;
                }
            },
        }
        i = i + 1;
    }
    match best {
        Some((pair, count)) => {
            proof {
                lemma_tally_best(count_entries(counts), seen, best_index);
            }
            if count >= MIN_PAIR_COUNT {
                proof {
                    lemma_most_common_duplicate(seen, pair);
                }
                Some((pair, count))
            } else {
                proof {
                    lemma_tally_no_duplicate(count_entries(counts), seen);
                }
                None
            }
        },
        None => {
            proof {
                lemma_tally_no_duplicate(count_entries(counts), seen);
            }
            None
        },
    }
}

/// A most common pair that occurs twice is the most common duplicate.
pub proof fn lemma_most_common_duplicate(seen: Seq<IdPair>, pair: IdPair)
    requires
        is_most_common(seen, pair),
        occurrences(seen, pair) >= 2,
    ensures
        most_common_duplicate(seen) == Some((pair, occurrences(seen, pair))),
{
    let chosen = choose|chosen: IdPair|
        is_most_common(seen, chosen) && occurrences(seen, chosen) >= 2;
    lemma_most_common_unique(seen, pair, chosen);
}

} // verus!
