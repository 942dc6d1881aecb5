//! Why the index of pair locations stays true to its buffer: a location is
//! recorded for a pair exactly where the buffer holds the pair's first id
//! and, in the next slot that is not vacated, its second.

use crate::re_pair::lemma_live_in_range;
use crate::re_pair::lemma_next_live_skip;
use crate::re_pair::lemma_prev_in_range;
use crate::re_pair::next_live;
use crate::re_pair::next_live_from;
use crate::re_pair::prev_live;
use crate::re_pair::vacant;
use crate::collections::has_key;
use crate::training::involves;
use crate::re_pair::lemma_replaced_all_none;
use crate::re_pair::pattern_merged;
use crate::re_pair::replaced_all;
use crate::re_pair::replaced_at;
use crate::re_pair::window_locations;
use crate::re_pair::Edits;
use crate::re_pair::PatternState;
use crate::token::IdPair;
use crate::token::TokenId;
use crate::utils::holds;
use crate::utils::lemma_merged_in_holds;
use crate::utils::lemma_position_of;
use crate::utils::lemma_taken_out_holds;
use crate::utils::lemma_with_location;
use crate::utils::lemma_with_locations_holds;
use crate::utils::lemma_without_key;
use crate::utils::merged_in;
use crate::utils::position_of;
use crate::utils::sets_wf;
use crate::utils::taken_out;
use crate::utils::with_location;
use crate::utils::with_locations;
use crate::utils::without_key;
use crate::sizes::sets_nonempty;
use crate::utils::SetEntries;
use vstd::prelude::*;

verus! {

/// The pair that starts at position `i`: the id there and the id in the
/// next slot that is not vacated, where both exist.
pub open spec fn pair_at(buffer: Seq<TokenId>, i: int) -> Option<IdPair> {
    if 0 <= i < buffer.len() && buffer[i] != vacant() {
        match next_live(buffer, i) {
            Some(j) => Some((buffer[i], buffer[j])),
            None => None,
        }
    } else {
        None
    }
}

/// The slots from `a` up to the one that a search finds are vacated; where
/// it finds none, all slots from `a` on are.
pub proof fn lemma_next_live_found(buffer: Seq<TokenId>, a: int)
    requires
        0 <= a,
    ensures
        match next_live_from(buffer, a) {
            Some(k) => a <= k < buffer.len() && buffer[k] != vacant() && forall|m: int|
                a <= m < k ==> #[trigger] buffer[m] == vacant(),
            None => forall|m: int| a <= m < buffer.len() ==> #[trigger] buffer[m] == vacant(),
        },
    decreases buffer.len() - a,
{
    if a < buffer.len() && buffer[a] == vacant() {
        lemma_next_live_found(buffer, a + 1);
    }
}

/// A search from `a` finds the first slot that is not vacated.
pub proof fn lemma_next_live_is(buffer: Seq<TokenId>, a: int, k: int)
    requires
        0 <= a <= k < buffer.len(),
        buffer[k] != vacant(),
        forall|m: int| a <= m < k ==> #[trigger] buffer[m] == vacant(),
    ensures
        next_live_from(buffer, a) == Some(k),
{
    lemma_next_live_skip(buffer, a, k);
}

/// A search from `a` finds nothing where every slot from `a` on is vacated.
pub proof fn lemma_next_live_none(buffer: Seq<TokenId>, a: int)
    requires
        0 <= a,
        forall|m: int| a <= m < buffer.len() ==> #[trigger] buffer[m] == vacant(),
    ensures
        next_live_from(buffer, a) is None,
    decreases buffer.len() - a,
{
    if a < buffer.len() {
        lemma_next_live_none(buffer, a + 1);
    }
}

/// The slots between the one that a backward search finds and `a` are
/// vacated; where it finds none, all slots before `a` are.
pub proof fn lemma_prev_live_found(buffer: Seq<TokenId>, a: int)
    requires
        a <= buffer.len(),
    ensures
        match prev_live(buffer, a) {
            Some(k) => 0 <= k < a && buffer[k] != vacant() && forall|m: int|
                k < m < a ==> #[trigger] buffer[m] == vacant(),
            None => forall|m: int| 0 <= m < a ==> #[trigger] buffer[m] == vacant(),
        },
    decreases a,
{
    if a > 0 && buffer[a - 1] == vacant() {
        lemma_prev_live_found(buffer, a - 1);
    }
}

/// What one replacement changes: the first id of the pair gives way to the
/// new id, the second to a vacant slot.
pub open spec fn rewritten(buffer: Seq<TokenId>, index0: int, index1: int, replacement: TokenId) -> Seq<
    TokenId,
> {
    buffer.update(index0, replacement).update(index1, vacant())
}

/// A replacement leaves the pair at every position alone but at the two
/// positions of the pair and at the position before them.
pub proof fn lemma_pairs_elsewhere(
    buffer: Seq<TokenId>,
    index0: int,
    index1: int,
    replacement: TokenId,
    j: int,
)
    requires
        0 <= index0 < buffer.len(),
        buffer[index0] != vacant(),
        next_live(buffer, index0) == Some(index1),
        replacement != vacant(),
        j != index0,
        j != index1,
        prev_live(buffer, index0) != Some(j),
    ensures
        pair_at(rewritten(buffer, index0, index1, replacement), j) == pair_at(buffer, j),
{
    let after = rewritten(buffer, index0, index1, replacement);
    lemma_next_live_found(buffer, index0 + 1);
    lemma_prev_live_found(buffer, index0);
    if 0 <= j < buffer.len() && buffer[j] != vacant() {
        lemma_next_live_found(buffer, j + 1);
        if j > index1 {
            match next_live(buffer, j) {
                Some(k) => lemma_next_live_is(after, j + 1, k),
                None => lemma_next_live_none(after, j + 1),
            }
        } else if j < index0 {
            // Some slot between `j` and the pair holds an id: the search
            // from `j` ends before the pair.
            let before = prev_live(buffer, index0)->0;
            assert(prev_live(buffer, index0) is Some) by {
                if prev_live(buffer, index0) is None {
                    assert(buffer[j] == vacant());
                }
            }
            assert(j < before) by {
                if j > before {
                    assert(buffer[j] == vacant());
                }
            }
            let k = next_live(buffer, j)->0;
            assert(next_live(buffer, j) is Some && k <= before) by {
                if next_live(buffer, j) is None {
                    assert(buffer[before] == vacant());
                } else if k > before {
                    assert(buffer[before] == vacant());
                }
            }
            lemma_next_live_is(after, j + 1, k);
        } else {
            assert(buffer[j] == vacant());
        }
    }
}

/// After a replacement no pair starts at the vacated slot, and the pair at
/// the rewritten slot is the new id with the id behind the old pair.
pub proof fn lemma_pairs_rewritten(
    buffer: Seq<TokenId>,
    index0: int,
    index1: int,
    replacement: TokenId,
)
    requires
        0 <= index0 < buffer.len(),
        buffer[index0] != vacant(),
        next_live(buffer, index0) == Some(index1),
        replacement != vacant(),
    ensures
        pair_at(rewritten(buffer, index0, index1, replacement), index1) is None,
        pair_at(rewritten(buffer, index0, index1, replacement), index0) == (match next_live(
            buffer,
            index1,
        ) {
            Some(behind) => Some((replacement, buffer[behind])),
            None => None,
        }),
        next_live(rewritten(buffer, index0, index1, replacement), index0) == next_live(
            buffer,
            index1,
        ),
{
    let after = rewritten(buffer, index0, index1, replacement);
    lemma_next_live_found(buffer, index0 + 1);
    lemma_next_live_found(buffer, index1 + 1);
    match next_live(buffer, index1) {
        Some(behind) => {
            lemma_next_live_is(after, index0 + 1, behind);
        },
        None => {
            lemma_next_live_none(after, index0 + 1);
        },
    }
}

/// The pair at the position before a replaced pair: its second id was the
/// first id of the pair and is the new id afterwards.
pub proof fn lemma_pairs_before(
    buffer: Seq<TokenId>,
    index0: int,
    index1: int,
    replacement: TokenId,
    before: int,
)
    requires
        0 <= index0 < buffer.len(),
        buffer[index0] != vacant(),
        next_live(buffer, index0) == Some(index1),
        replacement != vacant(),
        prev_live(buffer, index0) == Some(before),
    ensures
        pair_at(buffer, before) == Some((buffer[before], buffer[index0])),
        pair_at(rewritten(buffer, index0, index1, replacement), before) == Some(
            (buffer[before], replacement),
        ),
        next_live(rewritten(buffer, index0, index1, replacement), before) == Some(index0),
{
    let after = rewritten(buffer, index0, index1, replacement);
    lemma_next_live_found(buffer, index0 + 1);
    lemma_prev_live_found(buffer, index0);
    lemma_next_live_is(buffer, before + 1, index0);
    lemma_next_live_is(after, before + 1, index0);
}

/// The slot has had its part in a replacement by `replacement`: it holds
/// the new id, or is vacated, or the next slot that is not vacated holds the
/// new id.
pub open spec fn touched(buffer: Seq<TokenId>, q: int, replacement: TokenId) -> bool {
    0 <= q < buffer.len() && (buffer[q] == replacement || buffer[q] == vacant() || match next_live(
        buffer,
        q,
    ) {
        Some(j) => buffer[j] == replacement,
        None => false,
    })
}

/// A slot that has had its part in a replacement keeps that mark through
/// the replacements that follow.
pub proof fn lemma_touched_stays(
    buffer: Seq<TokenId>,
    index0: int,
    index1: int,
    replacement: TokenId,
    q: int,
)
    requires
        0 <= index0 < buffer.len(),
        buffer[index0] != vacant(),
        buffer[index0] != replacement,
        next_live(buffer, index0) == Some(index1),
        buffer[index1] != replacement,
        replacement != vacant(),
        touched(buffer, q, replacement),
    ensures
        touched(rewritten(buffer, index0, index1, replacement), q, replacement),
{
    let after = rewritten(buffer, index0, index1, replacement);
    lemma_next_live_found(buffer, index0 + 1);
    if buffer[q] != replacement && buffer[q] != vacant() {
        lemma_next_live_found(buffer, q + 1);
        let j = next_live(buffer, q)->0;
        assert(j != index0 && j != index1);
        if q == index0 || q == index1 {
        } else {
            assert forall|m: int| q + 1 <= m < j implies #[trigger] after[m] == vacant() by {
                assert(buffer[m] == vacant());
            }
            lemma_next_live_is(after, q + 1, j);
        }
    }
}

/// The index is true to the buffer: it records a location for a pair
/// exactly where the pair starts in the buffer.
pub open spec fn consistent(buffer: Seq<TokenId>, index: SetEntries) -> bool {
    forall|pair: IdPair, i: usize|
        #[trigger] holds(index, pair, i) <==> pair_at(buffer, i as int) == Some(pair)
}

/// The location `i` is among the locations from number `t` on.
pub open spec fn pending(all: Seq<usize>, t: int, i: usize) -> bool {
    exists|s: int| t <= s < all.len() && #[trigger] all[s] == i
}

/// What the index will hold once the edits are applied: what it holds or
/// gains, but for what it loses.
pub open spec fn will_hold(
    base: SetEntries,
    added: SetEntries,
    removed: SetEntries,
    pair: IdPair,
    i: usize,
) -> bool {
    (holds(base, pair, i) || holds(added, pair, i)) && !holds(removed, pair, i)
}

/// The edits after the first `t` locations are true to the buffer at every
/// position that is not waiting for its turn, and every edit stands at a
/// slot that has had its part in a replacement.
pub open spec fn edits_consistent(
    base: SetEntries,
    edits: Edits,
    all: Seq<usize>,
    t: int,
    replacement: TokenId,
) -> bool {
    let (buffer, added, removed) = edits;
    &&& sets_wf(added)
    &&& sets_wf(removed)
    &&& forall|pair: IdPair, i: usize|
        !pending(all, t, i) ==> (#[trigger] will_hold(base, added, removed, pair, i) <==> pair_at(
            buffer,
            i as int,
        ) == Some(pair))
    &&& forall|pair: IdPair, i: usize| #[trigger]
        holds(added, pair, i) ==> touched(buffer, i as int, replacement)
    &&& forall|pair: IdPair, i: usize| #[trigger]
        holds(removed, pair, i) ==> touched(buffer, i as int, replacement) && (pair.1 == replacement
            ==> buffer[i as int] == vacant())
}

/// One replacement keeps the edits true to the buffer.
pub proof fn lemma_replaced_at_consistent(
    base: SetEntries,
    edits: Edits,
    all: Seq<usize>,
    t: int,
    id0: TokenId,
    id1: TokenId,
    replacement: TokenId,
)
    requires
        edits_consistent(base, edits, all, t, replacement),
        forall|pair: IdPair, i: usize| pending(all, 0, i) ==> !#[trigger] holds(base, pair, i),
        0 <= t < all.len(),
        edits.0.len() <= usize::MAX,
        replacement != vacant(),
        replacement != id0,
        replacement != id1,
        id0 != vacant(),
        replaced_at(edits, id0, id1, replacement, all[t]) is Some,
    ensures
        edits_consistent(
            base,
            replaced_at(edits, id0, id1, replacement, all[t])->0,
            all,
            t + 1,
            replacement,
        ),
{
    let (buffer, added, removed) = edits;
    let next = replaced_at(edits, id0, id1, replacement, all[t])->0;
    let (buffer2, added2, removed2) = next;
    let index0 = all[t];
    let i0 = index0 as int;
    let i1 = next_live(buffer, i0)->0;
    let prev = prev_live(buffer, i0);
    let behind = next_live(buffer, i1);
    lemma_live_in_range(buffer, i0);
    lemma_live_in_range(buffer, i1);
    lemma_prev_in_range(buffer, i0);
    lemma_next_live_found(buffer, i0 + 1);
    lemma_prev_live_found(buffer, i0);
    lemma_pairs_rewritten(buffer, i0, i1, replacement);
    assert(buffer2 == rewritten(buffer, i0, i1, replacement));
    let (removed1, added1) = match prev {
        Some(before) => (
            with_location(removed, (buffer[before], id0), before as usize),
            with_location(added, (buffer[before], replacement), before as usize),
        ),
        None => (removed, added),
    };
    match prev {
        Some(before) => {
            lemma_with_location(removed, (buffer[before], id0), before as usize);
            lemma_with_location(added, (buffer[before], replacement), before as usize);
            lemma_pairs_before(buffer, i0, i1, replacement, before);
        },
        None => {},
    }
    match behind {
        Some(n) => {
            lemma_with_location(removed1, (id1, buffer[n]), i1 as usize);
            lemma_with_location(added1, (replacement, buffer[n]), index0);
        },
        None => {},
    }
    // What the edits hold after the replacement.
    assert forall|k: IdPair, v: usize| #[trigger] holds(added2, k, v) <==> (holds(added, k, v) || (
    prev is Some && k == (buffer[prev->0], replacement) && v == prev->0) || (behind is Some && k == (
        replacement,
        buffer[behind->0],
    ) && v == index0)) by {
        assert(holds(added1, k, v) <==> (holds(added, k, v) || (prev is Some && k == (
            buffer[prev->0],
            replacement,
        ) && v == prev->0)));
    }
    assert forall|k: IdPair, v: usize| #[trigger] holds(removed2, k, v) <==> (holds(removed, k, v) || (
    prev is Some && k == (buffer[prev->0], id0) && v == prev->0) || (behind is Some && k == (
        id1,
        buffer[behind->0],
    ) && v == i1)) by {
        assert(holds(removed1, k, v) <==> (holds(removed, k, v) || (prev is Some && k == (
            buffer[prev->0],
            id0,
        ) && v == prev->0)));
    }
    // The location that is replaced has had no part in a replacement yet.
    assert(!touched(buffer, i0, replacement));
    assert(pending(all, t, index0));
    assert(pending(all, 0, index0));
    assert forall|pair: IdPair, i: usize| !pending(all, t + 1, i) implies (#[trigger] will_hold(
        base,
        added2,
        removed2,
        pair,
        i,
    ) <==> pair_at(buffer2, i as int) == Some(pair)) by {
        if i == index0 {
            assert(!holds(base, pair, i));
            assert(!holds(added, pair, i));
            assert(!holds(removed, pair, i));
        } else {
            assert(!pending(all, t, i)) by {
                if pending(all, t, i) {
                    let s = choose|s: int| t <= s < all.len() && #[trigger] all[s] == i;
                    assert(t + 1 <= s);
                }
            }
            assert(will_hold(base, added, removed, pair, i) <==> pair_at(buffer, i as int) == Some(
                pair,
            ));
            if i == i1 {
            } else if prev == Some(i as int) {
                if pair.1 == replacement && holds(removed, pair, i) {
                    assert(buffer[i as int] == vacant());
                }
            } else {
                lemma_pairs_elsewhere(buffer, i0, i1, replacement, i as int);
            }
        }
    }
    assert forall|pair: IdPair, i: usize| #[trigger] holds(added2, pair, i) implies touched(
        buffer2,
        i as int,
        replacement,
    ) by {
        if holds(added, pair, i) {
            lemma_touched_stays(buffer, i0, i1, replacement, i as int);
        }
    }
    assert forall|pair: IdPair, i: usize| #[trigger] holds(removed2, pair, i) implies touched(
        buffer2,
        i as int,
        replacement,
    ) && (pair.1 == replacement ==> buffer2[i as int] == vacant()) by {
        if holds(removed, pair, i) {
            lemma_touched_stays(buffer, i0, i1, replacement, i as int);
        }
    }
}

/// The replacements at the first `t` locations keep the edits true to the
/// buffer.
pub proof fn lemma_replaced_all_consistent(
    base: SetEntries,
    buffer: Seq<TokenId>,
    all: Seq<usize>,
    t: int,
    id0: TokenId,
    id1: TokenId,
    replacement: TokenId,
)
    requires
        forall|pair: IdPair, i: usize|
            !pending(all, 0, i) ==> (#[trigger] holds(base, pair, i) <==> pair_at(buffer, i as int)
                == Some(pair)),
        forall|pair: IdPair, i: usize| pending(all, 0, i) ==> !#[trigger] holds(base, pair, i),
        0 <= t <= all.len(),
        buffer.len() <= usize::MAX,
        replacement != vacant(),
        replacement != id0,
        replacement != id1,
        id0 != vacant(),
        replaced_all((buffer, Seq::empty(), Seq::empty()), id0, id1, replacement, all.take(t))
            is Some,
    ensures
        ({
            let after = replaced_all(
                (buffer, Seq::empty(), Seq::empty()),
                id0,
                id1,
                replacement,
                all.take(t),
            )->0;
            edits_consistent(base, after, all, t, replacement) && after.0.len() == buffer.len()
        }),
    decreases t,
{
    let start: Edits = (buffer, Seq::empty(), Seq::empty());
    if t == 0 {
        assert(all.take(0) =~= Seq::<usize>::empty());
        let none: SetEntries = Seq::empty();
        assert forall|pair: IdPair, i: usize| !holds(none, pair, i) by {}
    } else {
        assert(all.take(t).drop_last() =~= all.take(t - 1));
        assert(all.take(t).last() == all[t - 1]);
        lemma_replaced_all_consistent(base, buffer, all, t - 1, id0, id1, replacement);
        let so_far = replaced_all(start, id0, id1, replacement, all.take(t - 1))->0;
        lemma_replaced_at_consistent(base, so_far, all, t - 1, id0, id1, replacement);
        lemma_live_in_range(so_far.0, all[t - 1] as int);
    }
}

/// Index consistency: the merge of a pair leaves the index of a pattern
/// true to its buffer.
pub proof fn lemma_pattern_merged_consistent(
    state: PatternState,
    id0: TokenId,
    id1: TokenId,
    replacement: TokenId,
)
    requires
        sets_wf(state.1),
        consistent(state.0, state.1),
        state.0.len() <= usize::MAX,
        replacement != vacant(),
        replacement != id0,
        replacement != id1,
        id0 != vacant(),
        pattern_merged(state, id0, id1, replacement) is Ok,
    ensures
        ({
            let after = pattern_merged(state, id0, id1, replacement)->Ok_0;
            sets_wf(after.1) && consistent(after.0, after.1) && after.0.len() == state.0.len()
        }),
{
    let (buffer, index, counts) = state;
    let key = (id0, id1);
    if has_key(index, key) {
        let at = position_of(index, key);
        let all = index[at].1;
        let base = without_key(index, key);
        lemma_without_key(index, key);
        assert forall|i: usize| pending(all, 0, i) <==> #[trigger] holds(index, key, i) by {
            if pending(all, 0, i) {
                let s = choose|s: int| 0 <= s < all.len() && #[trigger] all[s] == i;
                assert(index[at].0 == key && index[at].1.contains(i));
            }
            if holds(index, key, i) {
                let a = choose|a: int|
                    0 <= a < index.len() && (#[trigger] index[a]).0 == key && index[a].1.contains(i);
                lemma_position_of(index, a);
                let s = choose|s: int| 0 <= s < all.len() && all[s] == i;
                assert(all[s] == i);
            }
        }
        assert forall|pair: IdPair, i: usize| !pending(all, 0, i) implies (#[trigger] holds(
            base,
            pair,
            i,
        ) <==> pair_at(buffer, i as int) == Some(pair)) by {
            assert(holds(index, pair, i) <==> pair_at(buffer, i as int) == Some(pair));
            assert(holds(index, key, i) <==> pair_at(buffer, i as int) == Some(key));
        }
        assert forall|pair: IdPair, i: usize| pending(all, 0, i) implies !#[trigger] holds(
            base,
            pair,
            i,
        ) by {
            assert(holds(index, pair, i) <==> pair_at(buffer, i as int) == Some(pair));
            assert(holds(index, key, i) <==> pair_at(buffer, i as int) == Some(key));
        }
        assert(all.take(all.len() as int) =~= all);
        lemma_replaced_all_consistent(base, buffer, all, all.len() as int, id0, id1, replacement);
        let (rewritten, added, removed) = replaced_all(
            (buffer, Seq::empty(), Seq::empty()),
            id0,
            id1,
            replacement,
            all,
        )->0;
        lemma_merged_in_holds(base, added);
        lemma_taken_out_holds(merged_in(base, added), removed);
        let after = taken_out(merged_in(base, added), removed);
        assert forall|pair: IdPair, i: usize| #[trigger] holds(after, pair, i) <==> pair_at(
            rewritten,
            i as int,
        ) == Some(pair) by {
            assert(!pending(all, all.len() as int, i));
            assert(will_hold(base, added, removed, pair, i) <==> pair_at(rewritten, i as int) == Some(
                pair,
            ));
        }
    }
}

/// At the start the index is true to the buffer.
pub proof fn lemma_initial_consistent(buffer: Seq<TokenId>)
    requires
        forall|i: int| 0 <= i < buffer.len() ==> #[trigger] buffer[i] != vacant(),
        buffer.len() <= usize::MAX,
    ensures
        consistent(
            buffer,
            with_locations(Seq::<(IdPair, Seq<usize>)>::empty(), window_locations(buffer)),
        ),
{
    let none: crate::utils::SetEntries = Seq::empty();
    let windows = window_locations(buffer);
    let index = with_locations(none, windows);
    lemma_with_locations_holds(none, windows);
    assert forall|pair: IdPair, i: usize| #[trigger] holds(index, pair, i) <==> pair_at(
        buffer,
        i as int,
    ) == Some(pair) by {
        assert(!holds(none, pair, i));
        if windows.contains((pair, i)) {
            let w = choose|w: int| 0 <= w < windows.len() && windows[w] == (pair, i);
            lemma_next_live_is(buffer, w + 1, w + 1);
        }
        if pair_at(buffer, i as int) == Some(pair) {
            lemma_next_live_found(buffer, i + 1);
            assert(next_live(buffer, i as int) == Some(i + 1)) by {
                let k = next_live(buffer, i as int)->0;
                if k > i + 1 {
                    assert(buffer[i + 1] == vacant());
                }
            }
            assert(windows[i as int] == (pair, i));
        }
    }
}

/// Every location that the edits take from the index is one that the index
/// holds or gains, every location that they add is for a pair with the new
/// id, and no set of theirs is empty.
pub open spec fn edits_accounted(base: SetEntries, edits: Edits, replacement: TokenId) -> bool {
    let (buffer, added, removed) = edits;
    &&& sets_nonempty(added)
    &&& sets_nonempty(removed)
    &&& forall|pair: IdPair, i: usize| #[trigger] holds(added, pair, i) ==> involves(pair, replacement)
    &&& forall|pair: IdPair, i: usize| #[trigger]
        holds(removed, pair, i) ==> holds(base, pair, i) || holds(added, pair, i)
}

/// One more location keeps the sets from being empty.
pub proof fn lemma_with_location_nonempty(entries: SetEntries, key: IdPair, value: usize)
    requires
        sets_nonempty(entries),
    ensures
        sets_nonempty(with_location(entries, key, value)),
{
    let after = with_location(entries, key, value);
    assert forall|i: int| 0 <= i < after.len() implies (#[trigger] after[i]).1.len() >= 1 by {
        if i < entries.len() {
            assert(entries[i].1.len() >= 1);
        }
    }
}

/// Sets that are built from single locations are not empty.
pub proof fn lemma_with_locations_nonempty(entries: SetEntries, more: Seq<(IdPair, usize)>)
    requires
        sets_nonempty(entries),
    ensures
        sets_nonempty(with_locations(entries, more)),
    decreases more.len(),
{
    if more.len() > 0 {
        lemma_with_locations_nonempty(entries, more.drop_last());
        lemma_with_location_nonempty(
            with_locations(entries, more.drop_last()),
            more.last().0,
            more.last().1,
        );
    }
}

/// The edits after the pair was replaced at every location, where that
/// goes through.
pub open spec fn edits_after(
    buffer: Seq<TokenId>,
    id0: TokenId,
    id1: TokenId,
    replacement: TokenId,
    locations: Seq<usize>,
) -> Edits {
    replaced_all((buffer, Seq::empty(), Seq::empty()), id0, id1, replacement, locations)->0
}

/// A run of replacements that goes through replaces at locations only that
/// have had no part in an earlier replacement: a location that waits for
/// its turn is untouched.
pub proof fn lemma_pending_untouched(
    buffer: Seq<TokenId>,
    all: Seq<usize>,
    t: int,
    id0: TokenId,
    id1: TokenId,
    replacement: TokenId,
    i: usize,
)
    requires
        0 <= t <= all.len(),
        replacement != vacant(),
        replacement != id0,
        replacement != id1,
        id0 != vacant(),
        replaced_all((buffer, Seq::empty(), Seq::empty()), id0, id1, replacement, all) is Some,
        pending(all, t, i),
    ensures
        replaced_all((buffer, Seq::empty(), Seq::empty()), id0, id1, replacement, all.take(t))
            is Some,
        !touched(edits_after(buffer, id0, id1, replacement, all.take(t)).0, i as int, replacement),
    decreases all.len() - t,
{
    let start: Edits = (buffer, Seq::empty(), Seq::empty());
    assert(all.take(all.len() as int) =~= all);
    if replaced_all(start, id0, id1, replacement, all.take(t)) is None {
        lemma_replaced_all_none(start, id0, id1, replacement, all, t);
    }
    let now = replaced_all(start, id0, id1, replacement, all.take(t))->0;
    assert(t < all.len());
    assert(all.take(t + 1).drop_last() =~= all.take(t));
    assert(all.take(t + 1).last() == all[t]);
    if replaced_all(start, id0, id1, replacement, all.take(t + 1)) is None {
        lemma_replaced_all_none(start, id0, id1, replacement, all, t + 1);
    }
    assert(replaced_at(now, id0, id1, replacement, all[t]) is Some);
    let i0 = all[t] as int;
    let i1 = next_live(now.0, i0)->0;
    lemma_live_in_range(now.0, i0);
    if all[t] != i {
        let s = choose|s: int| t <= s < all.len() && #[trigger] all[s] == i;
        assert(t + 1 <= s);
        assert(pending(all, t + 1, i));
        lemma_pending_untouched(buffer, all, t + 1, id0, id1, replacement, i);
        let then = edits_after(buffer, id0, id1, replacement, all.take(t + 1));
        assert(then.0 == rewritten(now.0, i0, i1, replacement));
        if touched(now.0, i as int, replacement) {
            lemma_touched_stays(now.0, i0, i1, replacement, i as int);
        }
    } else {
        assert(!touched(now.0, i0, replacement));
    }
}

/// One replacement in a run that goes through keeps the edits accounted for.
pub proof fn lemma_replaced_at_accounted(
    base: SetEntries,
    buffer: Seq<TokenId>,
    all: Seq<usize>,
    t: int,
    id0: TokenId,
    id1: TokenId,
    replacement: TokenId,
)
    requires
        0 <= t < all.len(),
        buffer.len() <= usize::MAX,
        replacement != vacant(),
        replacement != id0,
        replacement != id1,
        id0 != vacant(),
        forall|pair: IdPair, i: usize|
            !pending(all, 0, i) ==> (#[trigger] holds(base, pair, i) <==> pair_at(buffer, i as int)
                == Some(pair)),
        forall|pair: IdPair, i: usize| pending(all, 0, i) ==> !#[trigger] holds(base, pair, i),
        replaced_all((buffer, Seq::empty(), Seq::empty()), id0, id1, replacement, all) is Some,
        replaced_all((buffer, Seq::empty(), Seq::empty()), id0, id1, replacement, all.take(t))
            is Some,
        edits_accounted(
            base,
            replaced_all((buffer, Seq::empty(), Seq::empty()), id0, id1, replacement, all.take(t))->0,
            replacement,
        ),
    ensures
        replaced_all((buffer, Seq::empty(), Seq::empty()), id0, id1, replacement, all.take(t + 1))
            is Some,
        edits_accounted(
            base,
            replaced_all(
                (buffer, Seq::empty(), Seq::empty()),
                id0,
                id1,
                replacement,
                all.take(t + 1),
            )->0,
            replacement,
        ),
{
    let start: Edits = (buffer, Seq::empty(), Seq::empty());
    let edits = replaced_all(start, id0, id1, replacement, all.take(t))->0;
    assert(all.take(all.len() as int) =~= all);
    assert(all.take(t + 1).drop_last() =~= all.take(t));
    assert(all.take(t + 1).last() == all[t]);
    if replaced_all(start, id0, id1, replacement, all.take(t + 1)) is None {
        lemma_replaced_all_none(start, id0, id1, replacement, all, t + 1);
    }
    let next = replaced_at(edits, id0, id1, replacement, all[t])->0;
    assert(replaced_all(start, id0, id1, replacement, all.take(t + 1)) == Some(next));
    lemma_replaced_all_consistent(base, buffer, all, t, id0, id1, replacement);
    lemma_replaced_all_consistent(base, buffer, all, t + 1, id0, id1, replacement);
    let (now, added, removed) = edits;
    let (buffer2, added2, removed2) = next;
    let index0 = all[t];
    let i0 = index0 as int;
    let i1 = next_live(now, i0)->0;
    let prev = prev_live(now, i0);
    let behind = next_live(now, i1);
    lemma_live_in_range(now, i0);
    lemma_live_in_range(now, i1);
    lemma_prev_in_range(now, i0);
    let (removed1, added1) = match prev {
        Some(before) => (
            with_location(removed, (now[before], id0), before as usize),
            with_location(added, (now[before], replacement), before as usize),
        ),
        None => (removed, added),
    };
    match prev {
        Some(before) => {
            lemma_with_location(removed, (now[before], id0), before as usize);
            lemma_with_location(added, (now[before], replacement), before as usize);
            lemma_with_location_nonempty(removed, (now[before], id0), before as usize);
            lemma_with_location_nonempty(added, (now[before], replacement), before as usize);
            lemma_pairs_before(now, i0, i1, replacement, before);
        },
        None => {},
    }
    match behind {
        Some(n) => {
            lemma_with_location(removed1, (id1, now[n]), i1 as usize);
            lemma_with_location(added1, (replacement, now[n]), index0);
            lemma_with_location_nonempty(removed1, (id1, now[n]), i1 as usize);
            lemma_with_location_nonempty(added1, (replacement, now[n]), index0);
        },
        None => {},
    }
    assert forall|k: IdPair, v: usize| #[trigger] holds(added2, k, v) <==> (holds(added, k, v) || (
    prev is Some && k == (now[prev->0], replacement) && v == prev->0) || (behind is Some && k == (
        replacement,
        now[behind->0],
    ) && v == index0)) by {
        assert(holds(added1, k, v) <==> (holds(added, k, v) || (prev is Some && k == (
            now[prev->0],
            replacement,
        ) && v == prev->0)));
    }
    assert forall|k: IdPair, v: usize| #[trigger] holds(removed2, k, v) <==> (holds(removed, k, v) || (
    prev is Some && k == (now[prev->0], id0) && v == prev->0) || (behind is Some && k == (
        id1,
        now[behind->0],
    ) && v == i1)) by {
        assert(holds(removed1, k, v) <==> (holds(removed, k, v) || (prev is Some && k == (
            now[prev->0],
            id0,
        ) && v == prev->0)));
    }
    assert forall|pair: IdPair, i: usize| #[trigger] holds(removed2, pair, i) implies holds(
        base,
        pair,
        i,
    ) || holds(added2, pair, i) by {
        if !holds(removed, pair, i) {
            // The location is new to what the edits take away. It has had
            // its part in this replacement, so it does not wait for a turn
            // of its own, and the index held it until now.
            assert(touched(buffer2, i as int, replacement));
            if pending(all, t + 1, i) {
                lemma_pending_untouched(buffer, all, t + 1, id0, id1, replacement, i);
            }
            assert(i != index0);
            assert(!pending(all, t, i)) by {
                if pending(all, t, i) {
                    let s = choose|s: int| t <= s < all.len() && #[trigger] all[s] == i;
                    assert(t + 1 <= s);
                }
            }
            assert(will_hold(base, added, removed, pair, i) <==> pair_at(now, i as int) == Some(pair));
        }
    }
}

/// A run of replacements that goes through keeps the edits accounted for.
pub proof fn lemma_replaced_all_accounted(
    base: SetEntries,
    buffer: Seq<TokenId>,
    all: Seq<usize>,
    t: int,
    id0: TokenId,
    id1: TokenId,
    replacement: TokenId,
)
    requires
        0 <= t <= all.len(),
        buffer.len() <= usize::MAX,
        replacement != vacant(),
        replacement != id0,
        replacement != id1,
        id0 != vacant(),
        forall|pair: IdPair, i: usize|
            !pending(all, 0, i) ==> (#[trigger] holds(base, pair, i) <==> pair_at(buffer, i as int)
                == Some(pair)),
        forall|pair: IdPair, i: usize| pending(all, 0, i) ==> !#[trigger] holds(base, pair, i),
        replaced_all((buffer, Seq::empty(), Seq::empty()), id0, id1, replacement, all) is Some,
    ensures
        replaced_all((buffer, Seq::empty(), Seq::empty()), id0, id1, replacement, all.take(t))
            is Some,
        edits_accounted(
            base,
            replaced_all((buffer, Seq::empty(), Seq::empty()), id0, id1, replacement, all.take(t))->0,
            replacement,
        ),
    decreases t,
{
    if t == 0 {
        assert(all.take(0) =~= Seq::<usize>::empty());
        let none: SetEntries = Seq::empty();
        assert forall|pair: IdPair, i: usize| !holds(none, pair, i) by {}
    } else {
        lemma_replaced_all_accounted(base, buffer, all, t - 1, id0, id1, replacement);
        lemma_replaced_at_accounted(base, buffer, all, t - 1, id0, id1, replacement);
    }
}

/// The merge of a pair of two different ids goes through at every location
/// that holds the pair: no two such locations share a slot.
pub proof fn lemma_distinct_replaces(
    buffer: Seq<TokenId>,
    all: Seq<usize>,
    t: int,
    id0: TokenId,
    id1: TokenId,
    replacement: TokenId,
)
    requires
        0 <= t <= all.len(),
        all.no_duplicates(),
        id0 != id1,
        replacement != vacant(),
        forall|s: int| 0 <= s < all.len() ==> pair_at(buffer, #[trigger] all[s] as int) == Some((id0, id1)),
    ensures
        replaced_all((buffer, Seq::empty(), Seq::empty()), id0, id1, replacement, all.take(t))
            is Some,
        forall|s: int|
            t <= s < all.len() ==> pair_at(
                edits_after(buffer, id0, id1, replacement, all.take(t)).0,
                #[trigger] all[s] as int,
            ) == Some((id0, id1)),
    decreases t,
{
    let start: Edits = (buffer, Seq::empty(), Seq::empty());
    if t == 0 {
        assert(all.take(0) =~= Seq::<usize>::empty());
    } else {
        lemma_distinct_replaces(buffer, all, t - 1, id0, id1, replacement);
        assert(all.take(t).drop_last() =~= all.take(t - 1));
        assert(all.take(t).last() == all[t - 1]);
        let now = edits_after(buffer, id0, id1, replacement, all.take(t - 1));
        let i0 = all[t - 1] as int;
        assert(pair_at(now.0, i0) == Some((id0, id1)));
        let i1 = next_live(now.0, i0)->0;
        lemma_live_in_range(now.0, i0);
        assert(replaced_at(now, id0, id1, replacement, all[t - 1]) is Some);
        let then = replaced_at(now, id0, id1, replacement, all[t - 1])->0;
        assert(then.0 == rewritten(now.0, i0, i1, replacement));
        assert forall|s: int| t <= s < all.len() implies pair_at(then.0, #[trigger] all[s] as int)
            == Some((id0, id1)) by {
            let l = all[s] as int;
            assert(pair_at(now.0, l) == Some((id0, id1)));
            assert(all[s] != all[t - 1]);
            lemma_live_in_range(now.0, l);
            if prev_live(now.0, i0) == Some(l) {
                lemma_pairs_before(now.0, i0, i1, replacement, l);
            }
            lemma_pairs_elsewhere(now.0, i0, i1, replacement, l);
        }
    }
}

} // verus!
