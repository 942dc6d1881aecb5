//! What Re-Pair training keeps true from merge to merge: the buffers hold
//! known ids, every index is true to its buffer, and the counts are true to
//! the indexes.

use crate::collections::distinct_keys;
use crate::collections::has_key;
use crate::counts::amount_of;
use crate::counts::count_in;
use crate::counts::counts_match;
use crate::counts::counts_match_but;
use crate::counts::lemma_amount_of_lengths;
use crate::counts::lemma_locations_total_update;
use crate::counts::lemma_lowered_all_exact;
use crate::counts::lemma_merged_sizes;
use crate::counts::lemma_raised_all_exact;
use crate::counts::locations_total;
use crate::index::consistent;
use crate::index::lemma_distinct_replaces;
use crate::index::lemma_pattern_merged_consistent;
use crate::index::pair_at;
use crate::pairs::lemma_total_len_take;
use crate::pairs::total_len;
use crate::re_pair::Edits;
use crate::re_pair::TrainingState;
use crate::re_pair::lemma_live_in_range;
use crate::re_pair::lemma_prev_in_range;
use crate::re_pair::live_count;
use crate::re_pair::live_total;
use crate::re_pair::next_live;
use crate::re_pair::pattern_merged;
use crate::re_pair::prev_live;
use crate::re_pair::replaced_all;
use crate::re_pair::replaced_at;
use crate::re_pair::vacant;
use crate::re_pair::window_locations;
use crate::sizes::lemma_size_holds;
use crate::sizes::sets_nonempty;
use crate::sizes::size_of;
use crate::token::IdPair;
use crate::token::Token;
use crate::token::TokenId;
use crate::token::all_known;
use crate::token::is_merged;
use crate::token::known;
use crate::token::valid_tokens;
use crate::utils::SetEntries;
use crate::utils::can_raise_all;
use crate::utils::holds;
use crate::utils::lemma_distinct_below;
use crate::utils::lemma_position_of;
use crate::utils::lemma_with_location;
use crate::utils::lengths_of;
use crate::utils::lowered;
use crate::utils::lowered_all;
use crate::utils::merged_in;
use crate::utils::position_of;
use crate::utils::raised;
use crate::utils::raised_all;
use crate::utils::sets_wf;
use crate::utils::taken_out;
use crate::utils::with_location;
use crate::utils::with_locations;
use crate::utils::without_key;
use vstd::prelude::*;

verus! {

/// Every id of the buffer is vacant or in the vocabulary.
pub open spec fn buffer_known(tokens: Seq<Token>, buffer: Seq<TokenId>) -> bool {
    forall|i: int| 0 <= i < buffer.len() ==> #[trigger] buffer[i] == vacant() || known(tokens, buffer[i])
}

/// The pair involves `id`.
pub open spec fn involves(pair: IdPair, id: TokenId) -> bool {
    pair.0 == id || pair.1 == id
}

/// Every key is a pair of known ids and every position is below `len`.
pub open spec fn entries_fit(entries: SetEntries, tokens: Seq<Token>, len: nat) -> bool {
    forall|i: int|
        0 <= i < entries.len() ==> {
            let (pair, items) = #[trigger] entries[i];
            &&& known(tokens, pair.0)
            &&& known(tokens, pair.1)
            &&& forall|j: int| 0 <= j < items.len() ==> #[trigger] items[j] < len
        }
}

/// Every key involves `id`.
pub open spec fn entries_involve(entries: SetEntries, id: TokenId) -> bool {
    forall|i: int| 0 <= i < entries.len() ==> involves((#[trigger] entries[i]).0, id)
}

/// Every counted pair is a pair of known ids without a merge of its own, and
/// every count is at most `limit`; while a merge into `fresh` goes on, the
/// counts of the pairs that involve `fresh` are at most `so_far`.
pub open spec fn counts_fit(
    counts: Map<IdPair, usize>,
    tokens: Seq<Token>,
    limit: nat,
    fresh: TokenId,
    so_far: nat,
) -> bool {
    forall|pair: IdPair| #[trigger]
        counts.contains_key(pair) ==> {
            &&& known(tokens, pair.0)
            &&& known(tokens, pair.1)
            &&& !is_merged(tokens, pair.0, pair.1)
            &&& counts[pair] <= if involves(pair, fresh) {
                so_far
            } else {
                limit
            }
        }
}

/// The buffers, the indexes and the counts fit the vocabulary and each
/// other, but for what the counts hold.
pub open spec fn training_shape(tokens: Seq<Token>, state: TrainingState) -> bool {
    let (buffers, indexes, counts) = state;
    &&& valid_tokens(tokens)
    &&& tokens.len() <= usize::MAX
    &&& buffers.len() == indexes.len()
    &&& total_len(buffers) <= usize::MAX
    &&& forall|p: int| 0 <= p < buffers.len() ==> buffer_known(tokens, #[trigger] buffers[p])
    &&& forall|p: int| 0 <= p < indexes.len() ==> sets_wf(#[trigger] indexes[p])
    &&& forall|p: int| 0 <= p < indexes.len() ==> sets_nonempty(#[trigger] indexes[p])
    &&& forall|p: int| 0 <= p < indexes.len() ==> consistent(buffers[p], #[trigger] indexes[p])
    &&& counts_fit(counts, tokens, total_len(buffers), vacant(), total_len(buffers))
}

/// A state that training can go on from: every index is true to its
/// buffer, and the counts are true to the indexes.
pub open spec fn training_wf(tokens: Seq<Token>, state: TrainingState) -> bool {
    training_shape(tokens, state) && counts_match(state.1, state.2)
}

/// The buffer does not hold `id`.
pub open spec fn free_of(buffer: Seq<TokenId>, id: TokenId) -> bool {
    forall|i: int| 0 <= i < buffer.len() ==> #[trigger] buffer[i] != id
}

/// A state in the middle of the merge of the pair `merging` into `fresh`,
/// with the first `done` patterns rewritten.
pub open spec fn merging_wf(
    tokens: Seq<Token>,
    state: TrainingState,
    merging: IdPair,
    fresh: TokenId,
    done: int,
) -> bool {
    let (buffers, indexes, counts) = state;
    &&& buffers.len() == indexes.len()
    &&& 0 <= done <= buffers.len()
    &&& total_len(buffers) <= usize::MAX
    &&& forall|p: int| 0 <= p < buffers.len() ==> buffer_known(tokens, #[trigger] buffers[p])
    &&& forall|p: int| done <= p < buffers.len() ==> free_of(#[trigger] buffers[p], fresh)
    &&& forall|p: int| 0 <= p < indexes.len() ==> sets_wf(#[trigger] indexes[p])
    &&& forall|p: int| 0 <= p < indexes.len() ==> sets_nonempty(#[trigger] indexes[p])
    &&& forall|p: int| 0 <= p < indexes.len() ==> consistent(buffers[p], #[trigger] indexes[p])
    &&& counts_fit(counts, tokens, total_len(buffers), fresh, total_len(buffers.take(done)))
    &&& counts_match_but(indexes, counts, merging, done)
}

/// What a merge needs of the vocabulary and the pair: the new token is the
/// last one in a valid vocabulary, and the pair is of earlier ids.
pub open spec fn merge_ready(tokens: Seq<Token>, merging: IdPair, fresh: TokenId) -> bool {
    &&& valid_tokens(tokens)
    &&& tokens.len() <= usize::MAX
    &&& fresh == TokenId((tokens.len() - 1) as usize)
    &&& ({
        let (left, right) = merging;
        left.0 < fresh.0 && right.0 < fresh.0
    })
}

/// Vacating one position and rewriting another changes the number of
/// positions in use accordingly.
pub proof fn lemma_live_count_update(buffer: Seq<TokenId>, i: int, id: TokenId)
    requires
        0 <= i < buffer.len(),
    ensures
        live_count(buffer.update(i, id)) + (if buffer[i] != vacant() {
            1nat
        } else {
            0nat
        }) == live_count(buffer) + (if id != vacant() {
            1nat
        } else {
            0nat
        }),
    decreases buffer.len(),
{
    let after = buffer.update(i, id);
    if i == buffer.len() - 1 {
        assert(after.drop_last() =~= buffer.drop_last());
    } else {
        assert(after.drop_last() =~= buffer.drop_last().update(i, id));
        lemma_live_count_update(buffer.drop_last(), i, id);
    }
}

/// Replacing one buffer changes the total by what that buffer changes.
pub proof fn lemma_live_total_update(buffers: Seq<Seq<TokenId>>, p: int, buffer: Seq<TokenId>)
    requires
        0 <= p < buffers.len(),
    ensures
        live_total(buffers.update(p, buffer)) + live_count(buffers[p]) == live_total(buffers)
            + live_count(buffer),
        total_len(buffers.update(p, buffer)) + buffers[p].len() == total_len(buffers) + buffer.len(),
    decreases buffers.len(),
{
    let after = buffers.update(p, buffer);
    if p == buffers.len() - 1 {
        assert(after.drop_last() =~= buffers.drop_last());
    } else {
        assert(after.drop_last() =~= buffers.drop_last().update(p, buffer));
        lemma_live_total_update(buffers.drop_last(), p, buffer);
    }
}

/// One more location under a fitting key keeps the entries fitting.
pub proof fn lemma_with_location_fit(
    entries: SetEntries,
    tokens: Seq<Token>,
    len: nat,
    key: IdPair,
    value: usize,
)
    requires
        sets_wf(entries),
        entries_fit(entries, tokens, len),
        known(tokens, key.0),
        known(tokens, key.1),
        value < len,
    ensures
        entries_fit(with_location(entries, key, value), tokens, len),
        forall|id: TokenId|
            entries_involve(entries, id) && involves(key, id) ==> entries_involve(
                with_location(entries, key, value),
                id,
            ),
{
    let after = with_location(entries, key, value);
    assert forall|i: int| 0 <= i < after.len() implies {
        let (pair, items) = #[trigger] after[i];
        &&& known(tokens, pair.0)
        &&& known(tokens, pair.1)
        &&& forall|j: int| 0 <= j < items.len() ==> #[trigger] items[j] < len
    } by {
        if i < entries.len() {
            let (pair, items) = entries[i];
            assert(known(tokens, pair.0));
            if after[i] != entries[i] {
                assert(after[i].1 == entries[i].1.push(value));
                assert forall|j: int| 0 <= j < after[i].1.len() implies #[trigger] after[i].1[j]
                    < len by {
                    if j < items.len() {
                        assert(items[j] < len);
                    }
                }
            }
        }
    }
    assert forall|id: TokenId| entries_involve(entries, id) && involves(key, id) implies entries_involve(
        after,
        id,
    ) by {
        assert forall|i: int| 0 <= i < after.len() implies involves((#[trigger] after[i]).0, id) by {
            if i < entries.len() {
                assert(involves(entries[i].0, id));
            }
        }
    }
}

/// Every position of every set is below `len`.
pub open spec fn positions_below(entries: SetEntries, len: nat) -> bool {
    forall|i: int, j: int|
        0 <= i < entries.len() && 0 <= j < entries[i].1.len() ==> #[trigger] entries[i].1[j] < len
}

/// One more position below `len` keeps the positions below `len`.
pub proof fn lemma_with_location_below(entries: SetEntries, len: nat, key: IdPair, value: usize)
    requires
        positions_below(entries, len),
        value < len,
    ensures
        positions_below(with_location(entries, key, value), len),
{
    let after = with_location(entries, key, value);
    assert forall|i: int, j: int|
        0 <= i < after.len() && 0 <= j < after[i].1.len() implies #[trigger] after[i].1[j] < len by {
        if i < entries.len() {
            if j < entries[i].1.len() {
                assert(entries[i].1[j] < len);
            }
        }
    }
}

/// What the replacement at one location keeps true.
pub open spec fn edits_fit(edits: Edits, tokens: Seq<Token>, replacement: TokenId) -> bool {
    let (buffer, added, removed) = edits;
    &&& buffer_known(tokens, buffer)
    &&& sets_wf(added)
    &&& sets_wf(removed)
    &&& entries_fit(added, tokens, buffer.len())
    &&& entries_involve(added, replacement)
    &&& positions_below(removed, buffer.len())
}

/// One replacement keeps the edits fitting and vacates one position.
pub proof fn lemma_replaced_at_fit(
    edits: Edits,
    tokens: Seq<Token>,
    id0: TokenId,
    id1: TokenId,
    replacement: TokenId,
    index0: usize,
)
    requires
        edits_fit(edits, tokens, replacement),
        known(tokens, replacement),
        replacement != vacant(),
        id0 != vacant(),
        replaced_at(edits, id0, id1, replacement, index0) is Some,
    ensures
        ({
            let after = replaced_at(edits, id0, id1, replacement, index0)->0;
            &&& edits_fit(after, tokens, replacement)
            &&& after.0.len() == edits.0.len()
            &&& live_count(after.0) + 1 == live_count(edits.0)
        }),
{
    let (buffer, added, removed) = edits;
    let index1 = next_live(buffer, index0 as int)->0;
    lemma_live_in_range(buffer, index0 as int);
    lemma_live_in_range(buffer, index1);
    lemma_prev_in_range(buffer, index0 as int);
    let (removed1, added1) = match prev_live(buffer, index0 as int) {
        Some(before) => (
            with_location(removed, (buffer[before], id0), before as usize),
            with_location(added, (buffer[before], replacement), before as usize),
        ),
        None => (removed, added),
    };
    match prev_live(buffer, index0 as int) {
        Some(before) => {
            assert(buffer[before] == vacant() || known(tokens, buffer[before]));
            lemma_with_location(removed, (buffer[before], id0), before as usize);
            lemma_with_location_below(removed, buffer.len(), (buffer[before], id0), before as usize);
            lemma_with_location(added, (buffer[before], replacement), before as usize);
            lemma_with_location_fit(
                added,
                tokens,
                buffer.len(),
                (buffer[before], replacement),
                before as usize,
            );
        },
        None => {},
    }
    match next_live(buffer, index1) {
        Some(behind) => {
            assert(buffer[behind] == vacant() || known(tokens, buffer[behind]));
            lemma_with_location(removed1, (id1, buffer[behind]), index1 as usize);
            lemma_with_location_below(removed1, buffer.len(), (id1, buffer[behind]), index1 as usize);
            lemma_with_location(added1, (replacement, buffer[behind]), index0);
            lemma_with_location_fit(added1, tokens, buffer.len(), (replacement, buffer[behind]), index0);
        },
        None => {},
    }
    let middle = buffer.update(index0 as int, replacement);
    let after = middle.update(index1, vacant());
    lemma_live_count_update(buffer, index0 as int, replacement);
    lemma_live_count_update(middle, index1, vacant());
    assert forall|i: int| 0 <= i < after.len() implies #[trigger] after[i] == vacant() || known(
        tokens,
        after[i],
    ) by {
        if i != index0 && i != index1 {
            assert(buffer[i] == vacant() || known(tokens, buffer[i]));
        }
    }
}

/// The replacements keep the edits fitting and vacate one position each.
pub proof fn lemma_replaced_all_fit(
    edits: Edits,
    tokens: Seq<Token>,
    id0: TokenId,
    id1: TokenId,
    replacement: TokenId,
    locations: Seq<usize>,
)
    requires
        edits_fit(edits, tokens, replacement),
        known(tokens, replacement),
        replacement != vacant(),
        id0 != vacant(),
        replaced_all(edits, id0, id1, replacement, locations) is Some,
    ensures
        ({
            let after = replaced_all(edits, id0, id1, replacement, locations)->0;
            &&& edits_fit(after, tokens, replacement)
            &&& after.0.len() == edits.0.len()
            &&& live_count(after.0) + locations.len() == live_count(edits.0)
        }),
    decreases locations.len(),
{
    if locations.len() > 0 {
        lemma_replaced_all_fit(edits, tokens, id0, id1, replacement, locations.drop_last());
        let so_far = replaced_all(edits, id0, id1, replacement, locations.drop_last())->0;
        lemma_replaced_at_fit(so_far, tokens, id0, id1, replacement, locations.last());
    }
}

/// The sizes of sets under distinct keys come under distinct keys.
pub proof fn lemma_lengths_of(entries: SetEntries, len: nat)
    requires
        sets_wf(entries),
        forall|i: int, j: int|
            0 <= i < entries.len() && 0 <= j < entries[i].1.len() ==> #[trigger] entries[i].1[j]
                < len,
        len <= usize::MAX,
    ensures
        distinct_keys(lengths_of(entries)),
        forall|i: int|
            0 <= i < entries.len() ==> (#[trigger] lengths_of(entries)[i]).1 == entries[i].1.len()
                && entries[i].1.len() <= len,
        forall|pair: IdPair| has_key(lengths_of(entries), pair) <==> has_key(entries, pair),
{
    let items = lengths_of(entries);
    assert forall|i: int| 0 <= i < entries.len() implies (#[trigger] items[i]).1 == entries[i].1.len()
        && entries[i].1.len() <= len by {
        assert forall|j: int| 0 <= j < entries[i].1.len() implies #[trigger] entries[i].1[j] < len by {}
        lemma_distinct_below(entries[i].1, len);
    }
    assert forall|i: int, j: int| 0 <= i < j < items.len() implies (#[trigger] items[i]).0 != (
    #[trigger] items[j]).0 by {
        assert(entries[i].0 != entries[j].0);
    }
    assert forall|pair: IdPair| has_key(items, pair) <==> has_key(entries, pair) by {
        if has_key(items, pair) {
            let i = choose|i: int| 0 <= i < items.len() && (#[trigger] items[i]).0 == pair;
            assert(entries[i].0 == pair);
        }
        if has_key(entries, pair) {
            let i = choose|i: int| 0 <= i < entries.len() && (#[trigger] entries[i]).0 == pair;
            assert(items[i].0 == pair);
        }
    }
}

/// The windows of a buffer of known ids enter an index as fitting entries.
pub proof fn lemma_window_locations_fit(tokens: Seq<Token>, buffer: Seq<TokenId>, n: int)
    requires
        all_known(tokens, buffer),
        0 <= n <= window_locations(buffer).len(),
    ensures
        sets_wf(
            with_locations(Seq::<(IdPair, Seq<usize>)>::empty(), window_locations(buffer).take(n)),
        ),
        entries_fit(
            with_locations(Seq::<(IdPair, Seq<usize>)>::empty(), window_locations(buffer).take(n)),
            tokens,
            buffer.len(),
        ),
    decreases n,
{
    let windows = window_locations(buffer);
    if n > 0 {
        lemma_window_locations_fit(tokens, buffer, n - 1);
        assert(windows.take(n).drop_last() =~= windows.take(n - 1));
        assert(windows.take(n).last() == windows[n - 1]);
        let front = with_locations(Seq::<(IdPair, Seq<usize>)>::empty(), windows.take(n - 1));
        assert(known(tokens, buffer[n - 1]) && known(tokens, buffer[n]));
        lemma_with_location(front, windows[n - 1].0, windows[n - 1].1);
        lemma_with_location_fit(front, tokens, buffer.len(), windows[n - 1].0, windows[n - 1].1);
    }
}

/// No merge of the vocabulary has the newest id for a child.
pub proof fn lemma_newest_unmerged(tokens: Seq<Token>, pair: IdPair)
    requires
        valid_tokens(tokens),
        involves(pair, TokenId((tokens.len() - 1) as usize)),
        tokens.len() <= usize::MAX,
    ensures
        !is_merged(tokens, pair.0, pair.1),
{
    if is_merged(tokens, pair.0, pair.1) {
        let i = choose|i: int|
            0 <= i < tokens.len() && #[trigger] tokens[i] == Token::Merge(pair.0, pair.1);
        if i < 256 {
            assert(tokens[i] == Token::Byte(i as u8));
        }
    }
}

/// One more token keeps the known ids known and adds one merge.
pub proof fn lemma_more_tokens(tokens: Seq<Token>, id0: TokenId, id1: TokenId)
    ensures
        forall|id: TokenId| known(tokens, id) ==> known(tokens.push(Token::Merge(id0, id1)), id),
        forall|pair: IdPair|
            is_merged(tokens.push(Token::Merge(id0, id1)), pair.0, pair.1) ==> is_merged(
                tokens,
                pair.0,
                pair.1,
            ) || pair == (id0, id1),
{
    let more = tokens.push(Token::Merge(id0, id1));
    assert forall|pair: IdPair| is_merged(more, pair.0, pair.1) implies is_merged(
        tokens,
        pair.0,
        pair.1,
    ) || pair == (id0, id1) by {
        let i = choose|i: int| 0 <= i < more.len() && #[trigger] more[i] == Token::Merge(pair.0, pair.1);
        if i < tokens.len() {
            assert(tokens[i] == Token::Merge(pair.0, pair.1));
        }
    }
}

/// In the middle of a merge, the counts can take what one pattern gains and
/// give what it loses.
pub proof fn lemma_pattern_counts(
    tokens: Seq<Token>,
    state: TrainingState,
    merging: IdPair,
    fresh: TokenId,
    p: int,
)
    requires
        merge_ready(tokens, merging, fresh),
        merging_wf(tokens, state, merging, fresh, p),
        p < state.0.len(),
        has_key(state.1[p], merging),
        replaced_all(
            (state.0[p], Seq::empty(), Seq::empty()),
            merging.0,
            merging.1,
            fresh,
            state.1[p][position_of(state.1[p], merging)].1,
        ) is Some,
    ensures
        ({
            let (rewritten, added, removed) = replaced_all(
                (state.0[p], Seq::empty(), Seq::empty()),
                merging.0,
                merging.1,
                fresh,
                state.1[p][position_of(state.1[p], merging)].1,
            )->0;
            &&& can_raise_all(state.2, lengths_of(added))
            &&& lowered_all(raised_all(state.2, lengths_of(added)), lengths_of(removed)) is Ok
            &&& pattern_merged((state.0[p], state.1[p], state.2), merging.0, merging.1, fresh) is Ok
        }),
{
    let (buffers, indexes, counts) = state;
    let buffer = buffers[p];
    let index = indexes[p];
    let (id0, id1) = merging;
    let all = index[position_of(index, merging)].1;
    let start: Edits = (buffer, Seq::empty(), Seq::empty());
    let (rewritten, added, removed) = replaced_all(start, id0, id1, fresh, all)->0;
    let so_far = total_len(buffers.take(p));
    lemma_total_len_take(buffers, p);
    assert(buffer_known(tokens, buffer));
    assert(free_of(buffer, fresh));
    assert(sets_wf(index) && sets_nonempty(index) && consistent(buffer, index));
    assert(edits_fit(start, tokens, fresh));
    lemma_replaced_all_fit(start, tokens, id0, id1, fresh, all);
    lemma_merged_sizes(buffer, index, id0, id1, fresh);
    let base = without_key(index, merging);
    let after = taken_out(merged_in(base, added), removed);
    assert(entries_fit(added, tokens, buffer.len()));
    assert forall|i: int, j: int|
        0 <= i < added.len() && 0 <= j < added[i].1.len() implies #[trigger] added[i].1[j]
        < buffer.len() by {
        let (pair, set) = added[i];
        assert(set[j] < buffer.len());
    }
    lemma_lengths_of(added, buffer.len());
    lemma_lengths_of(removed, buffer.len());
    let gains = lengths_of(added);
    let losses = lengths_of(removed);
    assert forall|i: int| 0 <= i < gains.len() implies count_in(counts, (#[trigger] gains[i]).0)
        + gains[i].1 <= usize::MAX by {
        assert(gains[i].0 == added[i].0);
        assert(has_key(added, added[i].0));
        assert(involves(added[i].0, fresh));
    }
    lemma_raised_all_exact(counts, gains);
    let raised = raised_all(counts, gains);
    assert forall|i: int| 0 <= i < losses.len() implies raised.contains_key((#[trigger] losses[i]).0)
        && raised[losses[i].0] >= losses[i].1 by {
        let pair = removed[i].0;
        assert(losses[i] == (pair, removed[i].1.len() as usize));
        lemma_position_of(removed, i);
        lemma_amount_of_lengths(added, buffer.len(), pair);
        assert(size_of(removed, pair) == removed[i].1.len());
        assert(removed[i].1.len() >= 1);
        assert(size_of(after, pair) + size_of(removed, pair) == size_of(base, pair) + size_of(
            added,
            pair,
        ));
        assert(pair != merging);
        assert(size_of(base, pair) == size_of(index, pair));
        lemma_locations_total_update(indexes, p, index, pair);
        assert(count_in(counts, pair) == locations_total(indexes, pair));
        assert(count_in(raised, pair) == count_in(counts, pair) + amount_of(gains, pair));
    }
    lemma_lowered_all_exact(raised, losses);
}

/// In the middle of a merge, one more pattern rewritten leaves the state in
/// the middle of the merge.
pub proof fn lemma_pattern_merged_wf(
    tokens: Seq<Token>,
    state: TrainingState,
    merging: IdPair,
    fresh: TokenId,
    p: int,
)
    requires
        merge_ready(tokens, merging, fresh),
        merging_wf(tokens, state, merging, fresh, p),
        p < state.0.len(),
        pattern_merged((state.0[p], state.1[p], state.2), merging.0, merging.1, fresh) is Ok,
    ensures
        ({
            let (buffer, index, counts) = pattern_merged(
                (state.0[p], state.1[p], state.2),
                merging.0,
                merging.1,
                fresh,
            )->Ok_0;
            &&& merging_wf(
                tokens,
                (state.0.update(p, buffer), state.1.update(p, index), counts),
                merging,
                fresh,
                p + 1,
            )
            &&& buffer.len() == state.0[p].len()
            &&& live_count(buffer) + size_of(state.1[p], merging) == live_count(state.0[p])
        }),
{
    let (buffers, indexes, counts) = state;
    let old_buffer = buffers[p];
    let old_index = indexes[p];
    let (id0, id1) = merging;
    let (buffer, index, lowered) = pattern_merged((old_buffer, old_index, counts), id0, id1, fresh)->Ok_0;
    let so_far = total_len(buffers.take(p));
    let limit = total_len(buffers);
    lemma_total_len_take(buffers, p);
    assert(buffer_known(tokens, old_buffer));
    assert(free_of(old_buffer, fresh));
    assert(sets_wf(old_index) && sets_nonempty(old_index) && consistent(old_buffer, old_index));
    let new_buffers = buffers.update(p, buffer);
    let new_indexes = indexes.update(p, index);
    if has_key(old_index, merging) {
        let all = old_index[position_of(old_index, merging)].1;
        let start: Edits = (old_buffer, Seq::empty(), Seq::empty());
        let (rewritten, added, removed) = replaced_all(start, id0, id1, fresh, all)->0;
        assert(edits_fit(start, tokens, fresh));
        lemma_replaced_all_fit(start, tokens, id0, id1, fresh, all);
        lemma_merged_sizes(old_buffer, old_index, id0, id1, fresh);
        lemma_pattern_counts(tokens, state, merging, fresh, p);
        lemma_pattern_merged_consistent((old_buffer, old_index, counts), id0, id1, fresh);
        let base = without_key(old_index, merging);
        assert(entries_fit(added, tokens, old_buffer.len()));
        assert forall|i: int, j: int|
            0 <= i < added.len() && 0 <= j < added[i].1.len() implies #[trigger] added[i].1[j]
            < old_buffer.len() by {
            let (pair, set) = added[i];
            assert(set[j] < old_buffer.len());
        }
        lemma_lengths_of(added, old_buffer.len());
        lemma_lengths_of(removed, old_buffer.len());
        let gains = lengths_of(added);
        let losses = lengths_of(removed);
        assert forall|i: int| 0 <= i < gains.len() implies count_in(counts, (#[trigger] gains[i]).0)
            + gains[i].1 <= usize::MAX by {
            assert(gains[i].0 == added[i].0);
            assert(has_key(added, added[i].0));
            assert(involves(added[i].0, fresh));
        }
        lemma_raised_all_exact(counts, gains);
        let raised = raised_all(counts, gains);
        assert forall|i: int| 0 <= i < losses.len() implies raised.contains_key(
            (#[trigger] losses[i]).0,
        ) && raised[losses[i].0] >= losses[i].1 by {
            let pair = removed[i].0;
            lemma_position_of(removed, i);
            lemma_amount_of_lengths(added, old_buffer.len(), pair);
            assert(size_of(removed, pair) == removed[i].1.len());
            assert(removed[i].1.len() >= 1);
            assert(size_of(index, pair) + size_of(removed, pair) == size_of(base, pair) + size_of(
                added,
                pair,
            ));
            assert(pair != merging);
            assert(size_of(base, pair) == size_of(old_index, pair));
            lemma_locations_total_update(indexes, p, old_index, pair);
            assert(count_in(counts, pair) == locations_total(indexes, pair));
            assert(count_in(raised, pair) == count_in(counts, pair) + amount_of(gains, pair));
        }
        lemma_lowered_all_exact(raised, losses);
        assert(lowered == lowered_all(raised, losses)->Ok_0);
        // The counts fit: the pairs that gained locations involve the new id.
        assert forall|pair: IdPair| #[trigger] lowered.contains_key(pair) implies {
            &&& known(tokens, pair.0)
            &&& known(tokens, pair.1)
            &&& !is_merged(tokens, pair.0, pair.1)
            &&& lowered[pair] <= if involves(pair, fresh) {
                so_far + old_buffer.len()
            } else {
                limit
            }
        } by {
            assert(lowered_all(raised, losses)->Ok_0.contains_key(pair));
            assert(raised.contains_key(pair));
            assert(count_in(lowered, pair) + amount_of(losses, pair) == count_in(raised, pair));
            assert(count_in(raised, pair) == count_in(counts, pair) + amount_of(gains, pair));
            lemma_amount_of_lengths(added, old_buffer.len(), pair);
            if has_key(gains, pair) {
                let i = choose|i: int| 0 <= i < added.len() && (#[trigger] added[i]).0 == pair;
                let (key, set) = added[i];
                assert(known(tokens, key.0) && known(tokens, key.1));
                assert(has_key(added, pair));
                assert(involves(pair, fresh));
                lemma_newest_unmerged(tokens, pair);
                lemma_position_of(added, i);
                assert(added[i].1.len() <= old_buffer.len());
            } else {
                assert(counts.contains_key(pair));
            }
        }
        // The counts match: each pair's count moved as its locations did.
        assert forall|pair: IdPair| pair != merging implies #[trigger] count_in(lowered, pair)
            == locations_total(new_indexes, pair) by {
            lemma_amount_of_lengths(added, old_buffer.len(), pair);
            lemma_amount_of_lengths(removed, old_buffer.len(), pair);
            assert(count_in(lowered, pair) + amount_of(losses, pair) == count_in(raised, pair));
            assert(count_in(raised, pair) == count_in(counts, pair) + amount_of(gains, pair));
            assert(size_of(index, pair) + size_of(removed, pair) == size_of(base, pair) + size_of(
                added,
                pair,
            ));
            assert(size_of(base, pair) == size_of(old_index, pair));
            lemma_locations_total_update(indexes, p, index, pair);
            assert(count_in(counts, pair) == locations_total(indexes, pair));
        }
        assert(!lowered.contains_key(merging)) by {
            if lowered.contains_key(merging) {
                assert(lowered_all(raised, losses)->Ok_0.contains_key(merging));
                assert(raised.contains_key(merging));
                assert(has_key(gains, merging));
                lemma_amount_of_lengths(added, old_buffer.len(), merging);
                let i = position_of(gains, merging);
                assert(added[i].0 == merging);
                assert(has_key(added, merging));
                assert(involves(merging, fresh));
            }
        }
        assert forall|pair: IdPair| #[trigger] lowered.contains_key(pair) implies lowered[pair]
            >= 1 by {
            assert(lowered_all(raised, losses)->Ok_0.contains_key(pair));
            assert(raised.contains_key(pair));
            lemma_amount_of_lengths(added, old_buffer.len(), pair);
            lemma_size_holds(added, pair);
            if has_key(gains, pair) {
                let i = position_of(gains, pair);
                assert(added[i].0 == pair);
                lemma_position_of(added, i);
                assert(added[i].1.len() >= 1);
            }
            assert(count_in(raised, pair) == count_in(counts, pair) + amount_of(gains, pair));
            assert(raised[pair] >= 1);
        }
        assert(size_of(index, merging) == 0) by {
            assert(size_of(index, merging) + size_of(removed, merging) == size_of(base, merging)
                + size_of(added, merging));
        }
        lemma_size_holds(old_index, merging);
        assert(size_of(old_index, merging) == all.len());
    } else {
        assert(new_buffers =~= buffers);
        assert(new_indexes =~= indexes);
        assert(size_of(old_index, merging) == 0);
    }
    lemma_live_total_update(buffers, p, buffer);
    assert(new_buffers.take(p + 1) =~= buffers.take(p + 1).update(p, buffer));
    lemma_live_total_update(buffers.take(p + 1), p, buffer);
    assert(buffers.take(p + 1)[p] == old_buffer);
    assert(new_buffers.take(p) =~= buffers.take(p));
    assert forall|q: int| 0 <= q < p + 1 && q < new_indexes.len() implies size_of(
        #[trigger] new_indexes[q],
        merging,
    ) == 0 by {
        if q < p {
            assert(new_indexes[q] == indexes[q]);
            assert(size_of(indexes[q], merging) == 0);
        }
    }
    assert forall|q: int| p + 1 <= q < new_buffers.len() implies free_of(
        #[trigger] new_buffers[q],
        fresh,
    ) by {
        assert(new_buffers[q] == buffers[q]);
    }
    assert forall|q: int| 0 <= q < new_buffers.len() implies buffer_known(
        tokens,
        #[trigger] new_buffers[q],
    ) by {
        if q != p {
            assert(new_buffers[q] == buffers[q]);
        }
    }
    assert forall|q: int| 0 <= q < new_indexes.len() implies sets_wf(#[trigger] new_indexes[q])
        && sets_nonempty(new_indexes[q]) && consistent(new_buffers[q], new_indexes[q]) by {
        if q != p {
            assert(new_indexes[q] == indexes[q]);
            assert(new_buffers[q] == buffers[q]);
        } else if !has_key(old_index, merging) {
        }
    }
}

/// In the middle of the merge of a pair of two different ids, every pattern
/// can be rewritten.
pub proof fn lemma_pattern_goes_through(
    tokens: Seq<Token>,
    state: TrainingState,
    merging: IdPair,
    fresh: TokenId,
    p: int,
)
    requires
        merge_ready(tokens, merging, fresh),
        merging_wf(tokens, state, merging, fresh, p),
        p < state.0.len(),
        merging.0 != merging.1,
    ensures
        has_key(state.1[p], merging) ==> replaced_all(
            (state.0[p], Seq::empty(), Seq::empty()),
            merging.0,
            merging.1,
            fresh,
            state.1[p][position_of(state.1[p], merging)].1,
        ) is Some,
        pattern_merged((state.0[p], state.1[p], state.2), merging.0, merging.1, fresh) is Ok,
{
    let buffer = state.0[p];
    let index = state.1[p];
    assert(sets_wf(index) && consistent(buffer, index));
    if has_key(index, merging) {
        let at = position_of(index, merging);
        let all = index[at].1;
        assert forall|s: int| 0 <= s < all.len() implies pair_at(buffer, #[trigger] all[s] as int)
            == Some(merging) by {
            assert(index[at].0 == merging && index[at].1.contains(all[s]));
            assert(holds(index, merging, all[s]));
        }
        assert(all.take(all.len() as int) =~= all);
        lemma_distinct_replaces(buffer, all, all.len() as int, merging.0, merging.1, fresh);
        lemma_pattern_counts(tokens, state, merging, fresh, p);
    }
}

} // verus!
