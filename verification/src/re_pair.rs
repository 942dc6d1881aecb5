//! Re-Pair: the vocabulary grows by the merge of the id pair with the most
//! occurrences, found through an index of pair locations and a priority
//! queue of pair counts. Replaced ids leave a vacant slot behind, so that
//! positions never shift.

use crate::bpe::byte_views;
use crate::bpe::initial_patterns;
use crate::bpe::lemma_encoded_bytes;
use crate::collections::has_key;
use crate::collections::priorities;
use crate::collections::queue_new;
use crate::collections::queue_pop;
use crate::collections::queue_remove;
use crate::collections::set_item_at;
use crate::collections::set_items;
use crate::collections::set_len;
use crate::counts::amount_of;
use crate::counts::count_in;
use crate::counts::counts_match;
use crate::counts::counts_match_but;
use crate::counts::lemma_amount_of_lengths;
use crate::counts::lemma_locations_total_take;
use crate::counts::lemma_locations_total_zero;
use crate::counts::lemma_raised_all_exact;
use crate::counts::locations_total;
use crate::engine::Config;
use crate::engine::MIN_PAIR_COUNT;
use crate::index::consistent;
use crate::index::lemma_initial_consistent;
use crate::index::lemma_with_locations_nonempty;
use crate::pairs::lemma_total_len_take;
use crate::pairs::pattern_views;
use crate::pairs::total_len;
use crate::recode::DecodeError;
use crate::recode::decoded;
use crate::recode::encoded;
use crate::sizes::lemma_size_holds;
use crate::sizes::sets_nonempty;
use crate::sizes::size_of;
use crate::token::IdPair;
use crate::token::Token;
use crate::token::TokenId;
use crate::token::all_known;
use crate::token::byte_tokens;
use crate::token::ids_of_bytes;
use crate::token::is_merged;
use crate::token::known;
use crate::token::valid_tokens;
use crate::training::buffer_known;
use crate::training::counts_fit;
use crate::training::entries_fit;
use crate::training::free_of;
use crate::training::lemma_lengths_of;
use crate::training::lemma_live_total_update;
use crate::training::lemma_more_tokens;
use crate::training::lemma_pattern_counts;
use crate::training::lemma_pattern_goes_through;
use crate::training::lemma_pattern_merged_wf;
use crate::training::lemma_window_locations_fit;
use crate::training::merge_ready;
use crate::training::merging_wf;
use crate::training::training_shape;
use crate::training::training_wf;
use crate::utils::MappedSets;
use crate::utils::PriorityError;
use crate::utils::SetEntries;
use crate::utils::decrease_priorities;
use crate::utils::holds;
use crate::utils::increase_priorities;
use crate::utils::lemma_position_of;
use crate::utils::lengths_of;
use crate::utils::lowered;
use crate::utils::lowered_all;
use crate::utils::merged_in;
use crate::utils::position_of;
use crate::utils::raised;
use crate::utils::raised_all;
use crate::utils::sets_wf;
use crate::utils::taken_out;
use crate::utils::with_location;
use crate::utils::with_locations;
use crate::utils::without_key;
use crate::vocabulary::Vocabulary;
use indexmap::IndexSet;
use keyed_priority_queue::KeyedPriorityQueue;
use vstd::prelude::*;

verus! {

/// Why a merge was given up: the buffers, the index and the counts do not
/// agree on the pair.
#[derive(Clone, Copy, Debug, PartialEq, Eq, Structural)]
pub enum RePairError {
    /// A recorded location does not hold the pair it was recorded for, or
    /// the pair that is to be merged has no location at all.
    BufferMismatch,
    /// The count of a pair could not be lowered by the locations it lost.
    Priority(PriorityError),
}

/// The id that marks a vacated slot.
pub open spec fn vacant() -> TokenId {
    TokenId(usize::MAX)
}

/// The first position from `j` on that is not vacated.
pub open spec fn next_live_from(buffer: Seq<TokenId>, j: int) -> Option<int>
    decreases buffer.len() - j,
{
    if j < 0 || j >= buffer.len() {
        None
    } else if buffer[j] != vacant() {
        Some(j)
    } else {
        next_live_from(buffer, j + 1)
    }
}

/// The first position after `i` that is not vacated.
pub open spec fn next_live(buffer: Seq<TokenId>, i: int) -> Option<int> {
    next_live_from(buffer, i + 1)
}

/// The last position before `j` that is not vacated.
pub open spec fn prev_live(buffer: Seq<TokenId>, j: int) -> Option<int>
    decreases j,
{
    if j <= 0 {
        None
    } else if j - 1 < buffer.len() && buffer[j - 1] != vacant() {
        Some(j - 1)
    } else {
        prev_live(buffer, j - 1)
    }
}

/// The id and the position that a search for a neighbour gives.
pub open spec fn id_at(buffer: Seq<TokenId>, found: Option<int>) -> Option<(TokenId, usize)> {
    match found {
        Some(j) => Some((buffer[j], j as usize)),
        None => None,
    }
}

/// Each adjacent pair of `ids` with the position where it starts.
pub open spec fn window_locations(ids: Seq<TokenId>) -> Seq<(IdPair, usize)> {
    Seq::new(
        if ids.len() == 0 {
            0
        } else {
            (ids.len() - 1) as nat
        },
        |i: int| ((ids[i], ids[i + 1]), i as usize),
    )
}

/// A buffer with the locations added to and removed from the index so far.
pub type Edits = (Seq<TokenId>, SetEntries, SetEntries);

/// The edits after the pair `(id0, id1)` at `index0` was replaced: the
/// buffer gets `replacement` at `index0` and a vacant slot where `id1`
/// stood; the pair of the neighbour before is recorded as removed and its
/// new pair as added, and likewise for the neighbour behind. `None` where
/// the buffer does not hold the pair there.
pub open spec fn replaced_at(
    edits: Edits,
    id0: TokenId,
    id1: TokenId,
    replacement: TokenId,
    index0: usize,
) -> Option<Edits> {
    let (buffer, added, removed) = edits;
    if !(index0 < buffer.len() && buffer[index0 as int] == id0) {
        None
    } else {
        match next_live(buffer, index0 as int) {
            None => None,
            Some(index1) => if buffer[index1] != id1 {
                None
            } else {
                let (removed, added) = match prev_live(buffer, index0 as int) {
                    Some(before) => (
                        with_location(removed, (buffer[before], id0), before as usize),
                        with_location(added, (buffer[before], replacement), before as usize),
                    ),
                    None => (removed, added),
                };
                let (removed, added) = match next_live(buffer, index1) {
                    Some(behind) => (
                        with_location(removed, (id1, buffer[behind]), index1 as usize),
                        with_location(added, (replacement, buffer[behind]), index0),
                    ),
                    None => (removed, added),
                };
                Some((buffer.update(index0 as int, replacement).update(index1, vacant()), added, removed))
            },
        }
    }
}

/// The edits after the pair was replaced at every location, in order.
pub open spec fn replaced_all(
    edits: Edits,
    id0: TokenId,
    id1: TokenId,
    replacement: TokenId,
    locations: Seq<usize>,
) -> Option<Edits>
    decreases locations.len(),
{
    if locations.len() == 0 {
        Some(edits)
    } else {
        match replaced_all(edits, id0, id1, replacement, locations.drop_last()) {
            Some(so_far) => replaced_at(so_far, id0, id1, replacement, locations.last()),
            None => None,
        }
    }
}

/// A search that found nothing up to `k` goes on from `k`.
pub proof fn lemma_next_live_skip(buffer: Seq<TokenId>, j: int, k: int)
    requires
        0 <= j <= k <= buffer.len(),
        forall|m: int| j <= m < k ==> buffer[m] == vacant(),
    ensures
        next_live_from(buffer, j) == next_live_from(buffer, k),
    decreases k - j,
{
    if j < k {
        lemma_next_live_skip(buffer, j + 1, k);
    }
}

/// For each id pair of `ids`: the positions where it starts.
pub fn record_id_pairs(ids: &Vec<TokenId>) -> (sets: MappedSets)
    ensures
        sets.wf(),
        sets@ == with_locations(Seq::<(IdPair, Seq<usize>)>::empty(), window_locations(ids@)),
{
    let ghost windows = window_locations(ids@);
    let mut sets = MappedSets::new();
    let n = ids.len();
    let mut i: usize = 0;
    assert(sets@ =~= Seq::<(IdPair, Seq<usize>)>::empty());
    assert(windows.take(0) =~= Seq::<(IdPair, usize)>::empty());
    if n == 0 {
        assert(windows =~= Seq::<(IdPair, usize)>::empty());
        return sets;
    }
    while i < n - 1
        invariant
            n == ids@.len(),
            n > 0,
            i <= n - 1,
            windows == window_locations(ids@),
            sets.wf(),
            sets@ == with_locations(Seq::<(IdPair, Seq<usize>)>::empty(), windows.take(i as int)),
        decreases n - i,
    {
        proof {
            assert(windows.take(i + 1).drop_last() =~= windows.take(i as int));
            assert(windows.take(i + 1).last() == windows[i as int]);
        }
        sets.insert((ids[i], ids[i + 1]), i);
        i = i + 1;
    }
    assert(windows.take(i as int) =~= windows);
    sets
}

/// The last id before `index` that is not vacated, with its position.
pub fn get_prev_id(ids: &Vec<TokenId>, index: usize) -> (r: Option<(TokenId, usize)>)
    ensures
        r == id_at(ids@, prev_live(ids@, index as int)),
{
    let n = ids.len();
    let mut i: usize = index;
    while i > 0
        invariant
            n == ids@.len(),
            i <= index,
            prev_live(ids@, index as int) == prev_live(ids@, i as int),
        decreases i,
    {
        i = i - 1;
        if i < n && ids[i].0 != usize::MAX {
            return Some((ids[i], i));
        }
    }
    None
}

/// The first id after `index` that is not vacated, with its position.
pub fn get_next_id(ids: &Vec<TokenId>, index: usize) -> (r: Option<(TokenId, usize)>)
    ensures
        r == id_at(ids@, next_live(ids@, index as int)),
{
    let n = ids.len();
    if index >= n {
        return None;
    }
    let mut i: usize = index + 1;
    while i < n
        invariant
            n == ids@.len(),
            index < i <= n,
            next_live(ids@, index as int) == next_live_from(ids@, i as int),
        decreases n - i,
    {
        if ids[i].0 != usize::MAX {
            return Some((ids[i], i));
        }
        i = i + 1;
    }
    None
}

/// Replaces the pair `(id0, id1)` by `replacement` at each location, in the
/// order of `locations`, and records which locations the index gains and
/// loses. Gives up at the first location that does not hold the pair.
pub fn replace_pair(
    id0: TokenId,
    id1: TokenId,
    locations: IndexSet<usize>,
    pattern: &mut Vec<TokenId>,
    replacement: TokenId,
) -> (r: Result<(MappedSets, MappedSets), RePairError>)
    ensures
        final(pattern)@.len() == old(pattern)@.len(),
        match r {
            Ok((added, removed)) => {
                &&& added.wf()
                &&& removed.wf()
                &&& replaced_all(
                    (old(pattern)@, Seq::empty(), Seq::empty()),
                    id0,
                    id1,
                    replacement,
                    set_items(locations),
                ) == Some((final(pattern)@, added@, removed@))
            },
            Err(e) => e == RePairError::BufferMismatch && replaced_all(
                (old(pattern)@, Seq::empty(), Seq::empty()),
                id0,
                id1,
                replacement,
                set_items(locations),
            ) is None,
        },
{
    let ghost start: Edits = (pattern@, Seq::empty(), Seq::empty());
    let ghost items = set_items(locations);
    let mut added_pair_locations = MappedSets::new();
    let mut removed_pair_locations = MappedSets::new();
    assert(added_pair_locations@ =~= Seq::<(IdPair, Seq<usize>)>::empty());
    assert(removed_pair_locations@ =~= Seq::<(IdPair, Seq<usize>)>::empty());
    let n = set_len(&locations);
    let mut k: usize = 0;
    let mut mismatch = false;
    assert(items.take(0) =~= Seq::<usize>::empty());
    assert(items.take(n as int) =~= items);
    while k < n
        invariant_except_break
            n == items.len(),
            items == set_items(locations),
            items.take(n as int) == items,
            k <= n,
            !mismatch,
            pattern@.len() == start.0.len(),
            added_pair_locations.wf(),
            removed_pair_locations.wf(),
            replaced_all(start, id0, id1, replacement, items.take(k as int)) == Some(
                (pattern@, added_pair_locations@, removed_pair_locations@),
            ),
        ensures
            pattern@.len() == start.0.len(),
            added_pair_locations.wf(),
            removed_pair_locations.wf(),
            mismatch ==> replaced_all(start, id0, id1, replacement, items) is None,
            !mismatch ==> replaced_all(start, id0, id1, replacement, items) == Some(
                (pattern@, added_pair_locations@, removed_pair_locations@),
            ),
        decreases n - k,
    {
        let index0 = set_item_at(&locations, k).unwrap();
        let ghost so_far: Edits = (pattern@, added_pair_locations@, removed_pair_locations@);
        proof {
            assert(items.take(k + 1).drop_last() =~= items.take(k as int));
            assert(items.take(k + 1).last() == items[k as int]);
            assert(replaced_all(start, id0, id1, replacement, items.take(k + 1)) == replaced_at(
                so_far,
                id0,
                id1,
                replacement,
                index0,
            ));
        }
        if !(index0 < pattern.len() && pattern[index0] == id0) {
            mismatch = true;
            proof {
                lemma_replaced_all_none(start, id0, id1, replacement, items, k + 1);
            }
            break ;
        }
        let (token_id1, index1) = match get_next_id(pattern, index0) {
            Some(found) => found,
            None => {
                mismatch = true;
                proof {
                    lemma_replaced_all_none(start, id0, id1, replacement, items, k + 1);
                }
                break ;
            },
        };
        if token_id1 != id1 {
            mismatch = true;
            proof {
                lemma_replaced_all_none(start, id0, id1, replacement, items, k + 1);
            }
            break ;
        }
        proof {
            lemma_live_in_range(pattern@, index0 as int);
        }
        let prev_token = get_prev_id(pattern, index0);
        let next_token = get_next_id(pattern, index1);
        proof {
            lemma_live_in_range(pattern@, index1 as int);
            lemma_prev_in_range(pattern@, index0 as int);
        }
        if let Some((prev_id, prev_index)) = prev_token {
            removed_pair_locations.insert((prev_id, id0), prev_index);
            added_pair_locations.insert((prev_id, replacement), prev_index);
        }
        if let Some((next_id, _next_index)) = next_token {
            removed_pair_locations.insert((id1, next_id), index1);
            added_pair_locations.insert((replacement, next_id), index0);
        }
        pattern[index0] = replacement;
        pattern[index1] = TokenId(usize::MAX);
        k = k + 1;
    }
    if mismatch {
        Err(RePairError::BufferMismatch)
    } else {
        Ok((added_pair_locations, removed_pair_locations))
    }
}

/// A position that a search finds lies in the buffer, on the side searched.
pub proof fn lemma_live_in_range(buffer: Seq<TokenId>, i: int)
    requires
        -1 <= i,
    ensures
        next_live(buffer, i) matches Some(j) ==> i < j < buffer.len() && buffer[j] != vacant(),
{
    lemma_next_from_in_range(buffer, i + 1);
}

/// A position that a search finds lies in the buffer, on the side searched.
pub proof fn lemma_next_from_in_range(buffer: Seq<TokenId>, j: int)
    requires
        0 <= j,
    ensures
        next_live_from(buffer, j) matches Some(k) ==> j <= k < buffer.len() && buffer[k] != vacant(),
    decreases buffer.len() - j,
{
    if j < buffer.len() && buffer[j] == vacant() {
        lemma_next_from_in_range(buffer, j + 1);
    }
}

/// A position that a search finds lies in the buffer, on the side searched.
pub proof fn lemma_prev_in_range(buffer: Seq<TokenId>, j: int)
    ensures
        prev_live(buffer, j) matches Some(k) ==> 0 <= k < j && k < buffer.len() && buffer[k]
            != vacant(),
    decreases j,
{
    if j > 0 && !(j - 1 < buffer.len() && buffer[j - 1] != vacant()) {
        lemma_prev_in_range(buffer, j - 1);
    }
}

/// Once a location does not hold the pair, the whole replacement fails.
pub proof fn lemma_replaced_all_none(
    edits: Edits,
    id0: TokenId,
    id1: TokenId,
    replacement: TokenId,
    locations: Seq<usize>,
    n: int,
)
    requires
        0 <= n <= locations.len(),
        replaced_all(edits, id0, id1, replacement, locations.take(n)) is None,
    ensures
        replaced_all(edits, id0, id1, replacement, locations) is None,
    decreases locations.len(),
{
    if n == locations.len() {
        assert(locations.take(n) =~= locations);
    } else {
        assert(locations.drop_last().take(n) =~= locations.take(n));
        lemma_replaced_all_none(edits, id0, id1, replacement, locations.drop_last(), n);
    }
}

// ---------------------------------------------------------------------------
// One merge, pattern by pattern
// ---------------------------------------------------------------------------

/// The state of one pattern in training with the counts of all patterns: its
/// buffer, its index of pair locations, and the counts.
pub type PatternState = (Seq<TokenId>, SetEntries, Map<IdPair, usize>);

/// The state of all patterns in training: the buffers, their indexes of pair
/// locations, and the counts.
pub type TrainingState = (Seq<Seq<TokenId>>, Seq<SetEntries>, Map<IdPair, usize>);

/// One pattern after the merge of `(id0, id1)` into `replacement`. Where its
/// index holds the pair, the pair's locations leave the index, the pair is
/// replaced at each of them, the counts are raised by the locations gained
/// and lowered by the locations lost, and the index gains and loses them.
pub open spec fn pattern_merged(
    state: PatternState,
    id0: TokenId,
    id1: TokenId,
    replacement: TokenId,
) -> Result<PatternState, RePairError> {
    let (buffer, index, counts) = state;
    if !has_key(index, (id0, id1)) {
        Ok(state)
    } else {
        let locations = index[position_of(index, (id0, id1))].1;
        match replaced_all((buffer, Seq::empty(), Seq::empty()), id0, id1, replacement, locations) {
            None => Err(RePairError::BufferMismatch),
            Some((rewritten, added, removed)) => match lowered_all(
                raised_all(counts, lengths_of(added)),
                lengths_of(removed),
            ) {
                Err(e) => Err(RePairError::Priority(e)),
                Ok(lowered) => Ok(
                    (
                        rewritten,
                        taken_out(merged_in(without_key(index, (id0, id1)), added), removed),
                        lowered,
                    ),
                ),
            },
        }
    }
}

/// The first `n` patterns after the merge, the others as they were.
pub open spec fn merged_upto(
    state: TrainingState,
    id0: TokenId,
    id1: TokenId,
    replacement: TokenId,
    n: int,
) -> Result<TrainingState, RePairError>
    decreases n,
{
    if n <= 0 {
        Ok(state)
    } else {
        match merged_upto(state, id0, id1, replacement, n - 1) {
            Err(e) => Err(e),
            Ok((buffers, indexes, counts)) => match pattern_merged(
                (buffers[n - 1], indexes[n - 1], counts),
                id0,
                id1,
                replacement,
            ) {
                Err(e) => Err(e),
                Ok((buffer, index, lowered)) => Ok(
                    (buffers.update(n - 1, buffer), indexes.update(n - 1, index), lowered),
                ),
            },
        }
    }
}

/// Number of positions that are not vacated.
pub open spec fn live_count(buffer: Seq<TokenId>) -> nat
    decreases buffer.len(),
{
    if buffer.len() == 0 {
        0
    } else {
        live_count(buffer.drop_last()) + if buffer.last() != vacant() {
            1nat
        } else {
            0nat
        }
    }
}

/// Number of positions of all buffers that are not vacated.
pub open spec fn live_total(buffers: Seq<Seq<TokenId>>) -> nat
    decreases buffers.len(),
{
    if buffers.len() == 0 {
        0
    } else {
        live_total(buffers.drop_last()) + live_count(buffers.last())
    }
}

/// The state after the merge of `(id0, id1)`: the vocabulary gains the merge
/// under the next id and every pattern is rewritten with it. A merge that
/// replaces nothing means that the counts and the index disagree.
pub open spec fn merged(tokens: Seq<Token>, state: TrainingState, id0: TokenId, id1: TokenId) -> Result<
    (Seq<Token>, TrainingState),
    RePairError,
> {
    match merged_upto(state, id0, id1, TokenId(tokens.len() as usize), state.0.len() as int) {
        Err(e) => Err(e),
        Ok(after) => if live_total(after.0) < live_total(state.0) {
            Ok((tokens.push(Token::Merge(id0, id1)), after))
        } else {
            Err(RePairError::BufferMismatch)
        },
    }
}

/// The counts after the sizes of the sets of the first `n` indexes entered.
pub open spec fn seeded(indexes: Seq<SetEntries>, n: int) -> Map<IdPair, usize>
    decreases n,
{
    if n <= 0 {
        Map::empty()
    } else {
        raised_all(seeded(indexes, n - 1), lengths_of(indexes[n - 1]))
    }
}

/// The index of each training pattern at the start.
pub open spec fn initial_indexes(buffers: Seq<Seq<TokenId>>) -> Seq<SetEntries> {
    Seq::new(
        buffers.len(),
        |p: int| with_locations(Seq::<(IdPair, Seq<usize>)>::empty(), window_locations(buffers[p])),
    )
}

/// The indexes of the patterns, each by its entries.
pub open spec fn index_views(sets: Seq<MappedSets>) -> Seq<SetEntries> {
    Seq::new(sets.len(), |p: int| sets[p]@)
}

/// A Re-Pair training that has not finished yet: the vocabulary so far, the
/// buffer of each pattern, the index of pair locations of each pattern, and
/// the count of each pair over all patterns.
pub struct RePairTraining {
    vocabulary: Vocabulary,
    patterns: Vec<Vec<TokenId>>,
    pair_locations_in_patterns: Vec<MappedSets>,
    pair_counts: KeyedPriorityQueue<IdPair, usize>,
}

impl RePairTraining {
    /// The tokens in id order.
    pub closed spec fn tokens(&self) -> Seq<Token> {
        self.vocabulary@
    }

    /// The buffers, the indexes and the counts.
    pub closed spec fn state(&self) -> TrainingState {
        (
            pattern_views(self.patterns@),
            index_views(self.pair_locations_in_patterns@),
            priorities(self.pair_counts),
        )
    }

    /// Well-formedness: a well-formed vocabulary and a state that training
    /// can go on from.
    pub closed spec fn wf(&self) -> bool {
        self.vocabulary.wf() && training_wf(self.tokens(), self.state())
    }

    /// What well-formedness says of the tokens and the state.
    pub proof fn lemma_wf(&self)
        requires
            self.wf(),
        ensures
            training_wf(self.tokens(), self.state()),
    {
    }

    /// The start of training: the vocabulary holds the byte tokens, each
    /// buffer holds one id per byte of its input, each index holds the
    /// positions of the pairs of its buffer, and the counts hold the number
    /// of positions of each pair over all buffers.
    pub fn new(data: &[&[u8]]) -> (training: RePairTraining)
        requires
            total_len(byte_views(data@)) <= usize::MAX,
        ensures
            training.wf(),
            training.tokens() == byte_tokens(),
            training.state().0 == initial_patterns(byte_views(data@)),
            training.state().1 == initial_indexes(training.state().0),
            training.state().2 == seeded(training.state().1, data@.len() as int),
    {
        let vocabulary = Vocabulary::new();
        let ghost inputs = byte_views(data@);
        let ghost tokens = byte_tokens();
        let mut patterns: Vec<Vec<TokenId>> = Vec::new();
        let mut i: usize = 0;
        while i < data.len()
            invariant
                vocabulary.wf(),
                vocabulary@ == byte_tokens(),
                inputs == byte_views(data@),
                i <= data@.len(),
                patterns@.len() == i,
                forall|k: int| 0 <= k < i ==> (#[trigger] patterns@[k])@ == ids_of_bytes(inputs[k]),
            decreases data@.len() - i,
        {
            let pattern = vocabulary.encode(data[i]);
            proof {
                lemma_encoded_bytes(inputs[i as int]);
            }
            patterns.push(pattern);
            i = i + 1;
        }
        let ghost buffers = pattern_views(patterns@);
        proof {
            assert(buffers =~= initial_patterns(inputs));
            crate::bpe::lemma_initial_patterns_len(inputs);
        }
        let mut pair_locations_in_patterns: Vec<MappedSets> = Vec::new();
        let mut p: usize = 0;
        while p < patterns.len()
            invariant
                buffers == pattern_views(patterns@),
                p <= patterns@.len(),
                pair_locations_in_patterns@.len() == p,
                forall|k: int|
                    0 <= k < p ==> (#[trigger] pair_locations_in_patterns@[k])@ == with_locations(
                        Seq::<(IdPair, Seq<usize>)>::empty(),
                        window_locations(buffers[k]),
                    ),
            decreases patterns@.len() - p,
        {
            let sets = record_id_pairs(&patterns[p]);
            pair_locations_in_patterns.push(sets);
            p = p + 1;
        }
        let ghost indexes = index_views(pair_locations_in_patterns@);
        proof {
            assert(indexes =~= initial_indexes(buffers));
        }
        let mut pair_counts = queue_new();
        proof {
            assert(priorities(pair_counts) =~= seeded(indexes, 0));
            assert(buffers.take(0) =~= Seq::<Seq<TokenId>>::empty());
            assert(indexes.take(0) =~= Seq::<SetEntries>::empty());
        }
        let mut q: usize = 0;
        while q < pair_locations_in_patterns.len()
            invariant
                tokens == byte_tokens(),
                buffers == initial_patterns(inputs),
                indexes == index_views(pair_locations_in_patterns@),
                indexes == initial_indexes(buffers),
                inputs.len() == buffers.len(),
                buffers.len() == pair_locations_in_patterns@.len(),
                total_len(buffers) <= usize::MAX,
                q <= pair_locations_in_patterns@.len(),
                priorities(pair_counts) == seeded(indexes, q as int),
                counts_fit(
                    priorities(pair_counts),
                    tokens,
                    total_len(buffers.take(q as int)),
                    vacant(),
                    total_len(buffers.take(q as int)),
                ),
                counts_match(indexes.take(q as int), priorities(pair_counts)),
            decreases pair_locations_in_patterns@.len() - q,
        {
            let ghost counts = priorities(pair_counts);
            let ghost entries = indexes[q as int];
            let ghost buffer = buffers[q as int];
            let ghost so_far = total_len(buffers.take(q as int));
            proof {
                crate::recode::lemma_ids_of_bytes(tokens, inputs[q as int]);
                let windows = window_locations(buffer);
                lemma_window_locations_fit(tokens, buffer, windows.len() as int);
                assert(windows.take(windows.len() as int) =~= windows);
                assert(entries_fit(entries, tokens, buffer.len()));
                assert forall|i: int, j: int|
                    0 <= i < entries.len() && 0 <= j < entries[i].1.len() implies #[trigger] entries[i].1[j]
                    < buffer.len() by {
                    let (pair, items) = entries[i];
                    assert(items[j] < buffer.len());
                }
                lemma_total_len_take(buffers, q as int);
                lemma_lengths_of(entries, buffer.len());
                let items = lengths_of(entries);
                assert forall|i: int| 0 <= i < items.len() implies (#[trigger] items[i]).1
                    <= buffer.len() by {}
                assert forall|i: int| 0 <= i < items.len() implies count_in(
                    counts,
                    (#[trigger] items[i]).0,
                ) + items[i].1 <= usize::MAX by {}
                lemma_raised_all_exact(counts, items);
                let raised = raised_all(counts, items);
                assert forall|pair: IdPair| #[trigger] raised.contains_key(pair) implies {
                    &&& known(tokens, pair.0)
                    &&& known(tokens, pair.1)
                    &&& !is_merged(tokens, pair.0, pair.1)
                    &&& raised[pair] <= so_far + buffer.len()
                } by {
                    assert(count_in(raised, pair) == count_in(counts, pair) + amount_of(items, pair));
                    if has_key(items, pair) {
                        let i = crate::utils::position_of(items, pair);
                        let (key, set) = entries[i];
                        assert(known(tokens, key.0) && known(tokens, key.1));
                        assert(items[i].1 <= buffer.len());
                    } else {
                        assert(counts.contains_key(pair));
                    }
                    if is_merged(tokens, pair.0, pair.1) {
                        let i = choose|i: int|
                            0 <= i < tokens.len() && #[trigger] tokens[i] == Token::Merge(pair.0, pair.1);
                    }
                }
                // The counts stay true to the indexes that have entered.
                let none: SetEntries = Seq::empty();
                lemma_with_locations_nonempty(none, windows);
                assert forall|pair: IdPair|
                    #[trigger] count_in(raised, pair) == locations_total(indexes.take(q + 1), pair) && (
                    raised.contains_key(pair) ==> raised[pair] >= 1) by {
                    lemma_amount_of_lengths(entries, buffer.len(), pair);
                    lemma_locations_total_take(indexes, q as int, pair);
                    assert(count_in(counts, pair) == locations_total(indexes.take(q as int), pair));
                    assert(count_in(raised, pair) == count_in(counts, pair) + amount_of(items, pair));
                    assert(amount_of(items, pair) == size_of(entries, pair));
                    assert(raised.contains_key(pair) <==> (counts.contains_key(pair) || has_key(
                        items,
                        pair,
                    )));
                    if has_key(items, pair) {
                        let i = position_of(items, pair);
                        assert(entries[i].0 == pair);
                        lemma_position_of(entries, i);
                        assert(entries[i].1.len() >= 1);
                    }
                }
            }
            let lengths = pair_locations_in_patterns[q].lengths();
            increase_priorities(&mut pair_counts, lengths);
            q = q + 1;
        }
        proof {
            assert(buffers.take(q as int) =~= buffers);
            assert(indexes.take(q as int) =~= indexes);
            assert forall|p: int| 0 <= p < indexes.len() implies sets_nonempty(
                #[trigger] indexes[p],
            ) by {
                let none: SetEntries = Seq::empty();
                lemma_with_locations_nonempty(none, window_locations(buffers[p]));
            }
            assert forall|p: int| 0 <= p < buffers.len() implies buffer_known(
                tokens,
                #[trigger] buffers[p],
            ) by {
                crate::recode::lemma_ids_of_bytes(tokens, inputs[p]);
            }
            assert forall|p: int| 0 <= p < indexes.len() implies sets_wf(#[trigger] indexes[p]) by {
                crate::recode::lemma_ids_of_bytes(tokens, inputs[p]);
                let windows = window_locations(buffers[p]);
                lemma_window_locations_fit(tokens, buffers[p], windows.len() as int);
                assert(windows.take(windows.len() as int) =~= windows);
            }
            assert forall|p: int| 0 <= p < indexes.len() implies consistent(
                buffers[p],
                #[trigger] indexes[p],
            ) by {
                lemma_total_len_take(buffers, p);
                lemma_initial_consistent(buffers[p]);
            }
        }
        RePairTraining { vocabulary, patterns, pair_locations_in_patterns, pair_counts }
    }
}

impl RePairTraining {
    /// Well-formedness in the middle of a step: the pair that is to be
    /// merged has left the counts, and nothing else has changed yet.
    spec fn wf_but(&self, merging: IdPair) -> bool {
        &&& self.vocabulary.wf()
        &&& training_shape(self.tokens(), self.state())
        &&& counts_match_but(self.state().1, self.state().2, merging, 0)
    }

    /// The vocabulary is well-formed, whatever else is.
    pub closed spec fn vocabulary_wf(&self) -> bool {
        self.vocabulary.wf()
    }

    /// Merges the pair `(id0, id1)`: the pair leaves the counts, the
    /// vocabulary gains the merge under the next id, and in every pattern
    /// whose index holds the pair the pair is replaced at each of its
    /// locations, the counts and the index following. Gives up where a
    /// location no longer holds the pair, or where the pair has no location
    /// at all; the state is then of no use.
    pub fn merge_pair(&mut self, id0: TokenId, id1: TokenId) -> (r: Result<TokenId, RePairError>)
        requires
            old(self).wf(),
            known(old(self).tokens(), id0),
            known(old(self).tokens(), id1),
            !is_merged(old(self).tokens(), id0, id1),
        ensures
            match r {
                Ok(id) => {
                    &&& final(self).wf()
                    &&& id == TokenId(old(self).tokens().len() as usize)
                    &&& merged(
                        old(self).tokens(),
                        (old(self).state().0, old(self).state().1, old(self).state().2.remove((id0, id1))),
                        id0,
                        id1,
                    ) == Ok::<(Seq<Token>, TrainingState), RePairError>(
                        (final(self).tokens(), final(self).state()),
                    )
                    &&& live_total(final(self).state().0) < live_total(old(self).state().0)
                },
                Err(e) => e == RePairError::BufferMismatch && merged(
                    old(self).tokens(),
                    (old(self).state().0, old(self).state().1, old(self).state().2.remove((id0, id1))),
                    id0,
                    id1,
                ) == Err::<(Seq<Token>, TrainingState), RePairError>(e),
            },
            id0 != id1 && old(self).state().2.contains_key((id0, id1)) ==> r is Ok,
    {
        let ghost counts = self.state().2;
        let ghost indexes = self.state().1;
        queue_remove(&mut self.pair_counts, (id0, id1));
        proof {
            let left = self.state().2;
            assert(left =~= counts.remove((id0, id1)));
            assert forall|pair: IdPair| pair != (id0, id1) implies #[trigger] count_in(left, pair)
                == locations_total(indexes, pair) by {
                assert(count_in(counts, pair) == locations_total(indexes, pair));
            }
            assert forall|pair: IdPair| #[trigger] left.contains_key(pair) implies left[pair] >= 1 by {
                assert(count_in(counts, pair) == locations_total(indexes, pair));
            }
            assert(count_in(counts, (id0, id1)) == locations_total(indexes, (id0, id1)));
        }
        self.merge_popped(id0, id1)
    }

    /// Merges the pair `(id0, id1)` that has left the counts.
    fn merge_popped(&mut self, id0: TokenId, id1: TokenId) -> (r: Result<TokenId, RePairError>)
        requires
            old(self).wf_but((id0, id1)),
            known(old(self).tokens(), id0),
            known(old(self).tokens(), id1),
            !is_merged(old(self).tokens(), id0, id1),
        ensures
            match r {
                Ok(id) => {
                    &&& final(self).wf()
                    &&& id == TokenId(old(self).tokens().len() as usize)
                    &&& merged(old(self).tokens(), old(self).state(), id0, id1) == Ok::<
                        (Seq<Token>, TrainingState),
                        RePairError,
                    >((final(self).tokens(), final(self).state()))
                    &&& live_total(final(self).state().0) < live_total(old(self).state().0)
                },
                Err(e) => e == RePairError::BufferMismatch && merged(
                    old(self).tokens(),
                    old(self).state(),
                    id0,
                    id1,
                ) == Err::<(Seq<Token>, TrainingState), RePairError>(e),
            },
            id0 != id1 && locations_total(old(self).state().1, (id0, id1)) >= 1 ==> r is Ok,
    {
        let ghost tokens0 = self.tokens();
        let ghost start = self.state();
        let ghost merging = (id0, id1);
        let new_id = self.vocabulary.mint(id0, id1);
        let ghost tokens1 = self.tokens();
        let n = self.patterns.len();
        let mut failure: Option<RePairError> = None;
        let mut progress = false;
        let mut p: usize = 0;
        proof {
            lemma_more_tokens(tokens0, id0, id1);
            assert(start.0.take(0) =~= Seq::<Seq<TokenId>>::empty());
            assert forall|q: int| 0 <= q < start.0.len() implies buffer_known(
                tokens1,
                #[trigger] start.0[q],
            ) && free_of(start.0[q], new_id) by {
                assert(buffer_known(tokens0, start.0[q]));
            }
        }
        while p < n
            invariant_except_break
                failure is None,
                n == start.0.len(),
                n == self.patterns@.len(),
                p <= n,
                self.vocabulary.wf(),
                self.tokens() == tokens1,
                merging == (id0, id1),
                merge_ready(tokens1, merging, new_id),
                new_id != vacant(),
                merging_wf(tokens1, self.state(), merging, new_id, p as int),
                merged_upto(start, id0, id1, new_id, p as int) == Ok::<TrainingState, RePairError>(
                    self.state(),
                ),
                live_total(self.state().0) <= live_total(start.0),
                progress <==> live_total(self.state().0) < live_total(start.0),
                forall|q: int| p <= q < n ==> #[trigger] self.state().1[q] == start.1[q],
                !progress ==> forall|q: int|
                    0 <= q < p ==> size_of(#[trigger] start.1[q], merging) == 0,
            ensures
                self.vocabulary.wf(),
                self.tokens() == tokens1,
                n == self.state().0.len(),
                failure is Some ==> id0 == id1,
                failure is None && !progress ==> forall|q: int|
                    0 <= q < n ==> size_of(#[trigger] start.1[q], merging) == 0,
                match failure {
                    Some(e) => e == RePairError::BufferMismatch && merged_upto(
                        start,
                        id0,
                        id1,
                        new_id,
                        n as int,
                    ) == Err::<TrainingState, RePairError>(e),
                    None => {
                        &&& merged_upto(start, id0, id1, new_id, n as int) == Ok::<
                            TrainingState,
                            RePairError,
                        >(self.state())
                        &&& merging_wf(tokens1, self.state(), merging, new_id, n as int)
                        &&& progress <==> live_total(self.state().0) < live_total(start.0)
                    },
                },
            decreases n - p,
        {
            let ghost before = self.state();
            let ghost buffer = before.0[p as int];
            let ghost index = before.1[p as int];
            proof {
                assert(sets_wf(index));
            }
            let taken = self.pair_locations_in_patterns[p].take((id0, id1));
            match taken {
                Some(locations) => {
                    let count = set_len(&locations);
                    match replace_pair(id0, id1, locations, &mut self.patterns[p], new_id) {
                        Err(e) => {
                            failure = Some(e);
                            proof {
                                lemma_merged_upto_err(start, id0, id1, new_id, p + 1, n as int);
                                if id0 != id1 {
                                    lemma_pattern_goes_through(
                                        tokens1,
                                        before,
                                        merging,
                                        new_id,
                                        p as int,
                                    );
                                }
                            }
                            break ;
                        },
                        Ok((added, removed)) => {
                            let ghost rewritten = self.state().0[p as int];
                            proof {
                                lemma_pattern_counts(tokens1, before, merging, new_id, p as int);
                                lemma_size_holds(index, merging);
                                assert(index[position_of(index, merging)].1.len() >= 1);
                            }
                            increase_priorities(&mut self.pair_counts, added.lengths());
                            match decrease_priorities(&mut self.pair_counts, removed.lengths()) {
                                Err(e) => {
                                    // The counts cover what the index loses.
                                    proof {
                                        assert(false);
                                    }
                                    failure = Some(RePairError::Priority(e));
                                    break ;
                                },
                                Ok(()) => {},
                            }
                            self.pair_locations_in_patterns[p].add_assign(added);
                            self.pair_locations_in_patterns[p].sub_assign(removed);
                            if count > 0 {
                                progress = true;
                            }
                            proof {
                                let after = self.state();
                                assert(pattern_merged((buffer, index, before.2), id0, id1, new_id)
                                    == Ok::<PatternState, RePairError>(
                                    (rewritten, after.1[p as int], after.2),
                                ));
                                lemma_pattern_merged_wf(tokens1, before, merging, new_id, p as int);
                                lemma_live_total_update(before.0, p as int, rewritten);
                                crate::sizes::lemma_size_holds(index, merging);
                                assert(after.0 =~= before.0.update(p as int, rewritten));
                                assert(after.1 =~= before.1.update(p as int, after.1[p as int]));
                            }
                        },
                    }
                },
                None => {
                    proof {
                        let after = self.state();
                        assert(after.0 =~= before.0);
                        assert(after.1 =~= before.1.update(p as int, index));
                        assert(after.1 =~= before.1);
                        assert(before.0.update(p as int, buffer) =~= before.0);
                        lemma_pattern_merged_wf(tokens1, before, merging, new_id, p as int);
                    }
                },
            }
            p = p + 1;
        }
        proof {
            if failure is None && !progress {
                lemma_locations_total_zero(start.1, merging);
            }
            if failure is None {
                let (buffers, indexes, counts) = self.state();
                assert(buffers.take(n as int) =~= buffers);
                assert forall|pair: IdPair|
                    #[trigger] count_in(counts, pair) == locations_total(indexes, pair) && (
                    counts.contains_key(pair) ==> counts[pair] >= 1) by {
                    if pair == merging {
                        lemma_locations_total_zero(indexes, pair);
                    }
                }
                assert forall|pair: IdPair| #[trigger] counts.contains_key(pair) implies counts[pair]
                    <= total_len(buffers) by {}
            }
        }
        match failure {
            Some(e) => Err(e),
            None => {
                if progress {
                    Ok(new_id)
                } else {
                    Err(RePairError::BufferMismatch)
                }
            },
        }
    }
}

/// A failure on the way through the patterns is the failure of the merge.
pub proof fn lemma_merged_upto_err(
    state: TrainingState,
    id0: TokenId,
    id1: TokenId,
    replacement: TokenId,
    k: int,
    n: int,
)
    requires
        0 <= k <= n,
        merged_upto(state, id0, id1, replacement, k) is Err,
    ensures
        merged_upto(state, id0, id1, replacement, n) == merged_upto(state, id0, id1, replacement, k),
    decreases n - k,
{
    if k < n {
        lemma_merged_upto_err(state, id0, id1, replacement, k, n - 1);
    }
}

/// `pair` has a count, and no pair has a larger one.
pub open spec fn largest(counts: Map<IdPair, usize>, pair: IdPair) -> bool {
    &&& counts.contains_key(pair)
    &&& forall|other: IdPair| counts.contains_key(other) ==> #[trigger] counts[other] <= counts[pair]
}

/// No pair has a count of two or more.
pub open spec fn settled(counts: Map<IdPair, usize>) -> bool {
    forall|pair: IdPair| counts.contains_key(pair) ==> #[trigger] counts[pair] < 2
}

/// The merge of `pair` can be the next step from `state`: the pair has a
/// largest count, and that count is at least two.
pub open spec fn can_choose(state: TrainingState, pair: IdPair) -> bool {
    largest(state.2, pair) && state.2[pair] >= 2
}

/// What the step that merges `pair` gives.
pub open spec fn chosen(tokens: Seq<Token>, state: TrainingState, pair: IdPair) -> Result<
    (Seq<Token>, TrainingState),
    RePairError,
> {
    merged(tokens, (state.0, state.1, state.2.remove(pair)), pair.0, pair.1)
}

/// Training can lead from `(tokens, state)` to `end` by merging `pairs` in
/// order, each pair being one that can be chosen when its turn comes.
pub open spec fn leads_to(
    tokens: Seq<Token>,
    state: TrainingState,
    pairs: Seq<IdPair>,
    end: (Seq<Token>, TrainingState),
) -> bool
    decreases pairs.len(),
{
    if pairs.len() == 0 {
        end == (tokens, state)
    } else {
        &&& can_choose(state, pairs[0])
        &&& match chosen(tokens, state, pairs[0]) {
            Ok((more_tokens, next)) => leads_to(more_tokens, next, pairs.drop_first(), end),
            Err(_) => false,
        }
    }
}

/// The state that training starts from.
pub open spec fn start_state(inputs: Seq<Seq<u8>>) -> TrainingState {
    (
        initial_patterns(inputs),
        initial_indexes(initial_patterns(inputs)),
        seeded(initial_indexes(initial_patterns(inputs)), inputs.len() as int),
    )
}

/// A run goes on by one more step.
pub proof fn lemma_leads_to_push(
    tokens: Seq<Token>,
    state: TrainingState,
    pairs: Seq<IdPair>,
    middle: (Seq<Token>, TrainingState),
    pair: IdPair,
    end: (Seq<Token>, TrainingState),
)
    requires
        leads_to(tokens, state, pairs, middle),
        can_choose(middle.1, pair),
        chosen(middle.0, middle.1, pair) == Ok::<(Seq<Token>, TrainingState), RePairError>(end),
    ensures
        leads_to(tokens, state, pairs.push(pair), end),
    decreases pairs.len(),
{
    let more = pairs.push(pair);
    if pairs.len() == 0 {
        assert(more[0] == pair);
        assert(more.drop_first() =~= Seq::<IdPair>::empty());
        assert(leads_to(end.0, end.1, more.drop_first(), end));
    } else {
        assert(more[0] == pairs[0]);
        assert(more.drop_first() =~= pairs.drop_first().push(pair));
        match chosen(tokens, state, pairs[0]) {
            Ok((more_tokens, next)) => {
                lemma_leads_to_push(more_tokens, next, pairs.drop_first(), middle, pair, end);
            },
            Err(_) => {},
        }
    }
}

impl RePairTraining {
    /// One training step. A pair of largest count leaves the counts; where
    /// its count is at least two it is merged and the new id is returned,
    /// otherwise training is over.
    pub fn step(&mut self) -> (r: Result<Option<TokenId>, RePairError>)
        requires
            old(self).wf(),
        ensures
            match r {
                Ok(Some(id)) => {
                    &&& final(self).wf()
                    &&& id == TokenId(old(self).tokens().len() as usize)
                    &&& live_total(final(self).state().0) < live_total(old(self).state().0)
                    &&& exists|pair: IdPair|
                        can_choose(old(self).state(), pair) && #[trigger] chosen(
                            old(self).tokens(),
                            old(self).state(),
                            pair,
                        ) == Ok::<(Seq<Token>, TrainingState), RePairError>(
                            (final(self).tokens(), final(self).state()),
                        )
                },
                Ok(None) => {
                    &&& final(self).vocabulary_wf()
                    &&& settled(old(self).state().2)
                    &&& final(self).tokens() == old(self).tokens()
                    &&& final(self).state().0 == old(self).state().0
                    &&& final(self).state().1 == old(self).state().1
                },
                Err(e) => e == RePairError::BufferMismatch && exists|pair: IdPair|
                    pair.0 == pair.1 && can_choose(old(self).state(), pair) && #[trigger] chosen(
                        old(self).tokens(),
                        old(self).state(),
                        pair,
                    ) == Err::<(Seq<Token>, TrainingState), RePairError>(e),
            },
    {
        let ghost counts = self.state().2;
        let ghost indexes = self.state().1;
        let ghost tokens = self.tokens();
        let ghost before = self.state();
        match queue_pop(&mut self.pair_counts) {
            Some(((id0, id1), count)) => {
                proof {
                    let left = self.state().2;
                    assert(counts.contains_key((id0, id1)));
                    assert(left =~= counts.remove((id0, id1)));
                    assert forall|pair: IdPair| pair != (id0, id1) implies #[trigger] count_in(
                        left,
                        pair,
                    ) == locations_total(indexes, pair) by {
                        assert(count_in(counts, pair) == locations_total(indexes, pair));
                    }
                    assert forall|pair: IdPair| #[trigger] left.contains_key(pair) implies left[pair]
                        >= 1 by {
                        assert(count_in(counts, pair) == locations_total(indexes, pair));
                    }
                    assert(count_in(counts, (id0, id1)) == locations_total(indexes, (id0, id1)));
                }
                if count < MIN_PAIR_COUNT {
                    proof {
                        assert forall|pair: IdPair| counts.contains_key(pair) implies #[trigger] counts[pair]
                            < 2 by {}
                    }
                    Ok(None)
                } else {
                    let r = self.merge_popped(id0, id1);
                    proof {
                        assert(can_choose(before, (id0, id1)));
                        match r {
                            Ok(id) => {
                                assert(chosen(tokens, before, (id0, id1)) == Ok::<
                                    (Seq<Token>, TrainingState),
                                    RePairError,
                                >((self.tokens(), self.state())));
                            },
                            Err(e) => {
                                assert(chosen(tokens, before, (id0, id1)) == Err::<
                                    (Seq<Token>, TrainingState),
                                    RePairError,
                                >(e));
                            },
                        }
                    }
                    match r {
                        Ok(id) => Ok(Some(id)),
                        Err(e) => Err(e),
                    }
                }
            },
            None => Ok(None),
        }
    }

    /// The encoder that training has got to.
    pub fn finish(self) -> (re_pair: RePair)
        requires
            self.vocabulary_wf(),
        ensures
            re_pair.wf(),
            re_pair@ == self.tokens(),
    {
        RePair { vocabulary: self.vocabulary }
    }

    /// A well-formed training has a well-formed vocabulary.
    pub proof fn lemma_vocabulary_wf(&self)
        requires
            self.wf(),
        ensures
            self.vocabulary_wf(),
    {
    }
}

/// A Re-Pair encoder: the vocabulary that training arrived at.
pub struct RePair {
    vocabulary: Vocabulary,
}

impl View for RePair {
    type V = Seq<Token>;

    /// The tokens in id order.
    closed spec fn view(&self) -> Seq<Token> {
        self.vocabulary@
    }
}

impl RePair {
    /// Well-formedness: a well-formed vocabulary.
    pub closed spec fn wf(&self) -> bool {
        self.vocabulary.wf()
    }

    /// What well-formedness says of the tokens.
    pub proof fn lemma_wf(&self)
        requires
            self.wf(),
        ensures
            valid_tokens(self@),
            self@.len() <= usize::MAX,
    {
    }

    /// The vocabulary.
    pub fn vocabulary(&self) -> (vocabulary: &Vocabulary)
        requires
            self.wf(),
        ensures
            vocabulary.wf(),
            vocabulary@ == self@,
    {
        &self.vocabulary
    }

    /// A trained encoder: pairs of largest count are merged, one after the
    /// other, until no pair has a count of two or more. Training is given up
    /// where the locations of a pair of two equal ids overlap.
    pub fn new(data: &[&[u8]]) -> (r: Result<RePair, RePairError>)
        requires
            total_len(byte_views(data@)) <= usize::MAX,
        ensures
            match r {
                Ok(re_pair) => re_pair.wf() && exists|pairs: Seq<IdPair>, state: TrainingState| #[trigger]
                    leads_to(
                        byte_tokens(),
                        start_state(byte_views(data@)),
                        pairs,
                        (re_pair@, state),
                    ) && settled(state.2),
                Err(e) => e == RePairError::BufferMismatch && exists|
                    pairs: Seq<IdPair>,
                    end: (Seq<Token>, TrainingState),
                    pair: IdPair,
                |
                    #![trigger leads_to(byte_tokens(), start_state(byte_views(data@)), pairs, end), chosen(
                        end.0,
                        end.1,
                        pair,
                    )]
                    leads_to(byte_tokens(), start_state(byte_views(data@)), pairs, end) && pair.0
                        == pair.1 && can_choose(end.1, pair) && chosen(end.0, end.1, pair) == Err::<
                        (Seq<Token>, TrainingState),
                        RePairError,
                    >(e),
            },
            settled(start_state(byte_views(data@)).2) ==> (r matches Ok(re_pair) && re_pair@
                == byte_tokens()),
    {
        let config = Config::new();
        let r = RePair::with_config(data, config);
        proof {
            let start = start_state(byte_views(data@));
            if r is Ok {
                let tokens = r->Ok_0@;
                let (pairs, state) = choose|pairs: Seq<IdPair>, state: TrainingState| #[trigger]
                    leads_to(byte_tokens(), start, pairs, (tokens, state)) && (settled(state.2)
                        || config.max_new_tokens == Some(pairs.len() as usize));
                assert(leads_to(byte_tokens(), start, pairs, (tokens, state)) && settled(state.2));
            }
        }
        r
    }

    /// An encoder that training has stopped on: at the end of training, or
    /// after as many merges as the options allow, whichever comes first.
    pub fn with_config(data: &[&[u8]], config: Config) -> (r: Result<RePair, RePairError>)
        requires
            total_len(byte_views(data@)) <= usize::MAX,
        ensures
            match r {
                Ok(re_pair) => re_pair.wf() && exists|pairs: Seq<IdPair>, state: TrainingState| #[trigger]
                    leads_to(
                        byte_tokens(),
                        start_state(byte_views(data@)),
                        pairs,
                        (re_pair@, state),
                    ) && (settled(state.2) || config.max_new_tokens == Some(pairs.len() as usize))
                        && (config.max_new_tokens matches Some(max) ==> pairs.len() <= max),
                Err(e) => e == RePairError::BufferMismatch && exists|
                    pairs: Seq<IdPair>,
                    end: (Seq<Token>, TrainingState),
                    pair: IdPair,
                |
                    #![trigger leads_to(byte_tokens(), start_state(byte_views(data@)), pairs, end), chosen(
                        end.0,
                        end.1,
                        pair,
                    )]
                    leads_to(byte_tokens(), start_state(byte_views(data@)), pairs, end) && pair.0
                        == pair.1 && can_choose(end.1, pair) && chosen(end.0, end.1, pair) == Err::<
                        (Seq<Token>, TrainingState),
                        RePairError,
                    >(e),
            },
            settled(start_state(byte_views(data@)).2) ==> (r matches Ok(re_pair) && re_pair@
                == byte_tokens()),
    {
        let mut training = RePairTraining::new(data);
        let ghost start = start_state(byte_views(data@));
        let ghost mut pairs: Seq<IdPair> = Seq::empty();
        let mut minted: usize = 0;
        let mut outcome: Result<(), RePairError> = Ok(());
        proof {
            assert(training.state() == start);
        }
        while !config.reached(minted)
            invariant_except_break
                outcome is Ok,
                training.wf(),
                start == start_state(byte_views(data@)),
                pairs.len() == minted,
                training.tokens().len() == 256 + minted,
                config.max_new_tokens matches Some(max) ==> minted <= max,
                leads_to(byte_tokens(), start, pairs, (training.tokens(), training.state())),
            ensures
                start == start_state(byte_views(data@)),
                config.max_new_tokens matches Some(max) ==> pairs.len() <= max,
                match outcome {
                    Ok(()) => training.vocabulary_wf() && exists|state: TrainingState| #[trigger]
                        leads_to(byte_tokens(), start, pairs, (training.tokens(), state)) && (settled(
                            state.2,
                        ) || config.max_new_tokens == Some(pairs.len() as usize)),
                    Err(e) => e == RePairError::BufferMismatch && exists|
                        end: (Seq<Token>, TrainingState),
                        pair: IdPair,
                    |
                        #![trigger leads_to(byte_tokens(), start, pairs, end), chosen(end.0, end.1, pair)]
                        leads_to(byte_tokens(), start, pairs, end) && pair.0 == pair.1 && can_choose(
                            end.1,
                            pair,
                        ) && chosen(end.0, end.1, pair) == Err::<
                            (Seq<Token>, TrainingState),
                            RePairError,
                        >(e),
                },
            decreases live_total(training.state().0),
        {
            let ghost middle = (training.tokens(), training.state());
            proof {
                training.lemma_wf();
            }
            match training.step() {
                Ok(Some(_)) => {
                    proof {
                        let end = (training.tokens(), training.state());
                        let pair = choose|pair: IdPair|
                            can_choose(middle.1, pair) && #[trigger] chosen(middle.0, middle.1, pair)
                                == Ok::<(Seq<Token>, TrainingState), RePairError>(end);
                        lemma_leads_to_push(byte_tokens(), start, pairs, middle, pair, end);
                        pairs = pairs.push(pair);
                        training.lemma_wf();
                    }
                    minted = minted + 1;
                },
                Ok(None) => {
                    proof {
                        assert(leads_to(byte_tokens(), start, pairs, (training.tokens(), middle.1)));
                    }
                    outcome = Ok(());
                    break ;
                },
                Err(e) => {
                    proof {
                        let pair = choose|pair: IdPair|
                            pair.0 == pair.1 && can_choose(middle.1, pair) && #[trigger] chosen(
                                middle.0,
                                middle.1,
                                pair,
                            ) == Err::<(Seq<Token>, TrainingState), RePairError>(e);
                        assert(leads_to(byte_tokens(), start, pairs, middle) && pair.0 == pair.1
                            && can_choose(middle.1, pair) && chosen(middle.0, middle.1, pair) == Err::<
                            (Seq<Token>, TrainingState),
                            RePairError,
                        >(e));
                    }
                    outcome = Err(e);
                    break ;
                },
            }
        }
        proof {
            if settled(start.2) {
                lemma_settled_stays(byte_tokens(), start);
            }
        }
        match outcome {
            Ok(()) => {
                let ghost tokens = training.tokens();
                let ghost state = choose|state: TrainingState| #[trigger]
                    leads_to(byte_tokens(), start, pairs, (tokens, state)) && (settled(state.2)
                        || config.max_new_tokens == Some(pairs.len() as usize));
                let re_pair = training.finish();
                proof {
                    assert(leads_to(byte_tokens(), start, pairs, (re_pair@, state)) && (settled(
                        state.2,
                    ) || config.max_new_tokens == Some(pairs.len() as usize)));
                }
                Ok(re_pair)
            },
            Err(e) => {
                proof {
                    let (end, pair) = choose|end: (Seq<Token>, TrainingState), pair: IdPair|
                        #![trigger leads_to(byte_tokens(), start, pairs, end), chosen(end.0, end.1, pair)]
                        leads_to(byte_tokens(), start, pairs, end) && pair.0 == pair.1 && can_choose(
                            end.1,
                            pair,
                        ) && chosen(end.0, end.1, pair) == Err::<
                            (Seq<Token>, TrainingState),
                            RePairError,
                        >(e);
                    assert(leads_to(byte_tokens(), start, pairs, end) && pair.0 == pair.1
                        && can_choose(end.1, pair) && chosen(end.0, end.1, pair) == Err::<
                        (Seq<Token>, TrainingState),
                        RePairError,
                    >(e));
                }
                Err(e)
            },
        }
    }

    /// Encodes bytes: one id per byte, then greedy condensation under the
    /// merges of the vocabulary.
    pub fn encode(&self, data: &[u8]) -> (ids: Vec<TokenId>)
        requires
            self.wf(),
        ensures
            ids@ == encoded(self@, data@),
            all_known(self@, ids@),
    {
        self.vocabulary.encode(data)
    }

    /// Decodes ids to the bytes they stand for. Fails on the first id that
    /// the vocabulary does not have.
    pub fn decode(&self, data: Vec<TokenId>) -> (r: Result<Vec<u8>, DecodeError>)
        requires
            self.wf(),
        ensures
            match r {
                Ok(bytes) => all_known(self@, data@) && bytes@ == decoded(self@, data@),
                Err(DecodeError::UnknownId(id)) => exists|i: int|
                    0 <= i < data@.len() && #[trigger] data@[i] == id && !known(self@, id) && all_known(
                        self@,
                        data@.take(i),
                    ),
            },
    {
        self.vocabulary.decode(data)
    }
}

/// From a state in which no pair has a count of two or more, training
/// takes no step.
pub proof fn lemma_settled_stays(tokens: Seq<Token>, state: TrainingState)
    requires
        settled(state.2),
    ensures
        forall|pair: IdPair| !can_choose(state, pair),
        forall|pairs: Seq<IdPair>, end: (Seq<Token>, TrainingState)| #[trigger]
            leads_to(tokens, state, pairs, end) ==> end == (tokens, state),
{
    assert forall|pairs: Seq<IdPair>, end: (Seq<Token>, TrainingState)| #[trigger]
        leads_to(tokens, state, pairs, end) implies end == (tokens, state) by {
        if pairs.len() > 0 {
            assert(can_choose(state, pairs[0]));
        }
    }
}

} // verus!
