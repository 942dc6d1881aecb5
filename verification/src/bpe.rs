//! Iterative byte-pair encoding: the vocabulary grows by one merge per step,
//! the merge of the most common adjacent id pair of the training patterns.

use crate::collections::id_token_entries;
use crate::engine::Config;
use crate::collections::token_id_entries;
use crate::pairs::all_counted;
use crate::pairs::counted;
use crate::pairs::counted_upto;
use crate::pairs::find_most_common_duplicate_id_pair;
use crate::pairs::is_counted;
use crate::pairs::is_most_common;
use crate::pairs::lemma_occurrences;
use crate::pairs::lemma_occurrences_concat;
use crate::pairs::lemma_occurrences_push;
use crate::pairs::most_common_duplicate;
use crate::pairs::occurrences;
use crate::pairs::pattern_views;
use crate::pairs::total_len;
use crate::pairs::window;
use crate::recode::decoded;
use crate::recode::encoded;
use crate::recode::fold_from;
use crate::recode::lemma_pass_known;
use crate::recode::merge;
use crate::recode::merge_pass;
use crate::recode::pair_rule;
use crate::recode::rule_within;
use crate::recode::vocabulary_rule;
use crate::recode::DecodeError;
use crate::recode::Rule;
use crate::token::all_known;
use crate::token::byte_tokens;
use crate::token::ids_of_bytes;
use crate::token::is_merged;
use crate::token::known;
use crate::token::valid_tokens;
use crate::token::IdPair;
use crate::token::Token;
use crate::token::TokenId;
use crate::vocabulary::Vocabulary;
use indexmap::IndexMap;
use vstd::prelude::*;

verus! {

/// The byte sequences as a sequence of sequences.
pub open spec fn byte_views(data: Seq<&[u8]>) -> Seq<Seq<u8>> {
    Seq::new(data.len(), |i: int| data[i]@)
}

/// The patterns that training starts from: one id per byte of each input.
pub open spec fn initial_patterns(inputs: Seq<Seq<u8>>) -> Seq<Seq<TokenId>> {
    Seq::new(inputs.len(), |i: int| ids_of_bytes(inputs[i]))
}

/// Every pattern after one scan that replaces the pair `(left, right)` by `merged`.
pub open spec fn rewritten(
    patterns: Seq<Seq<TokenId>>,
    left: TokenId,
    right: TokenId,
    merged: TokenId,
) -> Seq<Seq<TokenId>> {
    Seq::new(patterns.len(), |i: int| merge_pass(pair_rule(left, right, merged), patterns[i]))
}

/// One training step. Where the most common pair occurs at least twice, the
/// vocabulary gains the merge of that pair under the next id and every
/// pattern is rewritten with it; otherwise there is no step.
pub open spec fn step(tokens: Seq<Token>, patterns: Seq<Seq<TokenId>>) -> Option<
    (Seq<Token>, Seq<Seq<TokenId>>),
> {
    match most_common_duplicate(all_counted(patterns)) {
        Some((pair, _)) => Some(
            (
                tokens.push(Token::Merge(pair.0, pair.1)),
                rewritten(patterns, pair.0, pair.1, TokenId(tokens.len() as usize)),
            ),
        ),
        None => None,
    }
}

/// No adjacent pair of a pattern has a merge in the vocabulary.
pub open spec fn unmerged(tokens: Seq<Token>, patterns: Seq<Seq<TokenId>>) -> bool {
    forall|p: int, k: int|
        0 <= p < patterns.len() && 0 <= k < patterns[p].len() - 1 ==> !is_merged(
            tokens,
            #[trigger] patterns[p][k],
            patterns[p][k + 1],
        )
}

/// Every id of every pattern is in the vocabulary.
pub open spec fn patterns_known(tokens: Seq<Token>, patterns: Seq<Seq<TokenId>>) -> bool {
    forall|p: int| 0 <= p < patterns.len() ==> all_known(tokens, #[trigger] patterns[p])
}

/// A state that training can go on from: a valid vocabulary, patterns over
/// its ids in which no pair is merged yet, and sizes that fit the id type.
pub open spec fn trainable(tokens: Seq<Token>, patterns: Seq<Seq<TokenId>>) -> bool {
    &&& valid_tokens(tokens)
    &&& tokens.len() + total_len(patterns) <= usize::MAX
    &&& patterns_known(tokens, patterns)
    &&& unmerged(tokens, patterns)
}

/// The vocabulary at the end of training from the given state.
pub open spec fn trained(tokens: Seq<Token>, patterns: Seq<Seq<TokenId>>) -> Seq<Token>
    decreases total_len(patterns),
    when trainable(tokens, patterns)
    via trained_decreases
{
    match step(tokens, patterns) {
        Some((more_tokens, fewer_ids)) => trained(more_tokens, fewer_ids),
        None => tokens,
    }
}

#[via_fn]
proof fn trained_decreases(tokens: Seq<Token>, patterns: Seq<Seq<TokenId>>) {
    lemma_step(tokens, patterns);
}

/// The state after at most `n` training steps: the vocabulary, and the
/// patterns where training has not come to its end.
pub open spec fn capped(tokens: Seq<Token>, patterns: Seq<Seq<TokenId>>, n: nat) -> (
    Seq<Token>,
    Option<Seq<Seq<TokenId>>>,
)
    decreases n,
{
    if n == 0 {
        (tokens, Some(patterns))
    } else {
        match step(tokens, patterns) {
            Some((more_tokens, fewer_ids)) => capped(more_tokens, fewer_ids, (n - 1) as nat),
            None => (tokens, None),
        }
    }
}

/// The state after `n` training steps, if training goes on for that long.
pub open spec fn after_steps(tokens: Seq<Token>, patterns: Seq<Seq<TokenId>>, n: nat) -> Option<
    (Seq<Token>, Seq<Seq<TokenId>>),
>
    decreases n,
{
    if n == 0 {
        Some((tokens, patterns))
    } else {
        match after_steps(tokens, patterns, (n - 1) as nat) {
            Some((more_tokens, fewer_ids)) => step(more_tokens, fewer_ids),
            None => None,
        }
    }
}

// ---------------------------------------------------------------------------
// Facts about one scan with a single pair
// ---------------------------------------------------------------------------

/// The id that the scan holds when it reaches position `k`: the new id where
/// the pair just before was replaced, the pattern's own id otherwise.
pub open spec fn held_at(ids: Seq<TokenId>, pair: IdPair, merged: TokenId, k: int) -> TokenId {
    if k > 0 && is_counted(ids, k - 1) && window(ids, k - 1) == pair {
        merged
    } else {
        ids[k]
    }
}

/// From position `k` on, the scan shortens the pattern by one id for each
/// counted occurrence of the pair.
proof fn lemma_scan_shortens(ids: Seq<TokenId>, pair: IdPair, merged: TokenId, k: int)
    requires
        0 <= k < ids.len(),
        merged != pair.0,
        forall|i: int| 0 <= i < ids.len() ==> #[trigger] ids[i] != merged,
    ensures
        fold_from(
            pair_rule(pair.0, pair.1, merged),
            held_at(ids, pair, merged, k),
            ids.subrange(k + 1, ids.len() as int),
        ).len() + occurrences(counted(ids), pair) == ids.len() - k + occurrences(
            counted_upto(ids, k),
            pair,
        ),
    decreases ids.len() - k,
{
    let rule = pair_rule(pair.0, pair.1, merged);
    let n = ids.len() as int;
    let rest = ids.subrange(k + 1, n);
    let current = held_at(ids, pair, merged, k);
    if k == n - 1 {
        assert(rest.len() == 0);
    } else {
        assert(rest[0] == ids[k + 1]);
        assert(rest.drop_first() =~= ids.subrange(k + 2, n));
        lemma_scan_shortens(ids, pair, merged, k + 1);
        lemma_occurrences_push(counted_upto(ids, k), window(ids, k), pair);
        if current == merged {
            assert(k > 0 && is_counted(ids, k - 1) && window(ids, k - 1) == pair);
            assert(rule(current, rest[0]) is None);
            assert(!(is_counted(ids, k) && window(ids, k) == pair));
            assert(held_at(ids, pair, merged, k + 1) == ids[k + 1]);
        } else {
            assert(current == ids[k]);
            if window(ids, k) == pair {
                assert(is_counted(ids, k));
                assert(rule(current, rest[0]) == Some(merged));
                assert(held_at(ids, pair, merged, k + 1) == merged);
            } else {
                assert(rule(current, rest[0]) is None);
                assert(held_at(ids, pair, merged, k + 1) == ids[k + 1]);
            }
        }
    }
}

/// One scan shortens a pattern by one id for each counted occurrence of the pair.
pub proof fn lemma_pass_shortens(ids: Seq<TokenId>, pair: IdPair, merged: TokenId)
    requires
        merged != pair.0,
        forall|i: int| 0 <= i < ids.len() ==> #[trigger] ids[i] != merged,
    ensures
        merge_pass(pair_rule(pair.0, pair.1, merged), ids).len() + occurrences(counted(ids), pair)
            == ids.len(),
{
    if ids.len() > 0 {
        lemma_scan_shortens(ids, pair, merged, 0);
        assert(ids.subrange(1, ids.len() as int) =~= ids.drop_first());
    } else {
        assert(counted(ids) =~= Seq::<IdPair>::empty());
    }
}

/// All scans together shorten the patterns by the number of counted
/// occurrences of the pair.
pub proof fn lemma_rewritten_len(patterns: Seq<Seq<TokenId>>, pair: IdPair, merged: TokenId)
    requires
        merged != pair.0,
        forall|p: int, i: int|
            0 <= p < patterns.len() && 0 <= i < patterns[p].len() ==> #[trigger] patterns[p][i]
                != merged,
    ensures
        total_len(rewritten(patterns, pair.0, pair.1, merged)) + occurrences(
            all_counted(patterns),
            pair,
        ) == total_len(patterns),
    decreases patterns.len(),
{
    let after = rewritten(patterns, pair.0, pair.1, merged);
    if patterns.len() > 0 {
        assert(after.drop_last() =~= rewritten(patterns.drop_last(), pair.0, pair.1, merged));
        assert forall|p: int, i: int|
            0 <= p < patterns.drop_last().len() && 0 <= i < patterns.drop_last()[p].len() implies #[trigger] patterns.drop_last()[p][i]
            != merged by {
            assert(patterns[p][i] != merged);
        }
        lemma_rewritten_len(patterns.drop_last(), pair, merged);
        let last = patterns.last();
        assert forall|i: int| 0 <= i < last.len() implies #[trigger] last[i] != merged by {
            assert(patterns[patterns.len() - 1][i] != merged);
        }
        lemma_pass_shortens(last, pair, merged);
        lemma_occurrences_concat(all_counted(patterns.drop_last()), counted(last), pair);
    }
}

/// What a scan leaves side by side is the new id and something, or two ids
/// that stood side by side before and are not the pair.
proof fn lemma_fold_neighbours(
    ids: Seq<TokenId>,
    pair: IdPair,
    merged: TokenId,
    current: TokenId,
    k: int,
)
    requires
        0 <= k < ids.len(),
        merged != pair.0,
        current == ids[k] || current == merged,
    ensures
        ({
            let out = fold_from(
                pair_rule(pair.0, pair.1, merged),
                current,
                ids.subrange(k + 1, ids.len() as int),
            );
            &&& out.len() >= 1
            &&& out[0] == current || out[0] == merged
            &&& forall|j: int|
                0 <= j < out.len() - 1 ==> (#[trigger] out[j]) == merged || out[j + 1] == merged || (
                (out[j], out[j + 1]) != pair && exists|i: int|
                    0 <= i < ids.len() - 1 && #[trigger] window(ids, i) == (out[j], out[j + 1]))
        }),
    decreases ids.len() - k,
{
    let rule = pair_rule(pair.0, pair.1, merged);
    let n = ids.len() as int;
    let rest = ids.subrange(k + 1, n);
    let out = fold_from(rule, current, rest);
    if k < n - 1 {
        assert(rest[0] == ids[k + 1]);
        assert(rest.drop_first() =~= ids.subrange(k + 2, n));
        match rule(current, rest[0]) {
            Some(_) => {
                lemma_fold_neighbours(ids, pair, merged, merged, k + 1);
            },
            None => {
                lemma_fold_neighbours(ids, pair, merged, ids[k + 1], k + 1);
                let tail = fold_from(rule, ids[k + 1], rest.drop_first());
                assert(out =~= seq![current] + tail);
                assert forall|j: int| 0 <= j < out.len() - 1 implies (#[trigger] out[j]) == merged
                    || out[j + 1] == merged || ((out[j], out[j + 1]) != pair && exists|i: int|
                    0 <= i < ids.len() - 1 && #[trigger] window(ids, i) == (out[j], out[j + 1])) by {
                    if j == 0 {
                        if current != merged && tail[0] != merged {
                            assert(window(ids, k) == (out[0], out[1]));
                        }
                    } else {
                        assert(out[j] == tail[j - 1] && out[j + 1] == tail[j]);
                    }
                }
            },
        }
    }
}

/// What a scan leaves side by side is the new id and something, or two ids
/// that stood side by side before and are not the pair.
pub proof fn lemma_pass_neighbours(ids: Seq<TokenId>, pair: IdPair, merged: TokenId)
    requires
        merged != pair.0,
    ensures
        ({
            let out = merge_pass(pair_rule(pair.0, pair.1, merged), ids);
            forall|j: int|
                0 <= j < out.len() - 1 ==> (#[trigger] out[j]) == merged || out[j + 1] == merged || (
                (out[j], out[j + 1]) != pair && exists|i: int|
                    0 <= i < ids.len() - 1 && #[trigger] window(ids, i) == (out[j], out[j + 1]))
        }),
{
    if ids.len() > 0 {
        lemma_fold_neighbours(ids, pair, merged, ids[0], 0);
        assert(ids.subrange(1, ids.len() as int) =~= ids.drop_first());
    }
}

/// A training step keeps the state trainable, adds one token and removes at
/// least two ids from the patterns.
pub proof fn lemma_step(tokens: Seq<Token>, patterns: Seq<Seq<TokenId>>)
    requires
        trainable(tokens, patterns),
    ensures
        match step(tokens, patterns) {
            Some((more_tokens, fewer_ids)) => {
                &&& trainable(more_tokens, fewer_ids)
                &&& more_tokens.len() == tokens.len() + 1
                &&& total_len(fewer_ids) + 2 <= total_len(patterns)
                &&& fewer_ids.len() == patterns.len()
            },
            None => true,
        },
{
    let seen = all_counted(patterns);
    if most_common_duplicate(seen) is Some {
        let pair = choose|pair: IdPair| is_most_common(seen, pair) && occurrences(seen, pair) >= 2;
        let merged = TokenId(tokens.len() as usize);
        let token = Token::Merge(pair.0, pair.1);
        let more_tokens = tokens.push(token);
        let rule = pair_rule(pair.0, pair.1, merged);
        let fewer_ids = rewritten(patterns, pair.0, pair.1, merged);
        assert(step(tokens, patterns) == Some((more_tokens, fewer_ids)));
        lemma_counted_windows(patterns, pair);
        let (p0, k0) = choose|p: int, k: int|
            0 <= p < patterns.len() && 0 <= k < patterns[p].len() - 1 && #[trigger] window(
                patterns[p],
                k,
            ) == pair;
        assert(all_known(tokens, patterns[p0]));
        assert(known(tokens, patterns[p0][k0]) && known(tokens, patterns[p0][k0 + 1]));
        assert(!is_merged(tokens, patterns[p0][k0], patterns[p0][k0 + 1]));
        assert(merged != pair.0);
        assert forall|p: int, i: int|
            0 <= p < patterns.len() && 0 <= i < patterns[p].len() implies #[trigger] patterns[p][i]
            != merged by {
            assert(all_known(tokens, patterns[p]));
            assert(known(tokens, patterns[p][i]));
        }
        lemma_rewritten_len(patterns, pair, merged);
        assert(valid_tokens(more_tokens)) by {
            assert forall|i: int, j: int| 0 <= i < j < more_tokens.len() implies #[trigger] more_tokens[i]
                != #[trigger] more_tokens[j] by {
                if j == tokens.len() {
                    assert(tokens[i] == more_tokens[i]);
                } else {
                    assert(tokens[i] != tokens[j]);
                }
            }
        }
        assert(rule_within(rule, more_tokens));
        assert forall|p: int| 0 <= p < fewer_ids.len() implies all_known(
            more_tokens,
            #[trigger] fewer_ids[p],
        ) by {
            assert(all_known(tokens, patterns[p]));
            assert forall|i: int| 0 <= i < patterns[p].len() implies known(
                more_tokens,
                #[trigger] patterns[p][i],
            ) by {
                assert(known(tokens, patterns[p][i]));
            }
            lemma_pass_known(more_tokens, rule, patterns[p]);
        }
        assert forall|p: int, k: int|
            0 <= p < fewer_ids.len() && 0 <= k < fewer_ids[p].len() - 1 implies !is_merged(
            more_tokens,
            #[trigger] fewer_ids[p][k],
            fewer_ids[p][k + 1],
        ) by {
            let out = fewer_ids[p];
            let a = out[k];
            let b = out[k + 1];
            lemma_pass_neighbours(patterns[p], pair, merged);
            if is_merged(more_tokens, a, b) {
                let i = choose|i: int|
                    0 <= i < more_tokens.len() && #[trigger] more_tokens[i] == Token::Merge(a, b);
                if i < tokens.len() {
                    assert(tokens[i] == Token::Merge(a, b));
                    assert(a != merged && b != merged) by {
                        if i < 256 {
                            assert(tokens[i] == Token::Byte(i as u8));
                        }
                    }
                    let w = choose|w: int|
                        0 <= w < patterns[p].len() - 1 && #[trigger] window(patterns[p], w) == (a, b);
                    assert(!is_merged(tokens, patterns[p][w], patterns[p][w + 1]));
                } else {
                    assert((a, b) == pair);
                    assert(a != merged && b != merged) by {
                        assert(known(tokens, pair.0) && known(tokens, pair.1));
                    }
                }
            }
        }
    }
}

/// A pair that is counted stands somewhere in a pattern.
pub proof fn lemma_counted_windows(patterns: Seq<Seq<TokenId>>, pair: IdPair)
    requires
        all_counted(patterns).contains(pair) || occurrences(all_counted(patterns), pair) >= 1,
    ensures
        exists|p: int, k: int|
            0 <= p < patterns.len() && 0 <= k < patterns[p].len() - 1 && #[trigger] window(
                patterns[p],
                k,
            ) == pair,
    decreases patterns.len(),
{
    lemma_occurrences(all_counted(patterns), pair);
    let seen = all_counted(patterns);
    let i = choose|i: int| 0 <= i < seen.len() && seen[i] == pair;
    if patterns.len() > 0 {
        let front = all_counted(patterns.drop_last());
        if i < front.len() {
            assert(front[i] == pair);
            assert(front.contains(pair));
            lemma_counted_windows(patterns.drop_last(), pair);
            let (p, k) = choose|p: int, k: int|
                0 <= p < patterns.drop_last().len() && 0 <= k < patterns.drop_last()[p].len() - 1
                    && #[trigger] window(patterns.drop_last()[p], k) == pair;
            assert(window(patterns[p], k) == pair);
        } else {
            let last = patterns.last();
            assert(counted(last)[i - front.len()] == pair);
            lemma_counted_upto_windows(last, last.len() - 1, i - front.len());
            let k = choose|k: int| 0 <= k < last.len() - 1 && #[trigger] window(last, k) == pair;
            assert(window(patterns[patterns.len() - 1], k) == pair);
        }
    }
}

/// Every counted pair stands somewhere in the pattern.
pub proof fn lemma_counted_upto_windows(ids: Seq<TokenId>, n: int, i: int)
    requires
        n <= ids.len() - 1,
        0 <= i < counted_upto(ids, n).len(),
    ensures
        exists|k: int| 0 <= k < n && #[trigger] window(ids, k) == counted_upto(ids, n)[i],
    decreases n,
{
    if n > 0 {
        if i < counted_upto(ids, n - 1).len() {
            lemma_counted_upto_windows(ids, n - 1, i);
            let k = choose|k: int|
                0 <= k < n - 1 && #[trigger] window(ids, k) == counted_upto(ids, n - 1)[i];
            assert(window(ids, k) == counted_upto(ids, n)[i]);
        } else {
            assert(window(ids, n - 1) == counted_upto(ids, n)[i]);
        }
    }
}

/// The state stays trainable over any number of steps; each step adds one
/// token and removes at least two ids from the patterns.
pub proof fn lemma_after_steps(tokens: Seq<Token>, patterns: Seq<Seq<TokenId>>, n: nat)
    requires
        trainable(tokens, patterns),
    ensures
        match after_steps(tokens, patterns, n) {
            Some((more_tokens, fewer_ids)) => {
                &&& trainable(more_tokens, fewer_ids)
                &&& more_tokens.len() == tokens.len() + n
                &&& total_len(fewer_ids) + 2 * n <= total_len(patterns)
            },
            None => true,
        },
    decreases n,
{
    if n > 0 {
        lemma_after_steps(tokens, patterns, (n - 1) as nat);
        match after_steps(tokens, patterns, (n - 1) as nat) {
            Some((more_tokens, fewer_ids)) => lemma_step(more_tokens, fewer_ids),
            None => {},
        }
    }
}

/// Monotone progress: training from inputs of `total` bytes in all, with
/// `total >= 1`, mints at most `total - 1` ids, one per step.
pub proof fn lemma_minted_bound(inputs: Seq<Seq<u8>>, n: nat)
    requires
        total_len(inputs) >= 1,
        256 + total_len(inputs) <= usize::MAX,
        after_steps(byte_tokens(), initial_patterns(inputs), n) is Some,
    ensures
        after_steps(byte_tokens(), initial_patterns(inputs), n) matches Some((tokens, _))
            && tokens.len() == 256 + n,
        n <= total_len(inputs) - 1,
{
    lemma_initial_patterns(inputs);
    lemma_after_steps(byte_tokens(), initial_patterns(inputs), n);
}

/// The initial patterns are as long as the inputs.
pub proof fn lemma_initial_patterns_len(inputs: Seq<Seq<u8>>)
    ensures
        total_len(initial_patterns(inputs)) == total_len(inputs),
    decreases inputs.len(),
{
    if inputs.len() > 0 {
        assert(initial_patterns(inputs).drop_last() =~= initial_patterns(inputs.drop_last()));
        lemma_initial_patterns_len(inputs.drop_last());
    }
}

/// The initial patterns have the length of the inputs and can be trained on.
pub proof fn lemma_initial_patterns(inputs: Seq<Seq<u8>>)
    requires
        256 + total_len(inputs) <= usize::MAX,
    ensures
        total_len(initial_patterns(inputs)) == total_len(inputs),
        trainable(byte_tokens(), initial_patterns(inputs)),
    decreases inputs.len(),
{
    let tokens = byte_tokens();
    let patterns = initial_patterns(inputs);
    assert(valid_tokens(tokens));
    if inputs.len() > 0 {
        assert(patterns.drop_last() =~= initial_patterns(inputs.drop_last()));
        lemma_initial_patterns(inputs.drop_last());
    }
    assert forall|p: int| 0 <= p < patterns.len() implies all_known(tokens, #[trigger] patterns[p]) by {}
    assert forall|p: int, k: int|
        0 <= p < patterns.len() && 0 <= k < patterns[p].len() - 1 implies !is_merged(
        tokens,
        #[trigger] patterns[p][k],
        patterns[p][k + 1],
    ) by {}
}

// ---------------------------------------------------------------------------
// The engine
// ---------------------------------------------------------------------------

/// The patterns of a training that is not finished yet.
pub struct InitInProgress {
    patterns: Vec<Vec<TokenId>>,
}

impl InitInProgress {
    /// The patterns as sequences of ids.
    pub closed spec fn patterns(&self) -> Seq<Seq<TokenId>> {
        pattern_views(self.patterns@)
    }
}

/// A byte-pair encoder: a vocabulary and, while training goes on, the
/// training patterns in their current encoding.
pub struct Bpe {
    vocabulary: Vocabulary,
    init_in_progress: Option<InitInProgress>,
}

impl View for Bpe {
    type V = Seq<Token>;

    /// The tokens in id order.
    closed spec fn view(&self) -> Seq<Token> {
        self.vocabulary@
    }
}

impl Bpe {
    /// The training patterns, while training goes on.
    pub closed spec fn patterns(&self) -> Option<Seq<Seq<TokenId>>> {
        match self.init_in_progress {
            Some(state) => Some(state.patterns()),
            None => None,
        }
    }

    /// Well-formedness: a well-formed vocabulary and, while training goes on,
    /// a state that training can go on from.
    pub closed spec fn wf(&self) -> bool {
        &&& self.vocabulary.wf()
        &&& match self.patterns() {
            Some(patterns) => trainable(self@, patterns),
            None => true,
        }
    }

    /// What well-formedness says of the tokens and the patterns.
    pub proof fn lemma_wf(&self)
        requires
            self.wf(),
        ensures
            valid_tokens(self@),
            self@.len() <= usize::MAX,
            self.patterns() matches Some(patterns) ==> trainable(self@, patterns),
    {
    }

    /// The vocabulary.
    pub fn vocabulary(&self) -> (vocabulary: &Vocabulary)
        requires
            self.wf(),
        ensures
            vocabulary.wf(),
            vocabulary@ == self@,
    {
        &self.vocabulary
    }

    /// The tokens by id, in id order.
    pub fn ids_to_tokens(&self) -> (map: &IndexMap<TokenId, Token>)
        requires
            self.wf(),
        ensures
            id_token_entries(*map).len() == self@.len(),
            forall|i: int|
                0 <= i < self@.len() ==> #[trigger] id_token_entries(*map)[i] == (
                    TokenId(i as usize),
                    self@[i],
                ),
    {
        self.vocabulary.ids_to_tokens()
    }

    /// The ids by token, in id order.
    pub fn tokens_to_ids(&self) -> (map: &IndexMap<Token, TokenId>)
        requires
            self.wf(),
        ensures
            token_id_entries(*map).len() == self@.len(),
            forall|i: int|
                0 <= i < self@.len() ==> #[trigger] token_id_entries(*map)[i] == (
                    self@[i],
                    TokenId(i as usize),
                ),
    {
        self.vocabulary.tokens_to_ids()
    }

    /// Whether training still goes on.
    pub fn in_progress(&self) -> (b: bool)
        ensures
            b == self.patterns().is_some(),
    {
        self.init_in_progress.is_some()
    }

    /// A trained encoder: training runs until no id pair occurs twice.
    pub fn new(data: &[&[u8]]) -> (bpe: Bpe)
        requires
            256 + total_len(byte_views(data@)) <= usize::MAX,
        ensures
            bpe.wf(),
            bpe.patterns() is None,
            bpe@ == trained(byte_tokens(), initial_patterns(byte_views(data@))),
    {
        let mut bpe = Bpe::new_iterative(data);
        let ghost start = initial_patterns(byte_views(data@));
        while bpe.in_progress()
            invariant
                bpe.wf(),
                match bpe.patterns() {
                    Some(patterns) => trainable(bpe@, patterns) && trained(bpe@, patterns) == trained(
                        byte_tokens(),
                        start,
                    ),
                    None => bpe@ == trained(byte_tokens(), start),
                },
            decreases
                    match bpe.patterns() {
                        Some(patterns) => total_len(patterns) + 1,
                        None => 0,
                    },
        {
            proof {
                lemma_step(bpe@, bpe.patterns()->0);
            }
            bpe.mint_step();
        }
        bpe
    }

    /// An encoder that training has stopped on: at the end of training, or
    /// after as many merges as the options allow, whichever comes first.
    /// Training can go on from there step by step.
    pub fn with_config(data: &[&[u8]], config: Config) -> (bpe: Bpe)
        requires
            256 + total_len(byte_views(data@)) <= usize::MAX,
        ensures
            bpe.wf(),
            match config.max_new_tokens {
                Some(max) => (bpe@, bpe.patterns()) == capped(
                    byte_tokens(),
                    initial_patterns(byte_views(data@)),
                    max as nat,
                ),
                None => bpe.patterns() is None && bpe@ == trained(
                    byte_tokens(),
                    initial_patterns(byte_views(data@)),
                ),
            },
    {
        let mut bpe = Bpe::new_iterative(data);
        let ghost start = initial_patterns(byte_views(data@));
        let mut minted: usize = 0;
        while bpe.in_progress() && !config.reached(minted)
            invariant
                bpe.wf(),
                config.max_new_tokens matches Some(max) ==> minted <= max,
                match bpe.patterns() {
                    Some(patterns) => {
                        &&& trainable(bpe@, patterns)
                        &&& bpe@.len() == 256 + minted
                        &&& trained(bpe@, patterns) == trained(byte_tokens(), start)
                        &&& config.max_new_tokens matches Some(max) ==> capped(
                            bpe@,
                            patterns,
                            (max - minted) as nat,
                        ) == capped(byte_tokens(), start, max as nat)
                    },
                    None => {
                        &&& bpe@ == trained(byte_tokens(), start)
                        &&& config.max_new_tokens matches Some(max) ==> (bpe@, bpe.patterns())
                            == capped(byte_tokens(), start, max as nat)
                    },
                },
            decreases
                    match bpe.patterns() {
                        Some(patterns) => total_len(patterns) + 1,
                        None => 0,
                    },
        {
            proof {
                lemma_step(bpe@, bpe.patterns()->0);
                bpe.vocabulary.lemma_len();
            }
            if bpe.mint_step().is_some() {
                minted = minted + 1;
            }
        }
        bpe
    }

    /// An encoder at the start of training: the vocabulary holds the byte
    /// tokens and the patterns hold one id per byte of each input.
    pub fn new_iterative(data: &[&[u8]]) -> (bpe: Bpe)
        requires
            256 + total_len(byte_views(data@)) <= usize::MAX,
        ensures
            bpe.wf(),
            bpe@ == byte_tokens(),
            bpe.patterns() == Some(initial_patterns(byte_views(data@))),
    {
        let vocabulary = Vocabulary::new();
        let mut patterns: Vec<Vec<TokenId>> = Vec::new();
        let ghost inputs = byte_views(data@);
        let mut i: usize = 0;
        while i < data.len()
            invariant
                vocabulary.wf(),
                vocabulary@ == byte_tokens(),
                inputs == byte_views(data@),
                i <= data@.len(),
                patterns@.len() == i,
                forall|k: int| 0 <= k < i ==> (#[trigger] patterns@[k])@ == ids_of_bytes(inputs[k]),
            decreases data@.len() - i,
        {
            let pattern = vocabulary.encode(data[i]);
            proof {
                lemma_encoded_bytes(inputs[i as int]);
            }
            patterns.push(pattern);
            i = i + 1;
        }
        proof {
            assert(pattern_views(patterns@) =~= initial_patterns(inputs));
            lemma_initial_patterns(inputs);
        }
        Bpe { vocabulary, init_in_progress: Some(InitInProgress { patterns }) }
    }

    /// One training step, if training goes on: the most common adjacent id
    /// pair of the patterns is minted as a new token, the new id is handed to
    /// the callback, and every pattern is rewritten with it. Where no pair
    /// occurs twice, training ends instead.
    pub fn init_step<F: Fn(usize)>(&mut self, new_id_callback: Option<F>)
        requires
            old(self).wf(),
            new_id_callback matches Some(f) ==> forall|id: usize| call_requires(f, (id,)),
        ensures
            final(self).wf(),
            match old(self).patterns() {
                Some(patterns) => match step(old(self)@, patterns) {
                    Some((more_tokens, fewer_ids)) => {
                        &&& final(self)@ == more_tokens
                        &&& final(self).patterns() == Some(fewer_ids)
                        &&& new_id_callback matches Some(f) ==> call_ensures(
                            f,
                            (old(self)@.len() as usize,),
                            (),
                        )
                    },
                    None => final(self)@ == old(self)@ && final(self).patterns() is None,
                },
                None => final(self)@ == old(self)@ && final(self).patterns() is None,
            },
    {
        if let Some(new_id) = self.mint_step() {
            if let Some(ref f) = new_id_callback {
                f(new_id.0);
            }
        }
    }

    /// One training step without a callback; returns the id that was minted.
    pub fn mint_step(&mut self) -> (minted: Option<TokenId>)
        requires
            old(self).wf(),
        ensures
            final(self).wf(),
            match old(self).patterns() {
                Some(patterns) => match step(old(self)@, patterns) {
                    Some((more_tokens, fewer_ids)) => {
                        &&& final(self)@ == more_tokens
                        &&& final(self).patterns() == Some(fewer_ids)
                        &&& minted == Some(TokenId(old(self)@.len() as usize))
                    },
                    None => final(self)@ == old(self)@ && final(self).patterns() is None && minted
                        is None,
                },
                None => final(self)@ == old(self)@ && final(self).patterns() is None && minted
                    is None,
            },
    {
        let ghost tokens = self@;
        if let Some(mut init_in_progress) = self.init_in_progress.take() {
            let ghost before = init_in_progress.patterns();
            proof {
                lemma_step(tokens, before);
            }
            if let Some(((id0, id1), _count)) = find_most_common_duplicate_id_pair(
                &init_in_progress.patterns,
            ) {
                proof {
                    lemma_counted_windows(before, (id0, id1));
                    let (p, k) = choose|p: int, k: int|
                        0 <= p < before.len() && 0 <= k < before[p].len() - 1 && #[trigger] window(
                            before[p],
                            k,
                        ) == (id0, id1);
                    assert(all_known(tokens, before[p]));
                    assert(known(tokens, before[p][k]) && known(tokens, before[p][k + 1]));
                    assert(!is_merged(tokens, before[p][k], before[p][k + 1]));
                }
                let new_id = self.vocabulary.mint(id0, id1);
                let ghost target = rewritten(before, id0, id1, new_id);
                let mut rewritten_patterns: Vec<Vec<TokenId>> = Vec::new();
                let mut i: usize = 0;
                while i < init_in_progress.patterns.len()
                    invariant
                        before == pattern_views(init_in_progress.patterns@),
                        target == rewritten(before, id0, id1, new_id),
                        i <= init_in_progress.patterns@.len(),
                        rewritten_patterns@.len() == i,
                        forall|k: int| 0 <= k < i ==> (#[trigger] rewritten_patterns@[k])@ == target[k],
                    decreases init_in_progress.patterns@.len() - i,
                {
                    let pattern = merge(&init_in_progress.patterns[i], id0, id1, new_id);
                    rewritten_patterns.push(pattern);
                    i = i + 1;
                }
                proof {
                    assert(pattern_views(rewritten_patterns@) =~= target);
                }
                init_in_progress.patterns = rewritten_patterns;
                self.init_in_progress = Some(init_in_progress);
                return Some(new_id);
            }
        }
        None
    }

    /// Encodes bytes: one id per byte, then greedy condensation under the
    /// merges learned so far.
    pub fn encode(&self, data: &[u8]) -> (ids: Vec<TokenId>)
        requires
            self.wf(),
        ensures
            ids@ == encoded(self@, data@),
            all_known(self@, ids@),
    {
        self.vocabulary.encode(data)
    }

    /// Decodes ids to the bytes they stand for. Fails on the first id that
    /// the vocabulary does not have.
    pub fn decode(&self, data: Vec<TokenId>) -> (r: Result<Vec<u8>, DecodeError>)
        requires
            self.wf(),
        ensures
            match r {
                Ok(bytes) => all_known(self@, data@) && bytes@ == decoded(self@, data@),
                Err(DecodeError::UnknownId(id)) => exists|i: int|
                    0 <= i < data@.len() && #[trigger] data@[i] == id && !known(self@, id) && all_known(
                        self@,
                        data@.take(i),
                    ),
            },
    {
        self.vocabulary.decode(data)
    }
}

/// Under the byte tokens alone, encoding gives one id per byte.
pub proof fn lemma_encoded_bytes(bytes: Seq<u8>)
    ensures
        encoded(byte_tokens(), bytes) == ids_of_bytes(bytes),
{
    let rule = vocabulary_rule(byte_tokens());
    let ids = ids_of_bytes(bytes);
    assert forall|a: TokenId, b: TokenId| (#[trigger] rule(a, b)) is None by {
        if is_merged(byte_tokens(), a, b) {
            let i = choose|i: int|
                0 <= i < byte_tokens().len() && #[trigger] byte_tokens()[i] == Token::Merge(a, b);
        }
    }
    lemma_pass_identity(rule, ids);
}

/// A rule that merges nothing leaves a sequence as it is.
pub proof fn lemma_fold_identity(rule: Rule, current: TokenId, rest: Seq<TokenId>)
    requires
        forall|a: TokenId, b: TokenId| (#[trigger] rule(a, b)) is None,
    ensures
        fold_from(rule, current, rest) == seq![current] + rest,
    decreases rest.len(),
{
    if rest.len() > 0 {
        assert(rule(current, rest[0]) is None);
        lemma_fold_identity(rule, rest[0], rest.drop_first());
        assert(seq![current] + (seq![rest[0]] + rest.drop_first()) =~= seq![current] + rest);
    } else {
        assert(seq![current] + rest =~= seq![current]);
    }
}

/// A rule that merges nothing leaves a sequence as it is.
pub proof fn lemma_pass_identity(rule: Rule, ids: Seq<TokenId>)
    requires
        forall|a: TokenId, b: TokenId| (#[trigger] rule(a, b)) is None,
    ensures
        merge_pass(rule, ids) == ids,
        crate::recode::condensed(rule, ids) == ids,
{
    if ids.len() > 0 {
        lemma_fold_identity(rule, ids[0], ids.drop_first());
        assert(seq![ids[0]] + ids.drop_first() =~= ids);
    } else {
        assert(merge_pass(rule, ids) =~= ids);
    }
}

} // verus!
