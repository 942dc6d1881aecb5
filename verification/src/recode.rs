//! Recoding between bytes and token ids: one id per byte, greedy
//! condensation under a set of merges, expansion back to byte ids, and bytes
//! from byte ids.

use crate::token::all_byte_ids;
use crate::token::all_known;
use crate::token::byte_of;
use crate::token::bytes_of_ids;
use crate::token::expansion;
use crate::token::ids_of_bytes;
use crate::token::is_byte_id;
use crate::token::known;
use crate::token::leaves;
use crate::token::merge_lookup;
use crate::token::valid_tokens;
use crate::token::Token;
use crate::token::TokenId;
use crate::vocabulary::Vocabulary;
use vstd::prelude::*;

verus! {

/// Why a sequence of ids could not be decoded.
#[derive(Clone, Copy, Debug, PartialEq, Eq, Structural)]
pub enum DecodeError {
    /// The id is not in the vocabulary.
    UnknownId(TokenId),
}

/// A merge rule: the id that replaces an adjacent pair, where there is one.
pub type Rule = spec_fn(TokenId, TokenId) -> Option<TokenId>;

/// The rule that replaces exactly the pair `(left, right)` by `merged`.
pub open spec fn pair_rule(left: TokenId, right: TokenId, merged: TokenId) -> Rule {
    |a: TokenId, b: TokenId|
        if a == left && b == right {
            Some(merged)
        } else {
            None
        }
}

/// The rule that replaces every pair that `tokens` has a merge for.
pub open spec fn vocabulary_rule(tokens: Seq<Token>) -> Rule {
    |a: TokenId, b: TokenId| merge_lookup(tokens, a, b)
}

/// The rest of a left-to-right scan that holds `current` and has `rest` still
/// to its right: `current` is folded with its right neighbour for as long as
/// the rule merges them, then emitted, and the scan goes on from the neighbour.
pub open spec fn fold_from(rule: Rule, current: TokenId, rest: Seq<TokenId>) -> Seq<TokenId>
    decreases rest.len(),
{
    if rest.len() == 0 {
        seq![current]
    } else {
        match rule(current, rest[0]) {
            Some(merged) => fold_from(rule, merged, rest.drop_first()),
            None => seq![current] + fold_from(rule, rest[0], rest.drop_first()),
        }
    }
}

/// One left-to-right scan over `ids` under `rule`.
pub open spec fn merge_pass(rule: Rule, ids: Seq<TokenId>) -> Seq<TokenId> {
    if ids.len() == 0 {
        Seq::empty()
    } else {
        fold_from(rule, ids[0], ids.drop_first())
    }
}

/// Scans repeated until one leaves the length unchanged.
pub open spec fn condensed(rule: Rule, ids: Seq<TokenId>) -> Seq<TokenId>
    decreases ids.len(),
{
    let pass = merge_pass(rule, ids);
    if pass.len() < ids.len() {
        condensed(rule, pass)
    } else {
        pass
    }
}

/// What encoding `bytes` under `tokens` gives.
pub open spec fn encoded(tokens: Seq<Token>, bytes: Seq<u8>) -> Seq<TokenId> {
    condensed(vocabulary_rule(tokens), ids_of_bytes(bytes))
}

/// What decoding `ids` under `tokens` gives, where every id is known.
pub open spec fn decoded(tokens: Seq<Token>, ids: Seq<TokenId>) -> Seq<u8> {
    bytes_of_ids(tokens, expansion(tokens, ids))
}

/// Every merge that `rule` makes is a token of `tokens`.
pub open spec fn rule_within(rule: Rule, tokens: Seq<Token>) -> bool {
    forall|a: TokenId, b: TokenId|
        (#[trigger] rule(a, b)) is Some ==> {
            let merged = rule(a, b)->0;
            known(tokens, merged) && tokens[merged.0 as int] == Token::Merge(a, b)
        }
}

// ---------------------------------------------------------------------------
// Facts about scans and expansions
// ---------------------------------------------------------------------------

/// A scan never lengthens the sequence.
pub proof fn lemma_fold_len(rule: Rule, current: TokenId, rest: Seq<TokenId>)
    ensures
        1 <= fold_from(rule, current, rest).len() <= rest.len() + 1,
    decreases rest.len(),
{
    if rest.len() > 0 {
        match rule(current, rest[0]) {
            Some(merged) => lemma_fold_len(rule, merged, rest.drop_first()),
            None => lemma_fold_len(rule, rest[0], rest.drop_first()),
        }
    }
}

/// A scan never lengthens the sequence.
pub proof fn lemma_pass_len(rule: Rule, ids: Seq<TokenId>)
    ensures
        merge_pass(rule, ids).len() <= ids.len(),
{
    if ids.len() > 0 {
        lemma_fold_len(rule, ids[0], ids.drop_first());
    }
}

/// The expansion of a concatenation is the concatenation of the expansions.
pub proof fn lemma_expansion_concat(tokens: Seq<Token>, a: Seq<TokenId>, b: Seq<TokenId>)
    ensures
        expansion(tokens, a + b) == expansion(tokens, a) + expansion(tokens, b),
    decreases b.len(),
{
    if b.len() == 0 {
        assert(a + b =~= a);
        assert(expansion(tokens, a) + expansion(tokens, b) =~= expansion(tokens, a));
    } else {
        assert((a + b).drop_last() =~= a + b.drop_last());
        assert((a + b).last() == b.last());
        lemma_expansion_concat(tokens, a, b.drop_last());
        assert(expansion(tokens, a + b) =~= expansion(tokens, a) + expansion(tokens, b));
    }
}

/// The expansion of a single id is what the id stands for.
pub proof fn lemma_expansion_single(tokens: Seq<Token>, id: TokenId)
    ensures
        expansion(tokens, seq![id]) == leaves(tokens, id),
{
    let s = seq![id];
    assert(s.drop_last() =~= Seq::<TokenId>::empty());
    assert(expansion(tokens, s.drop_last()) =~= Seq::<TokenId>::empty());
    assert(s.last() == id);
    assert(expansion(tokens, s) =~= leaves(tokens, id));
}

/// The expansion of a sequence starts with what its first id stands for.
pub proof fn lemma_expansion_front(tokens: Seq<Token>, ids: Seq<TokenId>)
    requires
        ids.len() > 0,
    ensures
        expansion(tokens, ids) == leaves(tokens, ids[0]) + expansion(tokens, ids.drop_first()),
{
    assert(ids =~= seq![ids[0]] + ids.drop_first());
    lemma_expansion_concat(tokens, seq![ids[0]], ids.drop_first());
    lemma_expansion_single(tokens, ids[0]);
}

/// A scan under merges of the vocabulary keeps what the sequence stands for.
pub proof fn lemma_fold_expansion(
    tokens: Seq<Token>,
    rule: Rule,
    current: TokenId,
    rest: Seq<TokenId>,
)
    requires
        valid_tokens(tokens),
        rule_within(rule, tokens),
    ensures
        expansion(tokens, fold_from(rule, current, rest)) == leaves(tokens, current) + expansion(
            tokens,
            rest,
        ),
    decreases rest.len(),
{
    if rest.len() == 0 {
        lemma_expansion_single(tokens, current);
        assert(expansion(tokens, rest) =~= Seq::<TokenId>::empty());
        assert(leaves(tokens, current) + expansion(tokens, rest) =~= leaves(tokens, current));
    } else {
        lemma_expansion_front(tokens, rest);
        match rule(current, rest[0]) {
            Some(merged) => {
                lemma_fold_expansion(tokens, rule, merged, rest.drop_first());
                assert(tokens[merged.0 as int] == Token::Merge(current, rest[0]));
                assert(leaves(tokens, merged) == leaves(tokens, current) + leaves(tokens, rest[0]));
                assert(leaves(tokens, merged) + expansion(tokens, rest.drop_first()) =~= leaves(
                    tokens,
                    current,
                ) + expansion(tokens, rest));
            },
            None => {
                lemma_fold_expansion(tokens, rule, rest[0], rest.drop_first());
                lemma_expansion_concat(
                    tokens,
                    seq![current],
                    fold_from(rule, rest[0], rest.drop_first()),
                );
                lemma_expansion_single(tokens, current);
            },
        }
    }
}

/// A scan under merges of the vocabulary keeps what the sequence stands for.
pub proof fn lemma_pass_expansion(tokens: Seq<Token>, rule: Rule, ids: Seq<TokenId>)
    requires
        valid_tokens(tokens),
        rule_within(rule, tokens),
    ensures
        expansion(tokens, merge_pass(rule, ids)) == expansion(tokens, ids),
{
    if ids.len() > 0 {
        lemma_fold_expansion(tokens, rule, ids[0], ids.drop_first());
        lemma_expansion_front(tokens, ids);
    }
}

/// A scan of known ids under merges of the vocabulary gives known ids.
pub proof fn lemma_fold_known(tokens: Seq<Token>, rule: Rule, current: TokenId, rest: Seq<TokenId>)
    requires
        rule_within(rule, tokens),
        known(tokens, current),
        all_known(tokens, rest),
    ensures
        all_known(tokens, fold_from(rule, current, rest)),
    decreases rest.len(),
{
    if rest.len() > 0 {
        assert(known(tokens, rest[0]));
        assert forall|i: int| 0 <= i < rest.drop_first().len() implies known(
            tokens,
            #[trigger] rest.drop_first()[i],
        ) by {
            assert(rest.drop_first()[i] == rest[i + 1]);
        }
        match rule(current, rest[0]) {
            Some(merged) => lemma_fold_known(tokens, rule, merged, rest.drop_first()),
            None => lemma_fold_known(tokens, rule, rest[0], rest.drop_first()),
        }
    }
}

/// A scan of known ids under merges of the vocabulary gives known ids.
pub proof fn lemma_pass_known(tokens: Seq<Token>, rule: Rule, ids: Seq<TokenId>)
    requires
        rule_within(rule, tokens),
        all_known(tokens, ids),
    ensures
        all_known(tokens, merge_pass(rule, ids)),
{
    if ids.len() > 0 {
        assert(known(tokens, ids[0]));
        assert forall|i: int| 0 <= i < ids.drop_first().len() implies known(
            tokens,
            #[trigger] ids.drop_first()[i],
        ) by {
            assert(ids.drop_first()[i] == ids[i + 1]);
        }
        lemma_fold_known(tokens, rule, ids[0], ids.drop_first());
    }
}

/// Condensing known ids under merges of the vocabulary gives known ids that
/// stand for the same byte ids.
pub proof fn lemma_condensed(tokens: Seq<Token>, rule: Rule, ids: Seq<TokenId>)
    requires
        valid_tokens(tokens),
        rule_within(rule, tokens),
        all_known(tokens, ids),
    ensures
        all_known(tokens, condensed(rule, ids)),
        expansion(tokens, condensed(rule, ids)) == expansion(tokens, ids),
        condensed(rule, ids).len() <= ids.len(),
    decreases ids.len(),
{
    let pass = merge_pass(rule, ids);
    lemma_pass_len(rule, ids);
    lemma_pass_known(tokens, rule, ids);
    lemma_pass_expansion(tokens, rule, ids);
    if pass.len() < ids.len() {
        lemma_condensed(tokens, rule, pass);
    }
}

/// The merges of a valid vocabulary are tokens of it.
pub proof fn lemma_vocabulary_rule(tokens: Seq<Token>)
    requires
        valid_tokens(tokens),
        tokens.len() <= usize::MAX,
    ensures
        rule_within(vocabulary_rule(tokens), tokens),
{
    let rule = vocabulary_rule(tokens);
    assert forall|a: TokenId, b: TokenId| (#[trigger] rule(a, b)) is Some implies {
        let merged = rule(a, b)->0;
        known(tokens, merged) && tokens[merged.0 as int] == Token::Merge(a, b)
    } by {
        if merge_lookup(tokens, a, b) is Some {
            let i = choose|i: int| 0 <= i < tokens.len() && #[trigger] tokens[i] == Token::Merge(a, b);
            assert(merge_lookup(tokens, a, b) == Some(TokenId(i as usize)));
        }
    }
}

/// The ids of bytes are byte ids that stand for themselves.
pub proof fn lemma_ids_of_bytes(tokens: Seq<Token>, bytes: Seq<u8>)
    requires
        valid_tokens(tokens),
    ensures
        all_known(tokens, ids_of_bytes(bytes)),
        all_byte_ids(tokens, ids_of_bytes(bytes)),
        expansion(tokens, ids_of_bytes(bytes)) == ids_of_bytes(bytes),
        bytes_of_ids(tokens, ids_of_bytes(bytes)) == bytes,
    decreases bytes.len(),
{
    let ids = ids_of_bytes(bytes);
    assert forall|i: int| 0 <= i < ids.len() implies is_byte_id(tokens, #[trigger] ids[i]) && byte_of(
        tokens,
        ids[i],
    ) == bytes[i] by {
        assert(tokens[bytes[i] as int] == Token::Byte(bytes[i] as int as u8));
    }
    assert(bytes_of_ids(tokens, ids) =~= bytes);
    if bytes.len() == 0 {
        assert(expansion(tokens, ids) =~= ids);
    } else {
        lemma_ids_of_bytes(tokens, bytes.drop_last());
        assert(ids.drop_last() =~= ids_of_bytes(bytes.drop_last()));
        assert(is_byte_id(tokens, ids.last()));
        assert(leaves(tokens, ids.last()) =~= seq![ids.last()]);
        assert(expansion(tokens, ids) =~= ids);
    }
}

/// What an id stands for is a sequence of byte ids.
pub proof fn lemma_leaves_are_bytes(tokens: Seq<Token>, id: TokenId)
    requires
        valid_tokens(tokens),
        known(tokens, id),
    ensures
        all_byte_ids(tokens, leaves(tokens, id)),
        leaves(tokens, id).len() >= 1,
    decreases id.0,
{
    match tokens[id.0 as int] {
        Token::Byte(_) => {},
        Token::Merge(left, right) => {
            assert(left.0 < id.0 && right.0 < id.0) by {
                if id.0 < 256 {
                    assert(tokens[id.0 as int] == Token::Byte(id.0 as u8));
                }
            }
            lemma_leaves_are_bytes(tokens, left);
            lemma_leaves_are_bytes(tokens, right);
        },
    }
}

/// What known ids stand for is a sequence of byte ids.
pub proof fn lemma_expansion_is_bytes(tokens: Seq<Token>, ids: Seq<TokenId>)
    requires
        valid_tokens(tokens),
        all_known(tokens, ids),
    ensures
        all_byte_ids(tokens, expansion(tokens, ids)),
    decreases ids.len(),
{
    if ids.len() > 0 {
        assert forall|i: int| 0 <= i < ids.drop_last().len() implies known(
            tokens,
            #[trigger] ids.drop_last()[i],
        ) by {
            assert(ids.drop_last()[i] == ids[i]);
        }
        lemma_expansion_is_bytes(tokens, ids.drop_last());
        assert(known(tokens, ids.last()));
        lemma_leaves_are_bytes(tokens, ids.last());
    }
}

/// Round trip: decoding what encoding gave returns the bytes that were encoded.
pub proof fn lemma_round_trip(tokens: Seq<Token>, bytes: Seq<u8>)
    requires
        valid_tokens(tokens),
        tokens.len() <= usize::MAX,
    ensures
        all_known(tokens, encoded(tokens, bytes)),
        decoded(tokens, encoded(tokens, bytes)) == bytes,
{
    lemma_ids_of_bytes(tokens, bytes);
    lemma_vocabulary_rule(tokens);
    lemma_condensed(tokens, vocabulary_rule(tokens), ids_of_bytes(bytes));
}

// ---------------------------------------------------------------------------
// The recode primitives
// ---------------------------------------------------------------------------

/// One id per byte.
pub fn to_ids(bytes: &[u8], vocabulary: &Vocabulary) -> (ids: Vec<TokenId>)
    requires
        vocabulary.wf(),
    ensures
        ids@ == ids_of_bytes(bytes@),
{
    let mut ids: Vec<TokenId> = Vec::new();
    let n = bytes.len();
    let mut i: usize = 0;
    while i < n
        invariant
            vocabulary.wf(),
            n == bytes@.len(),
            i <= n,
            ids@.len() == i,
            forall|k: int| 0 <= k < i ==> #[trigger] ids@[k] == TokenId(bytes@[k] as usize),
        decreases n - i,
    {
        ids.push(vocabulary.id_of_byte(bytes[i]));
        i = i + 1;
    }
    assert(ids@ =~= ids_of_bytes(bytes@));
    ids
}

/// One left-to-right scan that replaces each occurrence of the pair
/// `(left, right)` by `merged`; an occurrence that shares an id with the one
/// replaced just before it is left alone.
pub fn merge(ids: &Vec<TokenId>, left: TokenId, right: TokenId, merged: TokenId) -> (out: Vec<TokenId>)
    ensures
        out@ == merge_pass(pair_rule(left, right, merged), ids@),
{
    let ghost rule = pair_rule(left, right, merged);
    let mut out: Vec<TokenId> = Vec::new();
    let n = ids.len();
    if n == 0 {
        return out;
    }
    let mut current = ids[0];
    let mut i: usize = 1;
    assert(ids@.subrange(1, n as int) =~= ids@.drop_first());
    while i < n
        invariant
            n == ids@.len(),
            1 <= i <= n,
            rule == pair_rule(left, right, merged),
            out@ + fold_from(rule, current, ids@.subrange(i as int, n as int)) == merge_pass(
                rule,
                ids@,
            ),
        decreases n - i,
    {
        let next = ids[i];
        let ghost rest = ids@.subrange(i as int, n as int);
        assert(rest[0] == next);
        assert(rest.drop_first() =~= ids@.subrange(i + 1, n as int));
        if current == left && next == right {
            current = merged;
        } else {
            assert(out@.push(current) + fold_from(rule, next, rest.drop_first()) =~= out@ + (
                seq![current] + fold_from(rule, next, rest.drop_first())));
            out.push(current);
            current = next;
        }
        i = i + 1;
    }
    assert(out@.push(current) =~= out@ + fold_from(rule, current, ids@.subrange(i as int, n as int)));
    out.push(current);
    out
}

/// One left-to-right scan that folds each id with its right neighbour for as
/// long as the vocabulary has a merge for the two.
pub fn merge_known(ids: &Vec<TokenId>, vocabulary: &Vocabulary) -> (out: Vec<TokenId>)
    requires
        vocabulary.wf(),
    ensures
        out@ == merge_pass(vocabulary_rule(vocabulary@), ids@),
{
    let ghost rule = vocabulary_rule(vocabulary@);
    let mut out: Vec<TokenId> = Vec::new();
    let n = ids.len();
    if n == 0 {
        return out;
    }
    let mut current = ids[0];
    let mut i: usize = 1;
    assert(ids@.subrange(1, n as int) =~= ids@.drop_first());
    while i < n
        invariant
            vocabulary.wf(),
            n == ids@.len(),
            1 <= i <= n,
            rule == vocabulary_rule(vocabulary@),
            out@ + fold_from(rule, current, ids@.subrange(i as int, n as int)) == merge_pass(
                rule,
                ids@,
            ),
        decreases n - i,
    {
        let next = ids[i];
        let ghost rest = ids@.subrange(i as int, n as int);
        assert(rest[0] == next);
        assert(rest.drop_first() =~= ids@.subrange(i + 1, n as int));
        match vocabulary.lookup_merge(current, next) {
            Some(merged) => {
                current = merged;
            },
            None => {
                assert(out@.push(current) + fold_from(rule, next, rest.drop_first()) =~= out@ + (
                    seq![current] + fold_from(rule, next, rest.drop_first())));
                out.push(current);
                current = next;
            },
        }
        i = i + 1;
    }
    assert(out@.push(current) =~= out@ + fold_from(rule, current, ids@.subrange(i as int, n as int)));
    out.push(current);
    out
}

/// Greedy condensation: left-to-right scans under the merges of the
/// vocabulary, repeated until a scan merges nothing.
pub fn condense(ids: Vec<TokenId>, vocabulary: &Vocabulary) -> (out: Vec<TokenId>)
    requires
        vocabulary.wf(),
    ensures
        out@ == condensed(vocabulary_rule(vocabulary@), ids@),
{
    let ghost rule = vocabulary_rule(vocabulary@);
    let mut current = ids;
    loop
        invariant
            vocabulary.wf(),
            rule == vocabulary_rule(vocabulary@),
            condensed(rule, current@) == condensed(rule, ids@),
        decreases current@.len(),
    {
        let pass = merge_known(&current, vocabulary);
        if pass.len() < current.len() {
            current = pass;
        } else {
            return pass;
        }
    }
}

/// Number of tokens in the tree under `id`.
pub open spec fn weight(tokens: Seq<Token>, id: TokenId) -> nat
    decreases id.0,
{
    if id.0 < tokens.len() {
        match tokens[id.0 as int] {
            Token::Byte(_) => 1,
            Token::Merge(left, right) => if left.0 < id.0 && right.0 < id.0 {
                1 + weight(tokens, left) + weight(tokens, right)
            } else {
                1
            },
        }
    } else {
        1
    }
}

/// Number of tokens in the trees under the ids of `pending`.
pub open spec fn pending_weight(tokens: Seq<Token>, pending: Seq<TokenId>) -> nat
    decreases pending.len(),
{
    if pending.len() == 0 {
        0
    } else {
        weight(tokens, pending.last()) + pending_weight(tokens, pending.drop_last())
    }
}

/// What a stack of pending ids stands for, read from its top.
pub open spec fn pending_leaves(tokens: Seq<Token>, pending: Seq<TokenId>) -> Seq<TokenId>
    decreases pending.len(),
{
    if pending.len() == 0 {
        Seq::empty()
    } else {
        leaves(tokens, pending.last()) + pending_leaves(tokens, pending.drop_last())
    }
}

/// Expands every merge id into its two children until only byte ids remain.
/// Fails on the first id that the vocabulary does not have.
pub fn expand(ids: Vec<TokenId>, vocabulary: &Vocabulary) -> (r: Result<Vec<TokenId>, DecodeError>)
    requires
        vocabulary.wf(),
    ensures
        match r {
            Ok(out) => all_known(vocabulary@, ids@) && out@ == expansion(vocabulary@, ids@),
            Err(DecodeError::UnknownId(id)) => exists|i: int|
                0 <= i < ids@.len() && #[trigger] ids@[i] == id && !known(vocabulary@, id)
                    && all_known(vocabulary@, ids@.take(i)),
        },
{
    let ghost tokens = vocabulary@;
    let n = ids.len();
    let size = vocabulary.len();
    let mut pending: Vec<TokenId> = Vec::new();
    let mut k: usize = n;
    // The first unknown id, if there is one, ends the call.
    let mut i: usize = 0;
    while i < n
        invariant
            vocabulary.wf(),
            tokens == vocabulary@,
            size == tokens.len(),
            n == ids@.len(),
            i <= n,
            all_known(tokens, ids@.take(i as int)),
        decreases n - i,
    {
        let id = ids[i];
        if id.0 >= size {
            return Err(DecodeError::UnknownId(id));
        }
        assert forall|j: int| 0 <= j < i + 1 implies known(tokens, #[trigger] ids@.take(i + 1)[j]) by {
            if j < i {
                assert(ids@.take(i as int)[j] == ids@[j]);
            }
        }
        i = i + 1;
    }
    assert(ids@.take(n as int) =~= ids@);
    assert(ids@.subrange(n as int, n as int) =~= Seq::<TokenId>::empty());
    while k > 0
        invariant
            n == ids@.len(),
            k <= n,
            all_known(tokens, ids@),
            all_known(tokens, pending@),
            pending_leaves(tokens, pending@) == expansion(tokens, ids@.subrange(k as int, n as int)),
        decreases k,
    {
        k = k - 1;
        let id = ids[k];
        proof {
            let tail = ids@.subrange(k as int, n as int);
            lemma_expansion_front(tokens, tail);
            assert(tail.drop_first() =~= ids@.subrange(k + 1, n as int));
            assert(pending@.push(id).drop_last() =~= pending@);
            assert(known(tokens, ids@[k as int]));
        }
        pending.push(id);
    }
    assert(ids@.subrange(0, n as int) =~= ids@);
    let mut out: Vec<TokenId> = Vec::new();
    while pending.len() > 0
        invariant
            vocabulary.wf(),
            tokens == vocabulary@,
            all_known(tokens, pending@),
            out@ + pending_leaves(tokens, pending@) == expansion(tokens, ids@),
        decreases pending_weight(tokens, pending@),
    {
        let ghost before = pending@;
        let id = pending.pop().unwrap();
        proof {
            assert(pending@ =~= before.drop_last());
            assert(id == before.last());
            assert(known(tokens, before[before.len() - 1]));
            assert forall|j: int| 0 <= j < pending@.len() implies known(tokens, #[trigger] pending@[j]) by {
                assert(pending@[j] == before[j]);
            }
        }
        match vocabulary.get(id) {
            Some(Token::Merge(left, right)) => {
                proof {
                    assert(left.0 < id.0 && right.0 < id.0) by {
                        if id.0 < 256 {
                            assert(tokens[id.0 as int] == Token::Byte(id.0 as u8));
                        }
                    }
                    let rest = pending@;
                    let one = rest.push(right);
                    let two = one.push(left);
                    assert(two.drop_last() =~= one && two.last() == left);
                    assert(one.drop_last() =~= rest && one.last() == right);
                    assert(pending_leaves(tokens, one) == leaves(tokens, right) + pending_leaves(
                        tokens,
                        rest,
                    ));
                    assert(pending_leaves(tokens, two) == leaves(tokens, left) + pending_leaves(
                        tokens,
                        one,
                    ));
                    assert(leaves(tokens, id) == leaves(tokens, left) + leaves(tokens, right));
                    assert(pending_leaves(tokens, two) =~= leaves(tokens, id) + pending_leaves(
                        tokens,
                        rest,
                    ));
                    assert(pending_weight(tokens, one) == weight(tokens, right) + pending_weight(
                        tokens,
                        rest,
                    ));
                    assert(pending_weight(tokens, two) == weight(tokens, left) + pending_weight(
                        tokens,
                        one,
                    ));
                    assert(weight(tokens, id) == 1 + weight(tokens, left) + weight(tokens, right));
                    assert(pending_weight(tokens, before) == weight(tokens, id) + pending_weight(
                        tokens,
                        rest,
                    ));
                    assert(out@ + pending_leaves(tokens, two) =~= out@ + pending_leaves(tokens, before));
                }
                pending.push(right);
                pending.push(left);
            },
            _ => {
                proof {
                    assert(tokens[id.0 as int] is Byte);
                    assert(leaves(tokens, id) =~= seq![id]);
                    assert(out@.push(id) + pending_leaves(tokens, pending@) =~= out@ + pending_leaves(
                        tokens,
                        before,
                    ));
                }
                out.push(id);
            },
        }
    }
    assert(out@ + pending_leaves(tokens, pending@) =~= out@);
    Ok(out)
}

/// One byte per id. Every id has to name a byte token.
pub fn to_bytes(ids: &Vec<TokenId>, vocabulary: &Vocabulary) -> (bytes: Vec<u8>)
    requires
        vocabulary.wf(),
        all_byte_ids(vocabulary@, ids@),
    ensures
        bytes@ == bytes_of_ids(vocabulary@, ids@),
{
    let mut bytes: Vec<u8> = Vec::new();
    let n = ids.len();
    let mut i: usize = 0;
    while i < n
        invariant
            vocabulary.wf(),
            all_byte_ids(vocabulary@, ids@),
            n == ids@.len(),
            i <= n,
            bytes@.len() == i,
            forall|k: int| 0 <= k < i ==> #[trigger] bytes@[k] == byte_of(vocabulary@, ids@[k]),
        decreases n - i,
    {
        assert(is_byte_id(vocabulary@, ids@[i as int]));
        match vocabulary.get(ids[i]) {
            Some(Token::Byte(byte)) => {
                bytes.push(byte);
            },
            _ => {
                bytes.push(0);
            },
        }
        i = i + 1;
    }
    assert(bytes@ =~= bytes_of_ids(vocabulary@, ids@));
    bytes
}

impl Vocabulary {
    /// Encodes bytes: one id per byte, then greedy condensation.
    pub fn encode(&self, bytes: &[u8]) -> (ids: Vec<TokenId>)
        requires
            self.wf(),
        ensures
            ids@ == encoded(self@, bytes@),
            all_known(self@, ids@),
    {
        let ids = to_ids(bytes, self);
        proof {
            lemma_round_trip(self@, bytes@);
        }
        condense(ids, self)
    }

    /// Decodes ids to the bytes they stand for. Fails on the first id that
    /// the vocabulary does not have.
    pub fn decode(&self, ids: Vec<TokenId>) -> (r: Result<Vec<u8>, DecodeError>)
        requires
            self.wf(),
        ensures
            match r {
                Ok(bytes) => all_known(self@, ids@) && bytes@ == decoded(self@, ids@),
                Err(DecodeError::UnknownId(id)) => exists|i: int|
                    0 <= i < ids@.len() && #[trigger] ids@[i] == id && !known(self@, id) && all_known(
                        self@,
                        ids@.take(i),
                    ),
            },
    {
        let ghost given = ids@;
        match expand(ids, self) {
            Ok(byte_ids) => {
                proof {
                    lemma_expansion_is_bytes(self@, given);
                }
                Ok(to_bytes(&byte_ids, self))
            },
            Err(e) => Err(e),
        }
    }
}

} // verus!
