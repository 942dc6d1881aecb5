//! The hash-ordered collections of the `indexmap` and `keyed_priority_queue`
//! crates, as this library sees them.
//!
//! Verus does not read those crates. Each collection type is declared here as
//! an opaque type, its contents get a name, and every method that the library
//! calls gets a small function whose contract restates the method's
//! documentation over that name. Nothing in this file is proved: the contracts
//! are taken on trust. Keys are compared by their derived, field-wise equality.

use crate::token::IdPair;
use crate::token::Token;
use crate::token::TokenId;
use indexmap::IndexMap;
use indexmap::IndexSet;
use keyed_priority_queue::KeyedPriorityQueue;
use std::hash::BuildHasher;
use std::hash::Hash;
use vstd::prelude::*;

verus! {

/// `indexmap::IndexMap`, opaque to the verifier.
#[verifier::external_type_specification]
#[verifier::external_body]
#[verifier::reject_recursive_types(K)]
#[verifier::reject_recursive_types(V)]
#[verifier::reject_recursive_types(S)]
pub struct ExIndexMap<K, V, S>(IndexMap<K, V, S>);

/// `indexmap::IndexSet`, opaque to the verifier.
#[verifier::external_type_specification]
#[verifier::external_body]
#[verifier::reject_recursive_types(T)]
#[verifier::reject_recursive_types(S)]
pub struct ExIndexSet<T, S>(IndexSet<T, S>);

/// `keyed_priority_queue::KeyedPriorityQueue`, opaque to the verifier.
#[verifier::external_type_specification]
#[verifier::external_body]
#[verifier::reject_recursive_types(TKey)]
#[verifier::reject_recursive_types(TPriority)]
#[verifier::reject_recursive_types(S)]
pub struct ExKeyedPriorityQueue<TKey: Hash + Eq, TPriority: Ord, S: BuildHasher>(
    KeyedPriorityQueue<TKey, TPriority, S>,
);

// ---------------------------------------------------------------------------
// How an ordered map's entries change
// ---------------------------------------------------------------------------

/// Some entry of `entries` is stored under `key`.
pub open spec fn has_key<K, V>(entries: Seq<(K, V)>, key: K) -> bool {
    exists|i: int| 0 <= i < entries.len() && (#[trigger] entries[i]).0 == key
}

/// No two entries share a key.
pub open spec fn distinct_keys<K, V>(entries: Seq<(K, V)>) -> bool {
    forall|i: int, j: int|
        0 <= i < j < entries.len() ==> (#[trigger] entries[i]).0 != (#[trigger] entries[j]).0
}

/// `r` is what a lookup of `key` in `entries` gives.
pub open spec fn looked_up<K, V>(entries: Seq<(K, V)>, key: K, r: Option<V>) -> bool {
    match r {
        Some(v) => exists|i: int| 0 <= i < entries.len() && #[trigger] entries[i] == (key, v),
        None => !has_key(entries, key),
    }
}

/// Inserting `value` under `key` turns `before` into `after` and gives `r`:
/// an entry under `key` keeps its place and has its value replaced, the old
/// value being returned; otherwise the new entry goes last.
pub open spec fn inserted<K, V>(
    before: Seq<(K, V)>,
    after: Seq<(K, V)>,
    key: K,
    value: V,
    r: Option<V>,
) -> bool {
    match r {
        Some(v) => exists|i: int|
            0 <= i < before.len() && #[trigger] before[i] == (key, v) && after == before.update(
                i,
                (key, value),
            ),
        None => !has_key(before, key) && after == before.push((key, value)),
    }
}

/// Removing `key` by swapping turns `before` into `after` and gives `r`: the
/// entry under `key` is overwritten by the last entry, which is then dropped.
pub open spec fn swap_removed<K, V>(
    before: Seq<(K, V)>,
    after: Seq<(K, V)>,
    key: K,
    r: Option<V>,
) -> bool {
    match r {
        Some(v) => exists|i: int|
            0 <= i < before.len() && #[trigger] before[i] == (key, v) && after == before.update(
                i,
                before.last(),
            ).drop_last(),
        None => !has_key(before, key) && after == before,
    }
}

// ---------------------------------------------------------------------------
// Token id -> token
// ---------------------------------------------------------------------------

/// The entries of a map from token ids to tokens, in iteration order.
pub uninterp spec fn id_token_entries(m: IndexMap<TokenId, Token>) -> Seq<(TokenId, Token)>;

/// `IndexMap::new`: a map without entries.
#[verifier::external_body]
pub(crate) fn id_tokens_new() -> (m: IndexMap<TokenId, Token>)
    ensures
        id_token_entries(m).len() == 0,
{
    IndexMap::new()
}

/// `IndexMap::len`: the number of entries.
#[verifier::external_body]
pub(crate) fn id_tokens_len(m: &IndexMap<TokenId, Token>) -> (n: usize)
    ensures
        n == id_token_entries(*m).len(),
{
    m.len()
}

/// `IndexMap::get`: the token stored under `id`, if any.
#[verifier::external_body]
pub(crate) fn id_tokens_get(m: &IndexMap<TokenId, Token>, id: TokenId) -> (r: Option<Token>)
    ensures
        looked_up(id_token_entries(*m), id, r),
{
    m.get(&id).copied()
}

/// `IndexMap::insert`: replaces the token under `id` in place, or appends a
/// new entry; returns the replaced token.
#[verifier::external_body]
pub(crate) fn id_tokens_insert(m: &mut IndexMap<TokenId, Token>, id: TokenId, token: Token) -> (r:
    Option<Token>)
    ensures
        inserted(id_token_entries(*old(m)), id_token_entries(*final(m)), id, token, r),
{
    m.insert(id, token)
}

// ---------------------------------------------------------------------------
// Token -> token id
// ---------------------------------------------------------------------------

/// The entries of a map from tokens to token ids, in iteration order.
pub uninterp spec fn token_id_entries(m: IndexMap<Token, TokenId>) -> Seq<(Token, TokenId)>;

/// `IndexMap::new`: a map without entries.
#[verifier::external_body]
pub(crate) fn token_ids_new() -> (m: IndexMap<Token, TokenId>)
    ensures
        token_id_entries(m).len() == 0,
{
    IndexMap::new()
}

/// `IndexMap::get`: the id stored under `token`, if any.
#[verifier::external_body]
pub(crate) fn token_ids_get(m: &IndexMap<Token, TokenId>, token: Token) -> (r: Option<TokenId>)
    ensures
        looked_up(token_id_entries(*m), token, r),
{
    m.get(&token).copied()
}

/// `IndexMap::insert`: replaces the id under `token` in place, or appends a
/// new entry; returns the replaced id.
#[verifier::external_body]
pub(crate) fn token_ids_insert(m: &mut IndexMap<Token, TokenId>, token: Token, id: TokenId) -> (r:
    Option<TokenId>)
    ensures
        inserted(token_id_entries(*old(m)), token_id_entries(*final(m)), token, id, r),
{
    m.insert(token, id)
}

// ---------------------------------------------------------------------------
// Id pair -> count
// ---------------------------------------------------------------------------

/// The entries of a map from id pairs to counts, in iteration order.
pub uninterp spec fn count_entries(m: IndexMap<IdPair, usize>) -> Seq<(IdPair, usize)>;

/// `IndexMap::new`: a map without entries.
#[verifier::external_body]
pub(crate) fn counts_new() -> (m: IndexMap<IdPair, usize>)
    ensures
        count_entries(m).len() == 0,
{
    IndexMap::new()
}

/// `IndexMap::len`: the number of entries.
#[verifier::external_body]
pub(crate) fn counts_len(m: &IndexMap<IdPair, usize>) -> (n: usize)
    ensures
        n == count_entries(*m).len(),
{
    m.len()
}

/// `IndexMap::get`: the count stored under `key`, if any.
#[verifier::external_body]
pub(crate) fn counts_get(m: &IndexMap<IdPair, usize>, key: IdPair) -> (r: Option<usize>)
    ensures
        looked_up(count_entries(*m), key, r),
{
    m.get(&key).copied()
}

/// `IndexMap::insert`: replaces the count under `key` in place, or appends a
/// new entry; returns the replaced count.
#[verifier::external_body]
pub(crate) fn counts_insert(m: &mut IndexMap<IdPair, usize>, key: IdPair, count: usize) -> (r:
    Option<usize>)
    ensures
        inserted(count_entries(*old(m)), count_entries(*final(m)), key, count, r),
{
    m.insert(key, count)
}

/// `IndexMap::get_index`: the entry at a position of the iteration order.
#[verifier::external_body]
pub(crate) fn counts_entry_at(m: &IndexMap<IdPair, usize>, index: usize) -> (r: Option<
    (IdPair, usize),
>)
    ensures
        r == (if index < count_entries(*m).len() {
            Some(count_entries(*m)[index as int])
        } else {
            None
        }),
{
    m.get_index(index).map(|(key, count)| (*key, *count))
}

// ---------------------------------------------------------------------------
// Sets of positions
// ---------------------------------------------------------------------------

/// The items of a set of positions, in iteration order.
pub uninterp spec fn set_items(s: IndexSet<usize>) -> Seq<usize>;

/// The items of `a` followed by the items of `b` that `a` does not hold: what
/// inserting the items of `b` one by one gives.
pub open spec fn items_appended(a: Seq<usize>, b: Seq<usize>) -> Seq<usize>
    decreases b.len(),
{
    if b.len() == 0 {
        a
    } else {
        let front = items_appended(a, b.drop_last());
        if front.contains(b.last()) {
            front
        } else {
            front.push(b.last())
        }
    }
}

/// `IndexSet::new`: a set without items.
#[verifier::external_body]
pub(crate) fn set_new() -> (s: IndexSet<usize>)
    ensures
        set_items(s).len() == 0,
{
    IndexSet::new()
}

/// `IndexSet::len`: the number of items.
#[verifier::external_body]
pub(crate) fn set_len(s: &IndexSet<usize>) -> (n: usize)
    ensures
        n == set_items(*s).len(),
{
    s.len()
}

/// `IndexSet::insert`: an item that is not there yet goes last and `true` is
/// returned; otherwise nothing changes.
#[verifier::external_body]
pub(crate) fn set_insert(s: &mut IndexSet<usize>, value: usize) -> (r: bool)
    ensures
        r == !set_items(*old(s)).contains(value),
        set_items(*final(s)) == (if r {
            set_items(*old(s)).push(value)
        } else {
            set_items(*old(s))
        }),
{
    s.insert(value)
}

/// `IndexSet::swap_remove`: an item that is there is overwritten by the last
/// item, which is then dropped, and `true` is returned.
#[verifier::external_body]
pub(crate) fn set_swap_remove(s: &mut IndexSet<usize>, value: usize) -> (r: bool)
    ensures
        r == set_items(*old(s)).contains(value),
        r ==> exists|i: int|
            0 <= i < set_items(*old(s)).len() && #[trigger] set_items(*old(s))[i] == value
                && set_items(*final(s)) == set_items(*old(s)).update(
                i,
                set_items(*old(s)).last(),
            ).drop_last(),
        !r ==> set_items(*final(s)) == set_items(*old(s)),
{
    s.swap_remove(&value)
}

/// `IndexSet::get_index`: the item at a position of the iteration order.
#[verifier::external_body]
pub(crate) fn set_item_at(s: &IndexSet<usize>, index: usize) -> (r: Option<usize>)
    ensures
        r == (if index < set_items(*s).len() {
            Some(set_items(*s)[index as int])
        } else {
            None
        }),
{
    s.get_index(index).copied()
}

/// `IndexSet::append`: moves the items of `other` into `s`, in order, leaving
/// out those that `s` holds already; `other` is left empty.
#[verifier::external_body]
pub(crate) fn set_append(s: &mut IndexSet<usize>, other: &mut IndexSet<usize>)
    ensures
        set_items(*final(s)) == items_appended(set_items(*old(s)), set_items(*old(other))),
        set_items(*final(other)).len() == 0,
{
    s.append(other)
}

// ---------------------------------------------------------------------------
// Id pair -> set of positions
// ---------------------------------------------------------------------------

/// The entries of a map from id pairs to sets of positions, in iteration
/// order, each set by its items.
pub uninterp spec fn location_entries(m: IndexMap<IdPair, IndexSet<usize>>) -> Seq<
    (IdPair, Seq<usize>),
>;

/// The items of the set, if there is one.
pub open spec fn items_of(set: Option<IndexSet<usize>>) -> Option<Seq<usize>> {
    match set {
        Some(s) => Some(set_items(s)),
        None => None,
    }
}

/// `IndexMap::new`: a map without entries.
#[verifier::external_body]
pub(crate) fn locations_new() -> (m: IndexMap<IdPair, IndexSet<usize>>)
    ensures
        location_entries(m).len() == 0,
{
    IndexMap::new()
}

/// `IndexMap::len`: the number of entries.
#[verifier::external_body]
pub(crate) fn locations_len(m: &IndexMap<IdPair, IndexSet<usize>>) -> (n: usize)
    ensures
        n == location_entries(*m).len(),
{
    m.len()
}

/// `IndexMap::get_index_of`: the position of the entry under `key`, if any.
#[verifier::external_body]
pub(crate) fn locations_index_of(m: &IndexMap<IdPair, IndexSet<usize>>, key: IdPair) -> (r: Option<
    usize,
>)
    ensures
        match r {
            Some(i) => i < location_entries(*m).len() && location_entries(*m)[i as int].0 == key,
            None => !has_key(location_entries(*m), key),
        },
{
    m.get_index_of(&key)
}

/// `IndexMap::get_index`: the key and the set at a position of the iteration order.
#[verifier::external_body]
pub(crate) fn locations_entry_at(m: &IndexMap<IdPair, IndexSet<usize>>, index: usize) -> (r:
    Option<(IdPair, &IndexSet<usize>)>)
    ensures
        match r {
            Some((key, set)) => index < location_entries(*m).len() && location_entries(
                *m,
            )[index as int] == (key, set_items(*set)),
            None => index >= location_entries(*m).len(),
        },
{
    m.get_index(index).map(|(key, set)| (*key, set))
}

/// `IndexMap::index_mut` by position: the set at a position of the iteration
/// order, for change in place.
#[verifier::external_body]
pub(crate) fn locations_set_at_mut(m: &mut IndexMap<IdPair, IndexSet<usize>>, index: usize) -> (r:
    &mut IndexSet<usize>)
    requires
        index < location_entries(*old(m)).len(),
    ensures
        set_items(*r) == location_entries(*old(m))[index as int].1,
        location_entries(*final(m)) == location_entries(*old(m)).update(
            index as int,
            (location_entries(*old(m))[index as int].0, set_items(*final(r))),
        ),
{
    &mut m[index]
}

/// `IndexMap::insert`: replaces the set under `key` in place, or appends a
/// new entry; returns the replaced set.
#[verifier::external_body]
pub(crate) fn locations_insert(
    m: &mut IndexMap<IdPair, IndexSet<usize>>,
    key: IdPair,
    set: IndexSet<usize>,
) -> (r: Option<IndexSet<usize>>)
    ensures
        inserted(
            location_entries(*old(m)),
            location_entries(*final(m)),
            key,
            set_items(set),
            items_of(r),
        ),
{
    m.insert(key, set)
}

/// `IndexMap::swap_remove`: the entry under `key` is overwritten by the last
/// entry, which is then dropped; returns the removed set.
#[verifier::external_body]
pub(crate) fn locations_swap_remove(m: &mut IndexMap<IdPair, IndexSet<usize>>, key: IdPair) -> (r:
    Option<IndexSet<usize>>)
    ensures
        swap_removed(location_entries(*old(m)), location_entries(*final(m)), key, items_of(r)),
{
    m.swap_remove(&key)
}

// ---------------------------------------------------------------------------
// Priority queue of id pairs
// ---------------------------------------------------------------------------

/// The priority of each key of a queue.
pub uninterp spec fn priorities(q: KeyedPriorityQueue<IdPair, usize>) -> Map<IdPair, usize>;

/// The priority under `key`, if the key is there.
pub open spec fn priority_of(p: Map<IdPair, usize>, key: IdPair) -> Option<usize> {
    if p.contains_key(key) {
        Some(p[key])
    } else {
        None
    }
}

/// `KeyedPriorityQueue::new`: a queue without keys.
#[verifier::external_body]
pub(crate) fn queue_new() -> (q: KeyedPriorityQueue<IdPair, usize>)
    ensures
        forall|key: IdPair| !priorities(q).contains_key(key),
{
    KeyedPriorityQueue::new()
}

/// `KeyedPriorityQueue::get_priority`: the priority under `key`, if any.
#[verifier::external_body]
pub(crate) fn queue_get(q: &KeyedPriorityQueue<IdPair, usize>, key: IdPair) -> (r: Option<usize>)
    ensures
        r == priority_of(priorities(*q), key),
{
    q.get_priority(&key).copied()
}

/// `KeyedPriorityQueue::push`: sets the priority under `key`, adding the key
/// where it is missing; returns the priority it had.
#[verifier::external_body]
pub(crate) fn queue_push(q: &mut KeyedPriorityQueue<IdPair, usize>, key: IdPair, priority: usize) -> (r:
    Option<usize>)
    ensures
        r == priority_of(priorities(*old(q)), key),
        priorities(*final(q)) == priorities(*old(q)).insert(key, priority),
{
    q.push(key, priority)
}

/// `KeyedPriorityQueue::remove`: removes `key`; returns the priority it had.
#[verifier::external_body]
pub(crate) fn queue_remove(q: &mut KeyedPriorityQueue<IdPair, usize>, key: IdPair) -> (r: Option<
    usize,
>)
    ensures
        r == priority_of(priorities(*old(q)), key),
        priorities(*final(q)) == priorities(*old(q)).remove(key),
{
    q.remove(&key)
}

/// `KeyedPriorityQueue::pop`: removes and returns a key of the largest
/// priority, with that priority; `None` where the queue has no key. Which of
/// several keys of the largest priority leaves is not said.
#[verifier::external_body]
pub(crate) fn queue_pop(q: &mut KeyedPriorityQueue<IdPair, usize>) -> (r: Option<(IdPair, usize)>)
    ensures
        match r {
            Some((key, priority)) => {
                &&& priority_of(priorities(*old(q)), key) == Some(priority)
                &&& forall|other: IdPair|
                    priorities(*old(q)).contains_key(other) ==> #[trigger] priorities(*old(q))[other]
                        <= priority
                &&& priorities(*final(q)) == priorities(*old(q)).remove(key)
            },
            None => {
                &&& forall|key: IdPair| !priorities(*old(q)).contains_key(key)
                &&& priorities(*final(q)) == priorities(*old(q))
            },
        },
{
    q.pop()
}

} // verus!
