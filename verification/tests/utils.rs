use arb_comp06::token::TokenId;
use arb_comp06::utils::add_to_counts;
use arb_comp06::utils::decrease_priorities;
use arb_comp06::utils::increase_priorities;
use arb_comp06::utils::increment;
use arb_comp06::utils::MappedSets;
use arb_comp06::utils::PriorityError;
use indexmap::IndexMap;
use keyed_priority_queue::KeyedPriorityQueue;

fn pair(a: usize, b: usize) -> (TokenId, TokenId) {
    (TokenId(a), TokenId(b))
}

#[test]
fn test_increment() {
    let mut acc = IndexMap::new();
    increment(&mut acc, pair(1, 1));
    assert_eq!(acc[&pair(1, 1)], 1);
    increment(&mut acc, pair(1, 1));
    assert_eq!(acc[&pair(1, 1)], 2);
}

#[test]
fn test_add_to_counts() {
    let mut acc = IndexMap::new();
    add_to_counts(&mut acc, &IndexMap::from([(pair(1, 1), 1), (pair(2, 2), 1)]));
    assert_eq!(acc[&pair(1, 1)], 1);
    assert_eq!(acc[&pair(2, 2)], 1);
    add_to_counts(&mut acc, &IndexMap::from([(pair(1, 1), 1), (pair(2, 2), 1)]));
    assert_eq!(acc[&pair(1, 1)], 2);
    assert_eq!(acc[&pair(2, 2)], 2);
}

#[test]
fn counts_keep_the_order_of_entry() {
    let mut acc = IndexMap::new();
    increment(&mut acc, pair(3, 4));
    increment(&mut acc, pair(1, 2));
    increment(&mut acc, pair(3, 4));
    add_to_counts(
        &mut acc,
        &IndexMap::from([(pair(9, 9), 5), (pair(1, 2), 7)]),
    );
    let entries: Vec<((TokenId, TokenId), usize)> = acc.into_iter().collect();
    assert_eq!(
        entries,
        vec![(pair(3, 4), 2), (pair(1, 2), 8), (pair(9, 9), 5)]
    );
}

fn sets_of(pairs: &[((TokenId, TokenId), usize)]) -> MappedSets {
    MappedSets::from_iter(&pairs.to_vec())
}

fn lengths_of(sets: &MappedSets) -> Vec<((TokenId, TokenId), usize)> {
    let mut lengths = sets.lengths();
    let mut out = Vec::new();
    while let Some(item) = lengths.next() {
        out.push(item);
    }
    out
}

#[test]
fn mapped_sets_collect_positions_by_pair() {
    let mut sets = MappedSets::new();
    assert_eq!(lengths_of(&sets), vec![]);
    sets.insert(pair(1, 2), 0);
    sets.insert(pair(2, 3), 1);
    sets.insert(pair(1, 2), 4);
    sets.insert(pair(1, 2), 0);
    assert_eq!(lengths_of(&sets), vec![(pair(1, 2), 2), (pair(2, 3), 1)]);
    sets.extend(&vec![(pair(2, 3), 7), (pair(5, 5), 8)]);
    assert_eq!(
        lengths_of(&sets),
        vec![(pair(1, 2), 2), (pair(2, 3), 2), (pair(5, 5), 1)]
    );
}

#[test]
fn mapped_sets_take_moves_the_last_entry() {
    let mut sets = sets_of(&[(pair(1, 1), 0), (pair(2, 2), 1), (pair(3, 3), 2), (pair(1, 1), 5)]);
    let taken: Vec<usize> = sets.take(pair(1, 1)).unwrap().into_iter().collect();
    assert_eq!(taken, vec![0, 5]);
    assert_eq!(lengths_of(&sets), vec![(pair(3, 3), 1), (pair(2, 2), 1)]);
    assert!(sets.take(pair(1, 1)).is_none());
    assert_eq!(lengths_of(&sets), vec![(pair(3, 3), 1), (pair(2, 2), 1)]);
}

#[test]
fn mapped_sets_add_and_subtract() {
    let mut sets = sets_of(&[(pair(1, 1), 0), (pair(2, 2), 1), (pair(1, 1), 2)]);
    sets.add_assign(sets_of(&[(pair(2, 2), 1), (pair(2, 2), 9), (pair(4, 4), 3)]));
    assert_eq!(
        lengths_of(&sets),
        vec![(pair(1, 1), 2), (pair(2, 2), 2), (pair(4, 4), 1)]
    );
    sets.sub_assign(sets_of(&[
        (pair(1, 1), 0),
        (pair(1, 1), 2),
        (pair(1, 1), 8),
        (pair(2, 2), 9),
        (pair(7, 7), 0),
    ]));
    // (1, 1) is left empty and leaves; the last entry takes its place.
    assert_eq!(lengths_of(&sets), vec![(pair(4, 4), 1), (pair(2, 2), 1)]);
    let left: Vec<usize> = sets.take(pair(2, 2)).unwrap().into_iter().collect();
    assert_eq!(left, vec![1]);
}

#[test]
fn priorities_rise_by_the_lengths() {
    let mut queue: KeyedPriorityQueue<(TokenId, TokenId), usize> = KeyedPriorityQueue::new();
    let sets = sets_of(&[(pair(1, 1), 0), (pair(2, 2), 1), (pair(1, 1), 2)]);
    increase_priorities(&mut queue, sets.lengths());
    assert_eq!(queue.get_priority(&pair(1, 1)), Some(&2));
    assert_eq!(queue.get_priority(&pair(2, 2)), Some(&1));
    increase_priorities(&mut queue, sets.lengths());
    assert_eq!(queue.get_priority(&pair(1, 1)), Some(&4));
    assert_eq!(queue.get_priority(&pair(2, 2)), Some(&2));
    assert_eq!(queue.len(), 2);
    assert_eq!(queue.pop(), Some((pair(1, 1), 4)));
}

#[test]
fn priorities_fall_by_the_lengths() {
    let mut queue: KeyedPriorityQueue<(TokenId, TokenId), usize> = KeyedPriorityQueue::new();
    queue.push(pair(1, 1), 5);
    queue.push(pair(2, 2), 1);
    let sets = sets_of(&[(pair(1, 1), 0), (pair(2, 2), 1), (pair(1, 1), 2)]);
    assert_eq!(decrease_priorities(&mut queue, sets.lengths()), Ok(()));
    assert_eq!(queue.get_priority(&pair(1, 1)), Some(&3));
    // A priority that reaches zero leaves the queue.
    assert_eq!(queue.get_priority(&pair(2, 2)), None);
    assert_eq!(queue.len(), 1);
}

#[test]
fn overdrawn_priority_is_reported() {
    let mut queue: KeyedPriorityQueue<(TokenId, TokenId), usize> = KeyedPriorityQueue::new();
    queue.push(pair(1, 1), 1);
    queue.push(pair(2, 2), 4);
    let sets = sets_of(&[(pair(2, 2), 1), (pair(1, 1), 0), (pair(1, 1), 2)]);
    assert_eq!(
        decrease_priorities(&mut queue, sets.lengths()),
        Err(PriorityError::Overdrawn)
    );
    assert_eq!(queue.get_priority(&pair(2, 2)), Some(&3));
    assert_eq!(queue.get_priority(&pair(1, 1)), None);
    assert_eq!(PriorityError::Overdrawn.message(), "overdrawn priority");
}

#[test]
fn absent_priority_is_reported() {
    let mut queue: KeyedPriorityQueue<(TokenId, TokenId), usize> = KeyedPriorityQueue::new();
    queue.push(pair(2, 2), 4);
    let sets = sets_of(&[(pair(1, 1), 0), (pair(2, 2), 1)]);
    assert_eq!(
        decrease_priorities(&mut queue, sets.lengths()),
        Err(PriorityError::Absent)
    );
    assert_eq!(queue.get_priority(&pair(2, 2)), Some(&4));
    assert_eq!(
        PriorityError::Absent.message(),
        "decreasing absent priority"
    );
}
