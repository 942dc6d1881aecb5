use arb_comp06::re_pair::get_next_id;
use arb_comp06::re_pair::get_prev_id;
use arb_comp06::re_pair::record_id_pairs;
use arb_comp06::re_pair::replace_pair;
use arb_comp06::re_pair::RePair;
use arb_comp06::re_pair::RePairError;
use arb_comp06::re_pair::RePairTraining;
use arb_comp06::recode::DecodeError;
use arb_comp06::token::Token;
use arb_comp06::token::TokenId;
use indexmap::IndexSet;

fn ids(values: &[usize]) -> Vec<TokenId> {
    values.iter().map(|x| TokenId(*x)).collect()
}

const GONE: usize = usize::MAX;

#[test]
fn test_re_pair() {
    let re_pair = RePair::new(&[]).unwrap();
    assert_eq!(
        re_pair.encode(&[0x61, 0x62, 0x63]),
        vec![TokenId(0x61), TokenId(0x62), TokenId(0x63)]
    );
    assert_eq!(
        re_pair.decode(vec![TokenId(0x61), TokenId(0x62), TokenId(0x63)]),
        Ok(vec![0x61, 0x62, 0x63])
    );

    let re_pair = RePair::new(&[&[0x61, 0x62, 0x63], &[0x64, 0x65, 0x66]]).unwrap();
    assert_eq!(
        re_pair.encode(&[0x61, 0x62, 0x63]),
        vec![TokenId(0x61), TokenId(0x62), TokenId(0x63)]
    );
    assert_eq!(
        re_pair.decode(vec![TokenId(0x61), TokenId(0x62), TokenId(0x63)]),
        Ok(vec![0x61, 0x62, 0x63])
    );

    let re_pair = RePair::new(&[
        &[0x61, 0x62, 0x63],
        &[0x64, 0x65, 0x66],
        &[0x61, 0x62, 0x63],
    ])
    .unwrap();
    assert_eq!(re_pair.encode(&[0x61, 0x62, 0x63]), vec![TokenId(257)]);
    assert_eq!(
        re_pair.decode(vec![TokenId(257)]),
        Ok(vec![0x61, 0x62, 0x63])
    );

    let re_pair = RePair::new(&[&[1, 2, 3, 2, 3, 4], &[1, 2, 3, 1, 2, 3]]).unwrap();
    assert_eq!(
        re_pair.encode(&[1, 2, 3, 2, 3, 4]),
        vec![TokenId(257), TokenId(256), TokenId(4)]
    );
    assert_eq!(
        re_pair.decode(vec![TokenId(257), TokenId(256), TokenId(4)]),
        Ok(vec![1, 2, 3, 2, 3, 4])
    );
}

#[test]
fn re_pair_gives_up_on_overlapping_locations() {
    // The index holds the pair (0, 0) at two locations that share a zero.
    // After the first is replaced, the second no longer holds the pair.
    let result = RePair::new(&[&[1, 2, 0, 0, 0, 1, 2, 0, 0, 0, 1, 2]]);
    assert_eq!(result.err(), Some(RePairError::BufferMismatch));
    let result = RePair::new(&[&[5, 5, 5]]);
    assert_eq!(result.err(), Some(RePairError::BufferMismatch));
}

#[test]
fn re_pair_merges_a_run_of_two() {
    let re_pair = RePair::new(&[&[5, 5, 1, 5, 5]]).unwrap();
    assert_eq!(re_pair.vocabulary().len(), 257);
    assert_eq!(
        re_pair.vocabulary().get(TokenId(256)),
        Some(Token::Merge(TokenId(5), TokenId(5)))
    );
    assert_eq!(
        re_pair.encode(&[5, 5, 1, 5, 5]),
        vec![TokenId(256), TokenId(1), TokenId(256)]
    );
}

#[test]
fn re_pair_vocabulary_is_acyclic() {
    let re_pair = RePair::new(&[&[1, 2, 3, 2, 3, 4], &[1, 2, 3, 1, 2, 3]]).unwrap();
    let vocabulary = re_pair.vocabulary();
    assert_eq!(vocabulary.len(), 258);
    assert_eq!(
        vocabulary.get(TokenId(256)),
        Some(Token::Merge(TokenId(2), TokenId(3)))
    );
    assert_eq!(
        vocabulary.get(TokenId(257)),
        Some(Token::Merge(TokenId(1), TokenId(256)))
    );
    for (id, token) in vocabulary.ids_to_tokens().iter() {
        match token {
            Token::Byte(b) => assert_eq!(id.0, *b as usize),
            Token::Merge(left, right) => {
                assert!(left.0 < id.0);
                assert!(right.0 < id.0);
            }
        }
    }
}

#[test]
fn re_pair_round_trip() {
    let re_pair = RePair::new(&[&[1, 2, 3, 2, 3, 4], &[1, 2, 3, 1, 2, 3]]).unwrap();
    let inputs: [&[u8]; 4] = [&[], &[9], &[1, 2, 3, 1, 2, 3], &[3, 2, 1, 2, 3, 4, 4]];
    for input in inputs {
        assert_eq!(re_pair.decode(re_pair.encode(input)), Ok(input.to_vec()));
    }
    assert_eq!(
        re_pair.decode(vec![TokenId(258)]),
        Err(DecodeError::UnknownId(TokenId(258)))
    );
}

#[test]
fn re_pair_steps_one_merge_at_a_time() {
    let mut training = RePairTraining::new(&[&[1, 2, 3, 2, 3, 4], &[1, 2, 3, 1, 2, 3]]);
    assert_eq!(training.step(), Ok(Some(TokenId(256))));
    assert_eq!(training.step(), Ok(Some(TokenId(257))));
    assert_eq!(training.step(), Ok(None));
    let re_pair = training.finish();
    assert_eq!(re_pair.vocabulary().len(), 258);
}

#[test]
fn re_pair_merges_a_given_pair() {
    let mut training = RePairTraining::new(&[&[1, 2, 1, 2, 7]]);
    assert_eq!(
        training.merge_pair(TokenId(1), TokenId(2)),
        Ok(TokenId(256))
    );
    // (2, 7) stands at no location any more: the 2 before the 7 is gone.
    assert_eq!(
        training.merge_pair(TokenId(2), TokenId(7)),
        Err(RePairError::BufferMismatch)
    );
}

#[test]
fn record_id_pairs_lists_each_window() {
    let sets = record_id_pairs(&ids(&[1, 2, 1, 2, 2]));
    let mut lengths = sets.lengths();
    assert_eq!(lengths.next(), Some(((TokenId(1), TokenId(2)), 2)));
    assert_eq!(lengths.next(), Some(((TokenId(2), TokenId(1)), 1)));
    assert_eq!(lengths.next(), Some(((TokenId(2), TokenId(2)), 1)));
    assert_eq!(lengths.next(), None);
    let mut sets = sets;
    let at: Vec<usize> = sets
        .take((TokenId(1), TokenId(2)))
        .unwrap()
        .into_iter()
        .collect();
    assert_eq!(at, vec![0, 2]);
    assert!(record_id_pairs(&ids(&[4])).lengths().next().is_none());
    assert!(record_id_pairs(&ids(&[])).lengths().next().is_none());
}

#[test]
fn neighbours_skip_vacated_slots() {
    let buffer = ids(&[4, GONE, GONE, 5, 6, GONE]);
    assert_eq!(get_next_id(&buffer, 0), Some((TokenId(5), 3)));
    assert_eq!(get_next_id(&buffer, 3), Some((TokenId(6), 4)));
    assert_eq!(get_next_id(&buffer, 4), None);
    assert_eq!(get_next_id(&buffer, 5), None);
    assert_eq!(get_next_id(&buffer, 9), None);
    assert_eq!(get_next_id(&buffer, usize::MAX), None);
    assert_eq!(get_prev_id(&buffer, 0), None);
    assert_eq!(get_prev_id(&buffer, 3), Some((TokenId(4), 0)));
    assert_eq!(get_prev_id(&buffer, 4), Some((TokenId(5), 3)));
    assert_eq!(get_prev_id(&buffer, 9), Some((TokenId(6), 4)));
    assert_eq!(get_prev_id(&ids(&[GONE, GONE]), 2), None);
}

#[test]
fn replace_pair_records_the_changes() {
    let mut buffer = ids(&[1, 2, 3, 2, 3, 4]);
    let locations: IndexSet<usize> = [1, 3].into_iter().collect();
    let (added, removed) =
        replace_pair(TokenId(2), TokenId(3), locations, &mut buffer, TokenId(256)).unwrap();
    assert_eq!(buffer, ids(&[1, 256, GONE, 256, GONE, 4]));

    let mut lengths = added.lengths();
    assert_eq!(lengths.next(), Some(((TokenId(1), TokenId(256)), 1)));
    assert_eq!(lengths.next(), Some(((TokenId(256), TokenId(2)), 1)));
    assert_eq!(lengths.next(), Some(((TokenId(256), TokenId(256)), 1)));
    assert_eq!(lengths.next(), Some(((TokenId(256), TokenId(4)), 1)));
    assert_eq!(lengths.next(), None);

    let mut lengths = removed.lengths();
    assert_eq!(lengths.next(), Some(((TokenId(1), TokenId(2)), 1)));
    assert_eq!(lengths.next(), Some(((TokenId(3), TokenId(2)), 1)));
    assert_eq!(lengths.next(), Some(((TokenId(256), TokenId(2)), 1)));
    assert_eq!(lengths.next(), Some(((TokenId(3), TokenId(4)), 1)));
    assert_eq!(lengths.next(), None);
}

#[test]
fn replace_pair_checks_each_location() {
    let locations: IndexSet<usize> = [0].into_iter().collect();
    let mut buffer = ids(&[1, 2, 3]);
    assert_eq!(
        replace_pair(TokenId(9), TokenId(2), locations.clone(), &mut buffer, TokenId(256)).err(),
        Some(RePairError::BufferMismatch)
    );
    let mut buffer = ids(&[1, 2, 3]);
    assert_eq!(
        replace_pair(TokenId(1), TokenId(9), locations.clone(), &mut buffer, TokenId(256)).err(),
        Some(RePairError::BufferMismatch)
    );
    let mut buffer = ids(&[1]);
    assert_eq!(
        replace_pair(TokenId(1), TokenId(2), locations, &mut buffer, TokenId(256)).err(),
        Some(RePairError::BufferMismatch)
    );
    let locations: IndexSet<usize> = [7].into_iter().collect();
    let mut buffer = ids(&[1, 2, 3]);
    assert_eq!(
        replace_pair(TokenId(1), TokenId(2), locations, &mut buffer, TokenId(256)).err(),
        Some(RePairError::BufferMismatch)
    );
    let locations: IndexSet<usize> = IndexSet::new();
    let mut buffer = ids(&[1, 2, 3]);
    assert!(replace_pair(TokenId(1), TokenId(2), locations, &mut buffer, TokenId(256)).is_ok());
    assert_eq!(buffer, ids(&[1, 2, 3]));
}
