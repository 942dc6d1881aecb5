use arb_comp06::bpe::Bpe;
use arb_comp06::recode::DecodeError;
use arb_comp06::token::Token;
use arb_comp06::token::TokenId;
use std::cell::RefCell;

#[test]
fn test_bpe() {
    let bpe = Bpe::new(&[]);
    assert_eq!(
        bpe.encode(&[0x61, 0x62, 0x63]),
        vec![TokenId(0x61), TokenId(0x62), TokenId(0x63)]
    );
    assert_eq!(
        bpe.decode(vec![TokenId(0x61), TokenId(0x62), TokenId(0x63)]),
        Ok(vec![0x61, 0x62, 0x63])
    );

    let bpe = Bpe::new(&[&[0x61, 0x62, 0x63], &[0x64, 0x65, 0x66]]);
    assert_eq!(
        bpe.encode(&[0x61, 0x62, 0x63]),
        vec![TokenId(0x61), TokenId(0x62), TokenId(0x63)]
    );
    assert_eq!(
        bpe.decode(vec![TokenId(0x61), TokenId(0x62), TokenId(0x63)]),
        Ok(vec![0x61, 0x62, 0x63])
    );

    let bpe = Bpe::new(&[
        &[0x61, 0x62, 0x63],
        &[0x64, 0x65, 0x66],
        &[0x61, 0x62, 0x63],
    ]);
    assert_eq!(bpe.encode(&[0x61, 0x62, 0x63]), vec![TokenId(257)]);
    assert_eq!(bpe.decode(vec![TokenId(257)]), Ok(vec![0x61, 0x62, 0x63]));

    let bpe = Bpe::new(&[&[1, 2, 3, 2, 3, 4], &[1, 2, 3, 1, 2, 3]]);
    assert_eq!(
        bpe.encode(&[1, 2, 3, 2, 3, 4]),
        vec![TokenId(257), TokenId(256), TokenId(4)]
    );
    assert_eq!(
        bpe.decode(vec![TokenId(257), TokenId(256), TokenId(4)]),
        Ok(vec![1, 2, 3, 2, 3, 4])
    );
}

#[test]
fn bpe_without_inputs_keeps_the_bytes() {
    let bpe = Bpe::new(&[]);
    assert!(!bpe.in_progress());
    assert_eq!(bpe.ids_to_tokens().len(), 256);
    assert_eq!(bpe.tokens_to_ids().len(), 256);
    assert_eq!(bpe.ids_to_tokens()[&TokenId(0x61)], Token::Byte(0x61));
    assert_eq!(bpe.tokens_to_ids()[&Token::Byte(0xff)], TokenId(255));
}

#[test]
fn bpe_mints_the_merges_in_order() {
    let bpe = Bpe::new(&[
        &[0x61, 0x62, 0x63],
        &[0x64, 0x65, 0x66],
        &[0x61, 0x62, 0x63],
    ]);
    assert_eq!(bpe.ids_to_tokens().len(), 258);
    assert_eq!(
        bpe.ids_to_tokens()[&TokenId(256)],
        Token::Merge(TokenId(97), TokenId(98))
    );
    assert_eq!(
        bpe.ids_to_tokens()[&TokenId(257)],
        Token::Merge(TokenId(256), TokenId(99))
    );
    assert_eq!(
        bpe.tokens_to_ids()[&Token::Merge(TokenId(256), TokenId(99))],
        TokenId(257)
    );
    let order: Vec<TokenId> = bpe.ids_to_tokens().keys().copied().collect();
    assert_eq!(order[256], TokenId(256));
    assert_eq!(order[257], TokenId(257));
}

#[test]
fn bpe_vocabulary_is_acyclic() {
    let bpe = Bpe::new(&[&[1, 2, 3, 2, 3, 4], &[1, 2, 3, 1, 2, 3]]);
    assert_eq!(
        bpe.ids_to_tokens()[&TokenId(256)],
        Token::Merge(TokenId(2), TokenId(3))
    );
    assert_eq!(
        bpe.ids_to_tokens()[&TokenId(257)],
        Token::Merge(TokenId(1), TokenId(256))
    );
    for (id, token) in bpe.ids_to_tokens().iter() {
        match token {
            Token::Byte(b) => assert_eq!(id.0, *b as usize),
            Token::Merge(left, right) => {
                assert!(left.0 < id.0);
                assert!(right.0 < id.0);
            }
        }
    }
}

#[test]
fn bpe_steps_report_each_new_id_once() {
    let seen: RefCell<Vec<usize>> = RefCell::new(Vec::new());
    let mut bpe = Bpe::new_iterative(&[&[1, 2, 3, 2, 3, 4], &[1, 2, 3, 1, 2, 3]]);
    assert!(bpe.in_progress());
    assert_eq!(bpe.ids_to_tokens().len(), 256);

    bpe.init_step(Some(|id: usize| seen.borrow_mut().push(id)));
    assert!(bpe.in_progress());
    assert_eq!(*seen.borrow(), vec![256]);
    assert_eq!(bpe.ids_to_tokens().len(), 257);

    bpe.init_step(Some(|id: usize| seen.borrow_mut().push(id)));
    assert!(bpe.in_progress());
    assert_eq!(*seen.borrow(), vec![256, 257]);

    bpe.init_step(Some(|id: usize| seen.borrow_mut().push(id)));
    assert!(!bpe.in_progress());
    assert_eq!(*seen.borrow(), vec![256, 257]);
    assert_eq!(bpe.ids_to_tokens().len(), 258);

    bpe.init_step(Some(|id: usize| seen.borrow_mut().push(id)));
    assert!(!bpe.in_progress());
    assert_eq!(*seen.borrow(), vec![256, 257]);
}

#[test]
fn bpe_step_without_callback() {
    let mut bpe = Bpe::new_iterative(&[&[7, 7, 7, 7, 7]]);
    bpe.init_step(None::<fn(usize)>);
    assert_eq!(
        bpe.ids_to_tokens()[&TokenId(256)],
        Token::Merge(TokenId(7), TokenId(7))
    );
    assert_eq!(bpe.mint_step(), None);
    assert!(!bpe.in_progress());
    assert_eq!(bpe.ids_to_tokens().len(), 257);
    assert_eq!(
        bpe.encode(&[7, 7, 7, 7, 7]),
        vec![TokenId(256), TokenId(256), TokenId(7)]
    );
}

#[test]
fn bpe_counts_runs_without_overlap() {
    // Three sevens hold one counted pair only: nothing occurs twice.
    let bpe = Bpe::new(&[&[7, 7, 7]]);
    assert_eq!(bpe.ids_to_tokens().len(), 256);
    // Four sevens hold two.
    let bpe = Bpe::new(&[&[7, 7, 7, 7]]);
    assert_eq!(bpe.ids_to_tokens().len(), 257);
}

#[test]
fn bpe_first_seen_pair_wins_a_tie() {
    let mut bpe = Bpe::new_iterative(&[&[5, 6, 9, 8, 7, 5, 6, 1, 8, 7]]);
    assert_eq!(bpe.mint_step(), Some(TokenId(256)));
    assert_eq!(
        bpe.ids_to_tokens()[&TokenId(256)],
        Token::Merge(TokenId(5), TokenId(6))
    );
    assert_eq!(bpe.mint_step(), Some(TokenId(257)));
    assert_eq!(
        bpe.ids_to_tokens()[&TokenId(257)],
        Token::Merge(TokenId(8), TokenId(7))
    );
}

#[test]
fn bpe_mints_fewer_ids_than_bytes() {
    let inputs: [&[u8]; 3] = [&[1, 2, 1, 2, 1, 2, 1, 2], &[], &[3, 3, 3, 3]];
    let total: usize = inputs.iter().map(|x| x.len()).sum();
    let mut bpe = Bpe::new_iterative(&inputs);
    let mut minted = 0;
    while bpe.in_progress() {
        if bpe.mint_step().is_some() {
            minted += 1;
        }
    }
    assert_eq!(minted, 3);
    assert!(minted <= total - 1);
    assert_eq!(bpe.ids_to_tokens().len(), 256 + minted);
}

#[test]
fn bpe_round_trip() {
    let bpe = Bpe::new(&[&[1, 2, 3, 2, 3, 4], &[1, 2, 3, 1, 2, 3]]);
    let inputs: [&[u8]; 5] = [&[], &[9], &[1, 2, 3, 1, 2, 3], &[3, 2, 1, 2, 3, 4, 4], &[2, 3, 2, 3]];
    for input in inputs {
        assert_eq!(bpe.decode(bpe.encode(input)), Ok(input.to_vec()));
    }
}

#[test]
fn bpe_empty_input_encodes_to_itself() {
    let bpe = Bpe::new(&[&[]]);
    assert_eq!(bpe.encode(&[]), vec![]);
    assert_eq!(bpe.decode(vec![]), Ok(vec![]));
    assert_eq!(bpe.ids_to_tokens().len(), 256);
}

#[test]
fn bpe_decode_reports_unknown_id() {
    let bpe = Bpe::new(&[&[1, 2, 1, 2]]);
    assert_eq!(bpe.decode(vec![TokenId(256)]), Ok(vec![1, 2]));
    assert_eq!(
        bpe.decode(vec![TokenId(1), TokenId(300), TokenId(257)]),
        Err(DecodeError::UnknownId(TokenId(300)))
    );
    assert_eq!(
        bpe.decode(vec![TokenId(usize::MAX)]),
        Err(DecodeError::UnknownId(TokenId(usize::MAX)))
    );
}
