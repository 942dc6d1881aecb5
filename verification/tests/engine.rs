use arb_comp06::bpe::Bpe;
use arb_comp06::engine::Config;
use arb_comp06::engine::Engine;
use arb_comp06::engine::MIN_PAIR_COUNT;
use arb_comp06::re_pair::RePair;
use arb_comp06::token::Token;
use arb_comp06::token::TokenId;

const INPUTS: [&[u8]; 2] = [&[1, 2, 3, 2, 3, 4], &[1, 2, 3, 1, 2, 3]];

fn ids(values: &[usize]) -> Vec<TokenId> {
    values.iter().map(|x| TokenId(*x)).collect()
}

#[test]
fn options_default_to_no_limit() {
    assert_eq!(Config::new().max_new_tokens, None);
    assert!(!Config::new().reached(usize::MAX));
    let config = Config { max_new_tokens: Some(3) };
    assert!(!config.reached(2));
    assert!(config.reached(3));
    assert!(config.reached(4));
    assert_eq!(MIN_PAIR_COUNT, 2);
}

#[test]
fn bpe_stops_at_the_limit() {
    let bpe = Bpe::with_config(&INPUTS, Config { max_new_tokens: Some(0) });
    assert!(bpe.in_progress());
    assert_eq!(bpe.ids_to_tokens().len(), 256);

    let mut bpe = Bpe::with_config(&INPUTS, Config { max_new_tokens: Some(1) });
    assert!(bpe.in_progress());
    assert_eq!(bpe.ids_to_tokens().len(), 257);
    assert_eq!(bpe.encode(&[1, 2, 3, 2, 3, 4]), ids(&[1, 256, 256, 4]));
    // Training can go on from where it stopped.
    assert_eq!(bpe.mint_step(), Some(TokenId(257)));
    assert_eq!(bpe.encode(&[1, 2, 3, 2, 3, 4]), ids(&[257, 256, 4]));

    let bpe = Bpe::with_config(&INPUTS, Config { max_new_tokens: Some(2) });
    assert!(bpe.in_progress());
    assert_eq!(bpe.ids_to_tokens().len(), 258);

    let bpe = Bpe::with_config(&INPUTS, Config { max_new_tokens: Some(9) });
    assert!(!bpe.in_progress());
    assert_eq!(bpe.ids_to_tokens().len(), 258);

    let bpe = Bpe::with_config(&INPUTS, Config::new());
    assert!(!bpe.in_progress());
    assert_eq!(bpe.ids_to_tokens().len(), 258);
}

#[test]
fn re_pair_stops_at_the_limit() {
    let re_pair = RePair::with_config(&INPUTS, Config { max_new_tokens: Some(0) }).unwrap();
    assert_eq!(re_pair.vocabulary().len(), 256);
    let re_pair = RePair::with_config(&INPUTS, Config { max_new_tokens: Some(1) }).unwrap();
    assert_eq!(re_pair.vocabulary().len(), 257);
    assert_eq!(
        re_pair.vocabulary().get(TokenId(256)),
        Some(Token::Merge(TokenId(2), TokenId(3)))
    );
    assert_eq!(re_pair.encode(&[1, 2, 3, 2, 3, 4]), ids(&[1, 256, 256, 4]));
    let re_pair = RePair::with_config(&INPUTS, Config { max_new_tokens: Some(7) }).unwrap();
    assert_eq!(re_pair.vocabulary().len(), 258);
    let re_pair = RePair::with_config(&INPUTS, Config::new()).unwrap();
    assert_eq!(re_pair.vocabulary().len(), 258);
}

#[test]
fn either_engine_encodes_and_decodes() {
    let engines = [
        Engine::Bpe(Bpe::new(&INPUTS)),
        Engine::RePair(RePair::new(&INPUTS).unwrap()),
    ];
    for engine in engines.iter() {
        assert_eq!(engine.vocabulary().len(), 258);
        assert_eq!(engine.encode(&[1, 2, 3, 2, 3, 4]), ids(&[257, 256, 4]));
        assert_eq!(
            engine.decode(ids(&[257, 256, 4])),
            Ok(vec![1, 2, 3, 2, 3, 4])
        );
        let input: Vec<u8> = vec![9, 1, 2, 3, 3, 2];
        assert_eq!(engine.decode(engine.encode(&input)), Ok(input));
    }
}
