use arb_comp06::pairs::find_most_common_duplicate_id_pair;
use arb_comp06::recode::condense;
use arb_comp06::recode::expand;
use arb_comp06::recode::merge;
use arb_comp06::recode::merge_known;
use arb_comp06::recode::to_bytes;
use arb_comp06::recode::to_ids;
use arb_comp06::recode::DecodeError;
use arb_comp06::token::Token;
use arb_comp06::token::TokenId;
use arb_comp06::vocabulary::Vocabulary;

fn ids(values: &[usize]) -> Vec<TokenId> {
    values.iter().map(|x| TokenId(*x)).collect()
}

fn sample() -> Vocabulary {
    // 256 = (2, 3), 257 = (1, 256), 258 = (257, 257)
    let mut vocabulary = Vocabulary::new();
    assert_eq!(vocabulary.mint(TokenId(2), TokenId(3)), TokenId(256));
    assert_eq!(vocabulary.mint(TokenId(1), TokenId(256)), TokenId(257));
    assert_eq!(vocabulary.mint(TokenId(257), TokenId(257)), TokenId(258));
    vocabulary
}

#[test]
fn vocabulary_starts_with_the_bytes() {
    let vocabulary = Vocabulary::new();
    assert_eq!(vocabulary.len(), 256);
    assert_eq!(vocabulary.get(TokenId(0)), Some(Token::Byte(0)));
    assert_eq!(vocabulary.get(TokenId(255)), Some(Token::Byte(255)));
    assert_eq!(vocabulary.get(TokenId(256)), None);
    assert_eq!(vocabulary.id_of_byte(0x41), TokenId(0x41));
    assert_eq!(vocabulary.lookup_merge(TokenId(1), TokenId(2)), None);
}

#[test]
fn vocabulary_mints_dense_ids() {
    let vocabulary = sample();
    assert_eq!(vocabulary.len(), 259);
    assert_eq!(
        vocabulary.get(TokenId(257)),
        Some(Token::Merge(TokenId(1), TokenId(256)))
    );
    assert_eq!(
        vocabulary.lookup_merge(TokenId(1), TokenId(256)),
        Some(TokenId(257))
    );
    assert_eq!(vocabulary.lookup_merge(TokenId(256), TokenId(1)), None);
    assert_eq!(vocabulary.ids_to_tokens().len(), 259);
    assert_eq!(
        vocabulary.tokens_to_ids()[&Token::Merge(TokenId(2), TokenId(3))],
        TokenId(256)
    );
}

#[test]
fn to_ids_gives_one_id_per_byte() {
    let vocabulary = sample();
    assert_eq!(to_ids(&[0, 7, 255], &vocabulary), ids(&[0, 7, 255]));
    assert_eq!(to_ids(&[], &vocabulary), ids(&[]));
}

#[test]
fn merge_replaces_without_overlap() {
    let n = TokenId(300);
    assert_eq!(
        merge(&ids(&[1, 2, 1, 2, 3]), TokenId(1), TokenId(2), n),
        ids(&[300, 300, 3])
    );
    assert_eq!(
        merge(&ids(&[7, 7, 7, 7, 7]), TokenId(7), TokenId(7), n),
        ids(&[300, 300, 7])
    );
    assert_eq!(merge(&ids(&[7]), TokenId(7), TokenId(7), n), ids(&[7]));
    assert_eq!(merge(&ids(&[]), TokenId(7), TokenId(7), n), ids(&[]));
    assert_eq!(
        merge(&ids(&[2, 1, 2]), TokenId(1), TokenId(2), n),
        ids(&[2, 300])
    );
}

#[test]
fn one_scan_folds_to_the_right_only() {
    let vocabulary = sample();
    // (2, 3) folds to 256; the 1 before it was emitted already.
    assert_eq!(
        merge_known(&ids(&[1, 2, 3, 2, 3, 4]), &vocabulary),
        ids(&[1, 256, 256, 4])
    );
    // (1, 256) folds to 257, and 257 folds with the 257 behind it.
    assert_eq!(
        merge_known(&ids(&[1, 256, 257, 9]), &vocabulary),
        ids(&[258, 9])
    );
}

#[test]
fn condense_repeats_the_scan() {
    let vocabulary = sample();
    assert_eq!(
        condense(ids(&[1, 2, 3, 2, 3, 4]), &vocabulary),
        ids(&[257, 256, 4])
    );
    assert_eq!(
        condense(ids(&[1, 2, 3, 1, 2, 3]), &vocabulary),
        ids(&[258])
    );
    assert_eq!(condense(ids(&[3, 2, 1]), &vocabulary), ids(&[3, 2, 1]));
    assert_eq!(condense(ids(&[]), &vocabulary), ids(&[]));
}

#[test]
fn expand_goes_down_to_the_bytes() {
    let vocabulary = sample();
    assert_eq!(
        expand(ids(&[258, 4, 256]), &vocabulary),
        Ok(ids(&[1, 2, 3, 1, 2, 3, 4, 2, 3]))
    );
    assert_eq!(expand(ids(&[]), &vocabulary), Ok(ids(&[])));
    assert_eq!(
        expand(ids(&[256, 259, 400]), &vocabulary),
        Err(DecodeError::UnknownId(TokenId(259)))
    );
}

#[test]
fn to_bytes_reads_the_byte_tokens() {
    let vocabulary = sample();
    assert_eq!(to_bytes(&ids(&[1, 2, 255]), &vocabulary), vec![1, 2, 255]);
    assert_eq!(to_bytes(&ids(&[]), &vocabulary), Vec::<u8>::new());
}

#[test]
fn encode_and_decode_are_inverse() {
    let vocabulary = sample();
    let input: Vec<u8> = vec![1, 2, 3, 1, 2, 3, 9, 2, 3, 1];
    let encoded = vocabulary.encode(&input);
    assert_eq!(encoded, ids(&[258, 9, 256, 1]));
    assert_eq!(vocabulary.decode(encoded), Ok(input));
}

#[test]
fn most_common_pair_counts_over_all_patterns() {
    let patterns = vec![ids(&[1, 2, 3, 2, 3, 4]), ids(&[1, 2, 3, 1, 2, 3])];
    assert_eq!(
        find_most_common_duplicate_id_pair(&patterns),
        Some(((TokenId(2), TokenId(3)), 4))
    );
}

#[test]
fn most_common_pair_needs_two_occurrences() {
    assert_eq!(find_most_common_duplicate_id_pair(&vec![]), None);
    assert_eq!(
        find_most_common_duplicate_id_pair(&vec![ids(&[1, 2, 3]), ids(&[4, 5, 6]), ids(&[])]),
        None
    );
    assert_eq!(
        find_most_common_duplicate_id_pair(&vec![ids(&[9, 9, 9])]),
        None
    );
    assert_eq!(
        find_most_common_duplicate_id_pair(&vec![ids(&[9, 9, 9, 9])]),
        Some(((TokenId(9), TokenId(9)), 2))
    );
}

#[test]
fn most_common_pair_prefers_the_first_seen() {
    let patterns = vec![ids(&[1, 2, 3]), ids(&[4, 5, 6]), ids(&[1, 2, 3])];
    assert_eq!(
        find_most_common_duplicate_id_pair(&patterns),
        Some(((TokenId(1), TokenId(2)), 2))
    );
    let patterns = vec![ids(&[4, 5]), ids(&[1, 2, 4, 5, 1, 2])];
    assert_eq!(
        find_most_common_duplicate_id_pair(&patterns),
        Some(((TokenId(4), TokenId(5)), 2))
    );
}
