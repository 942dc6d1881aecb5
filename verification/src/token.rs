//! Tokens, token ids and the model of a vocabulary.

use vstd::prelude::*;

verus! {

/// A dense token id: the position of a token in the vocabulary.
#[derive(Clone, Copy, Debug, PartialEq, Eq, Hash, Structural)]
pub struct TokenId(pub usize);

/// A token is either a single byte or the concatenation of two earlier tokens.
#[derive(Clone, Copy, Debug, PartialEq, Eq, Hash, Structural)]
pub enum Token {
    Byte(u8),
    Merge(TokenId, TokenId),
}

/// An adjacent pair of token ids.
pub type IdPair = (TokenId, TokenId);

/// The byte tokens, in id order: what a vocabulary holds before any merge.
pub open spec fn byte_tokens() -> Seq<Token> {
    Seq::new(256, |i: int| Token::Byte(i as u8))
}

/// `id` names a token of `tokens`.
pub open spec fn known(tokens: Seq<Token>, id: TokenId) -> bool {
    id.0 < tokens.len()
}

/// Every id of `ids` names a token of `tokens`.
pub open spec fn all_known(tokens: Seq<Token>, ids: Seq<TokenId>) -> bool {
    forall|i: int| 0 <= i < ids.len() ==> known(tokens, #[trigger] ids[i])
}

/// Validity of a token list read as a vocabulary (position = id):
/// the first 256 entries are the bytes in order, every later entry is a merge
/// of two strictly earlier ids, and no token occurs twice.
pub open spec fn valid_tokens(tokens: Seq<Token>) -> bool {
    &&& tokens.len() >= 256
    &&& forall|i: int| 0 <= i < 256 ==> #[trigger] tokens[i] == Token::Byte(i as u8)
    &&& forall|i: int|
        256 <= i < tokens.len() ==> match #[trigger] tokens[i] {
            Token::Byte(_) => false,
            Token::Merge(left, right) => left.0 < i && right.0 < i,
        }
    &&& forall|i: int, j: int|
        0 <= i < j < tokens.len() ==> #[trigger] tokens[i] != #[trigger] tokens[j]
}

/// `token` is the merge of `left` and `right` somewhere in `tokens`.
pub open spec fn is_merged(tokens: Seq<Token>, left: TokenId, right: TokenId) -> bool {
    exists|i: int| 0 <= i < tokens.len() && #[trigger] tokens[i] == Token::Merge(left, right)
}

/// The id that `tokens` gives to the merge of `left` and `right`, if it has one.
pub open spec fn merge_lookup(tokens: Seq<Token>, left: TokenId, right: TokenId) -> Option<
    TokenId,
> {
    if is_merged(tokens, left, right) {
        let i = choose|i: int| 0 <= i < tokens.len() && #[trigger] tokens[i] == Token::Merge(left, right);
        Some(TokenId(i as usize))
    } else {
        None
    }
}

/// The byte ids that `id` stands for: a byte token stands for itself, a merge
/// for what its left child stands for followed by what its right child stands for.
pub open spec fn leaves(tokens: Seq<Token>, id: TokenId) -> Seq<TokenId>
    decreases id.0,
{
    if id.0 < tokens.len() {
        match tokens[id.0 as int] {
            Token::Byte(_) => seq![id],
            Token::Merge(left, right) => if left.0 < id.0 && right.0 < id.0 {
                leaves(tokens, left) + leaves(tokens, right)
            } else {
                Seq::empty()
            },
        }
    } else {
        Seq::empty()
    }
}

/// The byte ids that a sequence of ids stands for, in order.
pub open spec fn expansion(tokens: Seq<Token>, ids: Seq<TokenId>) -> Seq<TokenId>
    decreases ids.len(),
{
    if ids.len() == 0 {
        Seq::empty()
    } else {
        expansion(tokens, ids.drop_last()) + leaves(tokens, ids.last())
    }
}

/// The byte behind a byte id.
pub open spec fn byte_of(tokens: Seq<Token>, id: TokenId) -> u8 {
    match tokens[id.0 as int] {
        Token::Byte(b) => b,
        Token::Merge(_, _) => 0,
    }
}

/// `id` names a byte token of `tokens`.
pub open spec fn is_byte_id(tokens: Seq<Token>, id: TokenId) -> bool {
    known(tokens, id) && tokens[id.0 as int] is Byte
}

/// Every id of `ids` names a byte token.
pub open spec fn all_byte_ids(tokens: Seq<Token>, ids: Seq<TokenId>) -> bool {
    forall|i: int| 0 <= i < ids.len() ==> is_byte_id(tokens, #[trigger] ids[i])
}

/// One id per byte: the id of the byte's own token.
pub open spec fn ids_of_bytes(bytes: Seq<u8>) -> Seq<TokenId> {
    Seq::new(bytes.len(), |i: int| TokenId(bytes[i] as usize))
}

/// One byte per byte id.
pub open spec fn bytes_of_ids(tokens: Seq<Token>, ids: Seq<TokenId>) -> Seq<u8> {
    Seq::new(ids.len(), |i: int| byte_of(tokens, ids[i]))
}

} // verus!
