//! The vocabulary: a bijection between token ids and tokens that keeps the
//! order in which the tokens were minted.

use crate::collections::id_token_entries;
use crate::collections::id_tokens_get;
use crate::collections::id_tokens_insert;
use crate::collections::id_tokens_len;
use crate::collections::id_tokens_new;
use crate::collections::token_id_entries;
use crate::collections::token_ids_get;
use crate::collections::token_ids_insert;
use crate::collections::token_ids_new;
use crate::token::byte_tokens;
use crate::token::is_merged;
use crate::token::known;
use crate::token::merge_lookup;
use crate::token::valid_tokens;
use crate::token::Token;
use crate::token::TokenId;
use indexmap::IndexMap;
use vstd::prelude::*;

verus! {

/// Tokens by id and ids by token. Ids are dense: the token minted `n`-th has
/// id `n`, and both maps list the tokens in that order.
pub struct Vocabulary {
    ids_to_tokens: IndexMap<TokenId, Token>,
    tokens_to_ids: IndexMap<Token, TokenId>,
}

impl View for Vocabulary {
    type V = Seq<Token>;

    /// The tokens in id order.
    closed spec fn view(&self) -> Seq<Token> {
        Seq::new(
            id_token_entries(self.ids_to_tokens).len(),
            |i: int| id_token_entries(self.ids_to_tokens)[i].1,
        )
    }
}

impl Vocabulary {
    /// Both maps hold the same tokens under the same ids, in id order.
    pub closed spec fn maps_agree(&self) -> bool {
        let by_id = id_token_entries(self.ids_to_tokens);
        let by_token = token_id_entries(self.tokens_to_ids);
        &&& by_id.len() == by_token.len()
        &&& by_id.len() <= usize::MAX
        &&& forall|i: int| 0 <= i < by_id.len() ==> (#[trigger] by_id[i]).0 == TokenId(i as usize)
        &&& forall|i: int|
            0 <= i < by_token.len() ==> #[trigger] by_token[i] == (by_id[i].1, TokenId(i as usize))
    }

    /// Well-formedness: the maps agree and the tokens form a valid vocabulary
    /// whose ids fit the id type.
    pub open spec fn wf(&self) -> bool {
        self.maps_agree() && valid_tokens(self@) && self@.len() <= usize::MAX
    }

    /// In a well-formed vocabulary each map lists entry `i` as token `i` with id `i`.
    proof fn lemma_entries(&self)
        requires
            self.maps_agree(),
        ensures
            id_token_entries(self.ids_to_tokens).len() == self@.len(),
            token_id_entries(self.tokens_to_ids).len() == self@.len(),
            self@.len() <= usize::MAX,
            forall|i: int|
                0 <= i < self@.len() ==> #[trigger] id_token_entries(self.ids_to_tokens)[i] == (
                    TokenId(i as usize),
                    self@[i],
                ),
            forall|i: int|
                0 <= i < self@.len() ==> #[trigger] token_id_entries(self.tokens_to_ids)[i] == (
                    self@[i],
                    TokenId(i as usize),
                ),
    {
    }

    /// The ids of a well-formed vocabulary fit the id type.
    pub proof fn lemma_len(&self)
        requires
            self.wf(),
        ensures
            self@.len() <= usize::MAX,
    {
    }

    /// The vocabulary of the 256 byte tokens.
    pub fn new() -> (vocabulary: Vocabulary)
        ensures
            vocabulary.wf(),
            vocabulary@ == byte_tokens(),
    {
        let mut vocabulary = Vocabulary {
            ids_to_tokens: id_tokens_new(),
            tokens_to_ids: token_ids_new(),
        };
        let mut n: usize = 0;
        while n < 256
            invariant
                n <= 256,
                vocabulary.maps_agree(),
                vocabulary@.len() == n,
                forall|i: int| 0 <= i < n ==> #[trigger] vocabulary@[i] == Token::Byte(i as u8),
            decreases 256 - n,
        {
            let ghost before = vocabulary;
            let id = TokenId(n);
            let token = Token::Byte(n as u8);
            proof {
                before.lemma_entries();
            }
            let replaced_token = id_tokens_insert(&mut vocabulary.ids_to_tokens, id, token);
            let replaced_id = token_ids_insert(&mut vocabulary.tokens_to_ids, token, id);
            proof {
                assert(replaced_token is None) by {
                    if replaced_token is Some {
                        let i = choose|i: int|
                            0 <= i < id_token_entries(before.ids_to_tokens).len()
                                && #[trigger] id_token_entries(before.ids_to_tokens)[i] == (
                                id,
                                replaced_token->0,
                            );
                        assert(id_token_entries(before.ids_to_tokens)[i].0 == TokenId(i as usize));
                    }
                }
                assert(replaced_id is None) by {
                    if replaced_id is Some {
                        let i = choose|i: int|
                            0 <= i < token_id_entries(before.tokens_to_ids).len()
                                && #[trigger] token_id_entries(before.tokens_to_ids)[i] == (
                                token,
                                replaced_id->0,
                            );
                        assert(before@[i] == Token::Byte(i as u8));
                    }
                }
                assert(vocabulary@ =~= before@.push(token));
            }
            n = n + 1;
        }
        proof {
            assert(vocabulary@ =~= byte_tokens());
        }
        vocabulary
    }

    /// Number of tokens.
    pub fn len(&self) -> (n: usize)
        requires
            self.wf(),
        ensures
            n == self@.len(),
            n >= 256,
    {
        id_tokens_len(&self.ids_to_tokens)
    }

    /// The token with this id, if the id is in use.
    pub fn get(&self, id: TokenId) -> (r: Option<Token>)
        requires
            self.wf(),
        ensures
            r == (if known(self@, id) {
                Some(self@[id.0 as int])
            } else {
                None
            }),
    {
        let r = id_tokens_get(&self.ids_to_tokens, id);
        proof {
            self.lemma_entries();
            let entries = id_token_entries(self.ids_to_tokens);
            match r {
                Some(token) => {
                    let i = choose|i: int|
                        0 <= i < entries.len() && #[trigger] entries[i] == (id, token);
                    assert(entries[i] == (TokenId(i as usize), self@[i]));
                },
                None => {
                    if known(self@, id) {
                        assert(entries[id.0 as int].0 == id);
                    }
                },
            }
        }
        r
    }

    /// The id of a byte's own token.
    pub fn id_of_byte(&self, byte: u8) -> (id: TokenId)
        requires
            self.wf(),
        ensures
            id == TokenId(byte as usize),
    {
        let r = token_ids_get(&self.tokens_to_ids, Token::Byte(byte));
        proof {
            self.lemma_entries();
            let entries = token_id_entries(self.tokens_to_ids);
            let token = Token::Byte(byte);
            assert(self@[byte as int] == Token::Byte(byte as int as u8));
            assert(entries[byte as int].0 == token);
            if r is Some {
                let i = choose|i: int| 0 <= i < entries.len() && #[trigger] entries[i] == (token, r->0);
                assert(entries[i] == (self@[i], TokenId(i as usize)));
                if i < byte as int {
                    assert(self@[i] != self@[byte as int]);
                } else if (byte as int) < i {
                    assert(self@[byte as int] != self@[i]);
                }
            }
        }
        match r {
            Some(id) => id,
            None => TokenId(byte as usize),
        }
    }

    /// The id of the merge of `left` and `right`, if the vocabulary has it.
    pub fn lookup_merge(&self, left: TokenId, right: TokenId) -> (r: Option<TokenId>)
        requires
            self.wf(),
        ensures
            r == merge_lookup(self@, left, right),
            r matches Some(id) ==> known(self@, id) && self@[id.0 as int] == Token::Merge(left, right),
    {
        let r = token_ids_get(&self.tokens_to_ids, Token::Merge(left, right));
        proof {
            self.lemma_entries();
            let entries = token_id_entries(self.tokens_to_ids);
            let token = Token::Merge(left, right);
            match r {
                Some(id) => {
                    let i = choose|i: int|
                        0 <= i < entries.len() && #[trigger] entries[i] == (token, id);
                    assert(entries[i] == (self@[i], TokenId(i as usize)));
                    assert(self@[i] == token);
                    let j = choose|j: int| 0 <= j < self@.len() && #[trigger] self@[j] == token;
                    assert(i == j) by {
                        if i < j {
                            assert(self@[i] != self@[j]);
                        } else if j < i {
                            assert(self@[j] != self@[i]);
                        }
                    }
                },
                None => {
                    if is_merged(self@, left, right) {
                        let j = choose|j: int| 0 <= j < self@.len() && #[trigger] self@[j] == token;
                        assert(entries[j].0 == token);
                    }
                },
            }
        }
        r
    }

    /// Mints the next id for the merge of `left` and `right`.
    pub fn mint(&mut self, left: TokenId, right: TokenId) -> (id: TokenId)
        requires
            old(self).wf(),
            known(old(self)@, left),
            known(old(self)@, right),
            !is_merged(old(self)@, left, right),
        ensures
            final(self).wf(),
            final(self)@ == old(self)@.push(Token::Merge(left, right)),
            id == TokenId(old(self)@.len() as usize),
            id.0 < usize::MAX,
    {
        let ghost before = *self;
        let n = id_tokens_len(&self.ids_to_tokens);
        let id = TokenId(n);
        let token = Token::Merge(left, right);
        proof {
            before.lemma_entries();
        }
        let replaced_token = id_tokens_insert(&mut self.ids_to_tokens, id, token);
        let replaced_id = token_ids_insert(&mut self.tokens_to_ids, token, id);
        let after = id_tokens_len(&self.ids_to_tokens);
        proof {
            assert(replaced_token is None) by {
                if replaced_token is Some {
                    let i = choose|i: int|
                        0 <= i < id_token_entries(before.ids_to_tokens).len()
                            && #[trigger] id_token_entries(before.ids_to_tokens)[i] == (
                            id,
                            replaced_token->0,
                        );
                    assert(id_token_entries(before.ids_to_tokens)[i].0 == TokenId(i as usize));
                }
            }
            assert(replaced_id is None) by {
                if replaced_id is Some {
                    let i = choose|i: int|
                        0 <= i < token_id_entries(before.tokens_to_ids).len()
                            && #[trigger] token_id_entries(before.tokens_to_ids)[i] == (
                            token,
                            replaced_id->0,
                        );
                    assert(before@[i] == token);
                }
            }
            assert(self@ =~= before@.push(token));
            assert(valid_tokens(self@)) by {
                assert forall|i: int, j: int| 0 <= i < j < self@.len() implies #[trigger] self@[i]
                    != #[trigger] self@[j] by {
                    if j == before@.len() {
                        assert(before@[i] == self@[i]);
                    } else {
                        assert(before@[i] != before@[j]);
                    }
                }
            }
        }
        id
    }

    /// The tokens by id, in id order.
    pub fn ids_to_tokens(&self) -> (map: &IndexMap<TokenId, Token>)
        requires
            self.wf(),
        ensures
            id_token_entries(*map).len() == self@.len(),
            forall|i: int|
                0 <= i < self@.len() ==> #[trigger] id_token_entries(*map)[i] == (
                    TokenId(i as usize),
                    self@[i],
                ),
    {
        proof {
            self.lemma_entries();
        }
        &self.ids_to_tokens
    }

    /// The ids by token, in id order.
    pub fn tokens_to_ids(&self) -> (map: &IndexMap<Token, TokenId>)
        requires
            self.wf(),
        ensures
            token_id_entries(*map).len() == self@.len(),
            forall|i: int|
                0 <= i < self@.len() ==> #[trigger] token_id_entries(*map)[i] == (
                    self@[i],
                    TokenId(i as usize),
                ),
    {
        proof {
            self.lemma_entries();
        }
        &self.tokens_to_ids
    }
}

} // verus!
