//! What the two trainers have in common: the options of training, and an
//! encoder of either kind.

use crate::bpe::Bpe;
use crate::re_pair::RePair;
use crate::recode::decoded;
use crate::recode::encoded;
use crate::recode::DecodeError;
use crate::token::all_known;
use crate::token::known;
use crate::token::valid_tokens;
use crate::token::Token;
use crate::token::TokenId;
use crate::vocabulary::Vocabulary;
use vstd::prelude::*;

verus! {

/// A pair is merged only if it occurs at least this often.
pub const MIN_PAIR_COUNT: usize = 2;

/// The options of training.
#[derive(Clone, Copy, Debug, PartialEq, Eq, Structural)]
pub struct Config {
    /// The largest number of merges to learn; no limit where it is `None`.
    pub max_new_tokens: Option<usize>,
}

impl Config {
    /// Training without a limit on the number of merges.
    pub fn new() -> (config: Config)
        ensures
            config.max_new_tokens is None,
    {
        Config { max_new_tokens: None }
    }

    /// Whether `minted` merges are as many as the options allow.
    pub fn reached(&self, minted: usize) -> (b: bool)
        ensures
            b == (self.max_new_tokens matches Some(max) && minted >= max),
    {
        match self.max_new_tokens {
            Some(max) => minted >= max,
            None => false,
        }
    }
}

/// An encoder of either kind.
pub enum Engine {
    Bpe(Bpe),
    RePair(RePair),
}

impl View for Engine {
    type V = Seq<Token>;

    /// The tokens in id order.
    open spec fn view(&self) -> Seq<Token> {
        match self {
            Engine::Bpe(bpe) => bpe@,
            Engine::RePair(re_pair) => re_pair@,
        }
    }
}

impl Engine {
    /// Well-formedness of the encoder inside.
    pub open spec fn wf(&self) -> bool {
        match self {
            Engine::Bpe(bpe) => bpe.wf(),
            Engine::RePair(re_pair) => re_pair.wf(),
        }
    }

    /// The vocabulary of a well-formed encoder is valid: in particular, every
    /// merge is of two earlier ids.
    pub proof fn lemma_wf(&self)
        requires
            self.wf(),
        ensures
            valid_tokens(self@),
            self@.len() <= usize::MAX,
    {
        match self {
            Engine::Bpe(bpe) => bpe.lemma_wf(),
            Engine::RePair(re_pair) => re_pair.lemma_wf(),
        }
    }

    /// The vocabulary.
    pub fn vocabulary(&self) -> (vocabulary: &Vocabulary)
        requires
            self.wf(),
        ensures
            vocabulary.wf(),
            vocabulary@ == self@,
    {
        match self {
            Engine::Bpe(bpe) => bpe.vocabulary(),
            Engine::RePair(re_pair) => re_pair.vocabulary(),
        }
    }

    /// Encodes bytes: one id per byte, then greedy condensation under the
    /// merges of the vocabulary.
    pub fn encode(&self, data: &[u8]) -> (ids: Vec<TokenId>)
        requires
            self.wf(),
        ensures
            ids@ == encoded(self@, data@),
            all_known(self@, ids@),
    {
        match self {
            Engine::Bpe(bpe) => bpe.encode(data),
            Engine::RePair(re_pair) => re_pair.encode(data),
        }
    }

    /// Decodes ids to the bytes they stand for. Fails on the first id that
    /// the vocabulary does not have.
    pub fn decode(&self, data: Vec<TokenId>) -> (r: Result<Vec<u8>, DecodeError>)
        requires
            self.wf(),
        ensures
            match r {
                Ok(bytes) => all_known(self@, data@) && bytes@ == decoded(self@, data@),
                Err(DecodeError::UnknownId(id)) => exists|i: int|
                    0 <= i < data@.len() && #[trigger] data@[i] == id && !known(self@, id) && all_known(
                        self@,
                        data@.take(i),
                    ),
            },
    {
        match self {
            Engine::Bpe(bpe) => bpe.decode(data),
            Engine::RePair(re_pair) => re_pair.decode(data),
        }
    }
}

} // verus!
