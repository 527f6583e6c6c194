//! From raw text to a chain: filter the characters, split into words,
//! intern the words, and count the transitions between consecutive words.

use vstd::prelude::*;
use crate::chain::{built, chain_wf, MarkovChain};
use crate::text::{regularize_text, regularized, split_by, tokens};
use crate::vocabulary::{one_of, words_unique, Vocabulary};

verus! {

/// The vocabulary of the words of `text` and the chain of their transitions.
pub fn train(text: &Vec<char>) -> (r: (Vocabulary, MarkovChain))
    ensures
        words_unique(r.0@),
        chain_wf(r.1@),
        exists|ids: Seq<u64>|
            ids.len() == tokens(regularized(text@), ' ').len()
            && (forall|i: int| 0 <= i < ids.len() ==> (#[trigger] ids[i]) < r.0@.len() && r.0@[ids[i] as int] == tokens(regularized(text@), ' ')[i])
            && r.1@ == built(ids),
        forall|k: int| 0 <= k < r.0@.len() ==> tokens(regularized(text@), ' ').contains(#[trigger] r.0@[k]),
{
    let clean = regularize_text(text);
    let words = split_by(&clean, ' ');
    let mut vocabulary = Vocabulary::new();
    let ids = vocabulary.intern_all(&words);
    let chain = MarkovChain::from_sequence(&ids);
    proof {
        let toks = tokens(regularized(text@), ' ');
        assert forall|i: int| 0 <= i < ids@.len() implies (#[trigger] ids@[i]) < vocabulary@.len() && vocabulary@[ids@[i] as int] == toks[i] by {
            assert(words@.map_values(|w: Vec<char>| w@)[i] == words@[i]@);
        }
        assert forall|k: int| 0 <= k < vocabulary@.len() implies toks.contains(#[trigger] vocabulary@[k]) by {
            assert(one_of(vocabulary@[k], words@));
            let j = choose|j: int| 0 <= j < words@.len() && vocabulary@[k] == #[trigger] words@[j]@;
            assert(words@.map_values(|w: Vec<char>| w@)[j] == words@[j]@);
            assert(toks[j] == vocabulary@[k]);
        }
    }
    (vocabulary, chain)
}

} // verus!
