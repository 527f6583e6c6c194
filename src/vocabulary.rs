//! Interning of words as symbol ids: a word's id is its position in the
//! table, and each word is stored once.

use vstd::prelude::*;

verus! {

/// Whether two words hold the same characters.
pub fn same_word(a: &Vec<char>, b: &Vec<char>) -> (r: bool)
    ensures
        r == (a@ == b@),
{
    if a.len() != b.len() {
        return false;
    }
    let mut i: usize = 0;
    while i < a.len()
        invariant
            i <= a@.len(),
            a@.len() == b@.len(),
            forall|k: int| 0 <= k < i ==> a@[k] == b@[k],
        decreases a@.len() - i,
    {
        if a[i] != b[i] {
            return false;
        }
        i = i + 1;
    }
    assert(a@ =~= b@);
    true
}

/// No word occurs twice.
pub open spec fn words_unique(ws: Seq<Seq<char>>) -> bool {
    forall|i: int, j: int| 0 <= i < j < ws.len() ==> ws[i] != ws[j]
}

/// `w` is one of `words`.
pub open spec fn one_of(w: Seq<char>, words: Seq<Vec<char>>) -> bool {
    exists|j: int| 0 <= j < words.len() && w == #[trigger] words[j]@
}

/// A table of distinct words; the id of a word is its index.
#[derive(Debug)]
pub struct Vocabulary {
    words: Vec<Vec<char>>,
}

impl View for Vocabulary {
    type V = Seq<Seq<char>>;

    closed spec fn view(&self) -> Seq<Seq<char>> {
        self.words@.map_values(|w: Vec<char>| w@)
    }
}

impl Vocabulary {
    /// An empty table.
    pub fn new() -> (r: Vocabulary)
        ensures
            r@ == Seq::<Seq<char>>::empty(),
    {
        let r = Vocabulary { words: Vec::new() };
        assert(r@ =~= Seq::<Seq<char>>::empty());
        r
    }

    /// The id of `word`, if it is in the table.
    pub fn lookup(&self, word: &Vec<char>) -> (r: Option<u64>)
        requires
            words_unique(self@),
        ensures
            match r {
                Some(id) => id < self@.len() && self@[id as int] == word@,
                None => !self@.contains(word@),
            },
    {
        let mut i: usize = 0;
        while i < self.words.len()
            invariant
                i <= self.words@.len(),
                self@.len() == self.words@.len(),
                forall|k: int| 0 <= k < i ==> self@[k] != word@,
            decreases self.words@.len() - i,
        {
            assert(self@[i as int] == self.words@[i as int]@);
            if same_word(&self.words[i], word) {
                return Some(i as u64);
            }
            i = i + 1;
        }
        None
    }

    /// The id of `word`, adding it at the end of the table when it is new.
    pub fn intern(&mut self, word: &Vec<char>) -> (id: u64)
        requires
            words_unique(old(self)@),
        ensures
            words_unique(final(self)@),
            id < final(self)@.len(),
            final(self)@[id as int] == word@,
            old(self)@.contains(word@) ==> final(self)@ == old(self)@,
            !old(self)@.contains(word@) ==> final(self)@ == old(self)@.push(word@) && id == old(self)@.len(),
    {
        match self.lookup(word) {
            Some(id) => id,
            None => {
                let id = self.words.len() as u64;
                self.words.push(word.clone());
                assert(self@ =~= old(self)@.push(word@));
                id
            },
        }
    }

    /// The ids of `words`, interning each in turn.
    pub fn intern_all(&mut self, words: &Vec<Vec<char>>) -> (ids: Vec<u64>)
        requires
            words_unique(old(self)@),
        ensures
            words_unique(final(self)@),
            ids@.len() == words@.len(),
            forall|i: int| 0 <= i < ids@.len() ==> (#[trigger] ids@[i]) < final(self)@.len() && final(self)@[ids@[i] as int] == words@[i]@,
            old(self)@.len() <= final(self)@.len(),
            forall|k: int| 0 <= k < old(self)@.len() ==> #[trigger] final(self)@[k] == old(self)@[k],
            forall|k: int|
                old(self)@.len() <= k < final(self)@.len() ==> one_of(#[trigger] final(self)@[k], words@),
    {
        let mut ids: Vec<u64> = Vec::new();
        let mut i: usize = 0;
        while i < words.len()
            invariant
                i <= words@.len(),
                ids@.len() == i,
                words_unique(self@),
                forall|j: int| 0 <= j < i ==> (#[trigger] ids@[j]) < self@.len() && self@[ids@[j] as int] == words@[j]@,
                old(self)@.len() <= self@.len(),
                forall|k: int| 0 <= k < old(self)@.len() ==> #[trigger] self@[k] == old(self)@[k],
                forall|k: int| old(self)@.len() <= k < self@.len() ==> one_of(#[trigger] self@[k], words@),
            decreases words@.len() - i,
        {
            let ghost before = self@;
            let id = self.intern(&words[i]);
            proof {
                assert forall|j: int| 0 <= j < i implies self@[ids@[j] as int] == before[ids@[j] as int] by {
                    assert(ids@[j] < before.len());
                }
                assert forall|k: int| old(self)@.len() <= k < self@.len() implies one_of(#[trigger] self@[k], words@) by {
                    if k < before.len() {
                        assert(self@[k] == before[k]);
                        assert(one_of(before[k], words@));
                    } else {
                        assert(self@[k] == words@[i as int]@);
                    }
                }
            }
            ids.push(id);
            i = i + 1;
        }
        ids
    }

    /// The word with id `id`, if there is one.
    pub fn word(&self, id: u64) -> (r: Option<&Vec<char>>)
        ensures
            match r {
                Some(w) => id < self@.len() && w@ == self@[id as int],
                None => id >= self@.len(),
            },
    {
        if id < self.words.len() as u64 {
            assert(self@[id as int] == self.words@[id as int]@);
            Some(&self.words[id as usize])
        } else {
            None
        }
    }

    /// Number of distinct words.
    pub fn len(&self) -> (r: usize)
        ensures
            r == self@.len(),
    {
        self.words.len()
    }
}

} // verus!
