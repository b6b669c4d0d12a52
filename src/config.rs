use crate::syllables::SyllablePosition;
use vstd::prelude::*;
use vstd::string::StringExecFns;

verus! {

/// Target frequencies are fixed-point fractions with this denominator:
/// a target of `TARGET_SCALE` stands for 1.0.
pub const TARGET_SCALE: u64 = 1_000_000;

/// Everything the generator knows about a language. Entry `i` of
/// `positions`, `romanization` and `wanted` belongs to `syllables[i]`.
pub struct Vocabulary {
    /// The syllable inventory, in a fixed order.
    pub syllables: Vec<String>,
    /// The position rule of each syllable; `None` means the syllable may
    /// stand nowhere.
    pub positions: Vec<Option<SyllablePosition>>,
    /// The display string of each syllable, if it has one.
    pub romanization: Vec<Option<String>>,
    /// The target frequency of each syllable, in units of `1 / TARGET_SCALE`.
    pub wanted: Vec<u32>,
    /// Words accepted so far.
    pub database: Vec<String>,
}

/// The syllables of a vocabulary as character sequences.
pub open spec fn syllable_views(syllables: Seq<String>) -> Seq<Seq<char>> {
    syllables.map_values(|s: String| s@)
}

/// The first index at which `key` stands in `keys`, or -1 if it is absent.
pub open spec fn index_of(keys: Seq<Seq<char>>, key: Seq<char>) -> int {
    if exists|i: int| 0 <= i < keys.len() && keys[i] == key && forall|j: int| 0 <= j < i ==> keys[j] != key {
        choose|i: int| 0 <= i < keys.len() && keys[i] == key && forall|j: int| 0 <= j < i ==> keys[j] != key
    } else {
        -1
    }
}

/// `i` is the first index of `key` in `keys`.
pub proof fn lemma_index_of_found(keys: Seq<Seq<char>>, key: Seq<char>, i: int)
    requires
        0 <= i < keys.len(),
        keys[i] == key,
        forall|j: int| 0 <= j < i ==> keys[j] != key,
    ensures
        index_of(keys, key) == i,
{
    let k = index_of(keys, key);
    assert(0 <= k < keys.len() && keys[k] == key && forall|j: int| 0 <= j < k ==> keys[j] != key);
    if k < i {
        assert(keys[k] != key);
    } else if i < k {
        assert(keys[i] != key);
    }
}

/// An absent key has index -1.
pub proof fn lemma_index_of_absent(keys: Seq<Seq<char>>, key: Seq<char>)
    requires
        forall|j: int| 0 <= j < keys.len() ==> keys[j] != key,
    ensures
        index_of(keys, key) == -1,
{
}

impl Vocabulary {
    /// The per-syllable tables all have one entry per syllable, and no
    /// syllable is empty.
    pub open spec fn wf(&self) -> bool {
        &&& self.positions@.len() == self.syllables@.len()
        &&& self.romanization@.len() == self.syllables@.len()
        &&& self.wanted@.len() == self.syllables@.len()
        &&& forall|i: int| 0 <= i < self.syllables@.len() ==> #[trigger] self.syllables@[i]@.len() > 0
    }

    pub open spec fn voc(&self) -> Seq<Seq<char>> {
        syllable_views(self.syllables@)
    }

    /// The position rule of a syllable, if it is known and has one.
    pub open spec fn rule_of(&self, s: Seq<char>) -> Option<SyllablePosition> {
        let i = index_of(self.voc(), s);
        if i < 0 {
            None
        } else {
            self.positions@[i]
        }
    }

    /// The display string of a syllable, if it is known and has one.
    pub open spec fn romanization_of(&self, s: Seq<char>) -> Option<Seq<char>> {
        let i = index_of(self.voc(), s);
        if i < 0 {
            None
        } else {
            match self.romanization@[i] {
                Some(r) => Some(r@),
                None => None,
            }
        }
    }

    /// The index of a syllable in the inventory, or `None` if it is not
    /// in it.
    pub fn find_syllable(&self, s: &str) -> (r: Option<usize>)
        ensures
            match r {
                Some(i) => i as int == index_of(self.voc(), s@),
                None => index_of(self.voc(), s@) == -1,
            },
            r is None <==> !self.voc().contains(s@),
    {
        let key = String::from_str(s);
        let mut i: usize = 0;
        while i < self.syllables.len()
            invariant
                0 <= i <= self.syllables@.len(),
                key@ == s@,
                forall|j: int| 0 <= j < i ==> self.voc()[j] != s@,
            decreases self.syllables@.len() - i,
        {
            if self.syllables[i] == key {
                proof {
                    assert(self.voc()[i as int] == s@);
                    lemma_index_of_found(self.voc(), s@, i as int);
                }
                return Some(i);
            }
            i = i + 1;
        }
        proof {
            lemma_index_of_absent(self.voc(), s@);
        }
        None
    }

    /// Adds words at the end of the database.
    pub fn append_database(&mut self, words: &Vec<String>)
        ensures
            final(self).database@ == old(self).database@ + words@,
            final(self).syllables == old(self).syllables,
            final(self).positions == old(self).positions,
            final(self).romanization == old(self).romanization,
            final(self).wanted == old(self).wanted,
    {
        let mut i: usize = 0;
        while i < words.len()
            invariant
                i <= words@.len(),
                self.database@ == old(self).database@ + words@.take(i as int),
                self.syllables == old(self).syllables,
                self.positions == old(self).positions,
                self.romanization == old(self).romanization,
                self.wanted == old(self).wanted,
            decreases words@.len() - i,
        {
            self.database.push(words[i].clone());
            proof {
                assert(words@.take(i + 1) =~= words@.take(i as int).push(words@[i as int]));
            }
            i = i + 1;
        }
        proof {
            assert(words@.take(i as int) =~= words@);
        }
    }

    /// Removes the first database word equal to `word`; tells whether there
    /// was one.
    pub fn delete_from_database(&mut self, word: &str) -> (r: bool)
        ensures
            r == (index_of(syllable_views(old(self).database@), word@) >= 0),
            r ==> final(self).database@ == old(self).database@.remove(index_of(syllable_views(old(self).database@), word@)),
            !r ==> final(self).database@ == old(self).database@,
            final(self).syllables == old(self).syllables,
            final(self).positions == old(self).positions,
            final(self).romanization == old(self).romanization,
            final(self).wanted == old(self).wanted,
    {
        let key = String::from_str(word);
        let ghost db = syllable_views(self.database@);
        let mut i: usize = 0;
        while i < self.database.len()
            invariant
                0 <= i <= self.database@.len(),
                key@ == word@,
                db == syllable_views(self.database@),
                db == syllable_views(old(self).database@),
                self.database@ == old(self).database@,
                self.syllables == old(self).syllables,
                self.positions == old(self).positions,
                self.romanization == old(self).romanization,
                self.wanted == old(self).wanted,
                forall|j: int| 0 <= j < i ==> db[j] != word@,
            decreases self.database@.len() - i,
        {
            if self.database[i] == key {
                proof {
                    assert(db[i as int] == word@);
                    lemma_index_of_found(db, word@, i as int);
                }
                self.database.remove(i);
                return true;
            }
            i = i + 1;
        }
        proof {
            lemma_index_of_absent(db, word@);
        }
        false
    }
}

} // verus!
