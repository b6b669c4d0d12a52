use crate::config::Vocabulary;
use crate::error::LangErr;
use crate::rangen::{gen_index, seeded_rng};
use crate::syllables::{concat, is_syllable_pos_valid, pos_valid};
use rand::rngs::StdRng;
use vstd::prelude::*;
use vstd::string::StringExecFns;

verus! {

/// Syllables that make a well-placed word of `min..=max` syllables: each is
/// in the inventory and allowed at its index.
pub open spec fn valid_word(cfg: &Vocabulary, syls: Seq<Seq<char>>, min: int, max: int) -> bool {
    &&& min <= syls.len() <= max
    &&& forall|k: int| 0 <= k < syls.len() ==> cfg.voc().contains(#[trigger] syls[k])
    &&& forall|k: int| 0 <= k < syls.len() ==> pos_valid(cfg, #[trigger] syls[k], k, syls.len() as int)
}

/// A word is the joined form of a well-placed sequence of syllables.
pub open spec fn generated_word(cfg: &Vocabulary, w: Seq<char>, min: int, max: int) -> bool {
    exists|syls: Seq<Seq<char>>| #[trigger] valid_word(cfg, syls, min, max) && concat(syls) == w
}

/// Appending a syllable to a joined form joins one more syllable.
pub proof fn lemma_concat_push(syls: Seq<Seq<char>>, s: Seq<char>)
    ensures
        concat(syls.push(s)) == concat(syls) + s,
    decreases syls.len(),
{
    if syls.len() == 0 {
        assert(syls.push(s).drop_first() =~= Seq::<Seq<char>>::empty());
        assert(syls.push(s)[0] == s);
        assert(concat(Seq::<Seq<char>>::empty()) == Seq::<char>::empty());
        assert(concat(syls.push(s)) == s + Seq::<char>::empty());
        assert(s + Seq::<char>::empty() =~= s);
        assert(Seq::<char>::empty() + s =~= s);
    } else {
        assert(syls.push(s).drop_first() =~= syls.drop_first().push(s));
        lemma_concat_push(syls.drop_first(), s);
        assert(syls[0] + (concat(syls.drop_first()) + s) =~= (syls[0] + concat(syls.drop_first())) + s);
    }
}

/// Every syllable of the inventory may stand at index `pos` of a word of
/// `len` syllables.
pub open spec fn slot_open(cfg: &Vocabulary, pos: int, len: int) -> bool {
    forall|c: int| 0 <= c < cfg.voc().len() ==> #[trigger] pos_valid(cfg, cfg.voc()[c], pos, len)
}

/// Every slot of every word length from `min` to `max` is open.
pub open spec fn lengths_open(cfg: &Vocabulary, min: int, max: int) -> bool {
    forall|len: int, pos: int| min <= len <= max && 0 <= pos < len ==> #[trigger] slot_open(cfg, pos, len)
}

/// Draws syllables uniformly at random, keeping the first that its slot
/// allows, with a bounded number of draws per slot.
pub struct RealRandom {
    rng: StdRng,
    max_tries: u32,
}

impl RealRandom {
    pub closed spec fn max_tries(&self) -> u32 {
        self.max_tries
    }

    /// A generator with the default budget of 100 draws per slot.
    pub fn with_config(_cfg: &Vocabulary, seed: u64) -> (r: RealRandom)
        ensures
            r.max_tries() == 100,
    {
        RealRandom { rng: seeded_rng(seed), max_tries: 100 }
    }

    /// A syllable for index `pos` of a word of `len` syllables, drawn
    /// uniformly and redrawn until its rule allows the slot. Fails where no
    /// draw within the budget fits, and surely where no syllable fits.
    pub fn pull_syllable(&mut self, pos: usize, len: usize, cfg: &Vocabulary) -> (r: Result<String, LangErr>)
        requires
            cfg.wf(),
            pos < len,
        ensures
            final(self).max_tries() == old(self).max_tries(),
            match r {
                Ok(s) => cfg.voc().contains(s@) && pos_valid(cfg, s@, pos as int, len as int),
                Err(e) => e == LangErr::NoValidCandidate,
            },
            (forall|c: int| 0 <= c < cfg.voc().len() ==> !pos_valid(cfg, #[trigger] cfg.voc()[c], pos as int, len as int))
                ==> r is Err,
            old(self).max_tries() > 0 && cfg.voc().len() > 0 && slot_open(cfg, pos as int, len as int) ==> r is Ok,
    {
        let n = cfg.syllables.len();
        if n == 0 {
            return Err(LangErr::NoValidCandidate);
        }
        let mut tries: u32 = 0;
        while tries < self.max_tries
            invariant
                cfg.wf(),
                n == cfg.syllables@.len(),
                n > 0,
                pos < len,
                self.max_tries == old(self).max_tries,
                old(self).max_tries > 0 && slot_open(cfg, pos as int, len as int) ==> tries == 0,
            decreases self.max_tries - tries,
        {
            let i = gen_index(&mut self.rng, 0, n);
            let syllable = cfg.syllables[i].as_str();
            proof {
                assert(cfg.voc()[i as int] == syllable@);
                if slot_open(cfg, pos as int, len as int) {
                    assert(pos_valid(cfg, cfg.voc()[i as int], pos as int, len as int));
                }
            }
            if is_syllable_pos_valid(syllable, pos, len, cfg) {
                return Ok(String::from_str(syllable));
            }
            tries = tries + 1;
        }
        Err(LangErr::NoValidCandidate)
    }

    /// Generates `count` words, each of a length drawn uniformly from
    /// `min_len..=max_len`, filled slot by slot from left to right. Fails
    /// as soon as one slot cannot be filled.
    pub fn create_words(&mut self, min_len: u32, max_len: u32, count: u32, cfg: &Vocabulary) -> (r: Result<Vec<String>, LangErr>)
        requires
            cfg.wf(),
            min_len <= max_len < u32::MAX,
        ensures
            match r {
                Ok(words) => words@.len() == count
                    && forall|i: int| 0 <= i < count ==> generated_word(cfg, #[trigger] words@[i]@, min_len as int, max_len as int),
                Err(e) => e == LangErr::NoValidCandidate,
            },
            count == 0 ==> r is Ok,
            old(self).max_tries() > 0 && cfg.voc().len() > 0 && lengths_open(cfg, min_len as int, max_len as int)
                ==> r is Ok,
    {
        let mut result: Vec<String> = Vec::new();
        let mut nth: u32 = 0;
        while nth < count
            invariant
                cfg.wf(),
                min_len <= max_len < u32::MAX,
                nth <= count,
                result@.len() == nth,
                forall|i: int| 0 <= i < nth ==> generated_word(cfg, #[trigger] result@[i]@, min_len as int, max_len as int),
                self.max_tries == old(self).max_tries,
            decreases count - nth,
        {
            let chosen = gen_index(&mut self.rng, min_len as usize, max_len as usize + 1);
            let mut word = String::new();
            let ghost mut syls: Seq<Seq<char>> = Seq::empty();
            let mut pos: usize = 0;
            while pos < chosen
                invariant
                    cfg.wf(),
                    min_len <= chosen <= max_len,
                    pos <= chosen,
                    syls.len() == pos,
                    concat(syls) == word@,
                    forall|k: int| 0 <= k < pos ==> cfg.voc().contains(#[trigger] syls[k]),
                    forall|k: int| 0 <= k < pos ==> pos_valid(cfg, #[trigger] syls[k], k, chosen as int),
                    self.max_tries == old(self).max_tries,
                    nth < count,
                decreases chosen - pos,
            {
                let s = match self.pull_syllable(pos, chosen, cfg) {
                    Ok(s) => s,
                    Err(e) => {
                        proof {
                            if old(self).max_tries > 0 && cfg.voc().len() > 0 && lengths_open(cfg, min_len as int, max_len as int) {
                                assert(slot_open(cfg, pos as int, chosen as int));
                            }
                        }
                        return Err(e);
                    },
                };
                proof {
                    lemma_concat_push(syls, s@);
                    syls = syls.push(s@);
                }
                word.append(s.as_str());
                pos = pos + 1;
            }
            proof {
                assert(valid_word(cfg, syls, min_len as int, max_len as int));
            }
            result.push(word);
            nth = nth + 1;
        }
        Ok(result)
    }
}

} // verus!
