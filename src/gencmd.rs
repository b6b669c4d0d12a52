use crate::config::{syllable_views, Vocabulary};
use crate::error::LangErr;
use crate::rangen::{calculated_random, real_random, RandomEngine};
use crate::syllables::{db_syllables, occurrences, romanize, romanize_spec, total_chars};
use vstd::prelude::*;

verus! {

/// The name of the `gen` subcommand.
pub const SUB_COMMAND: &'static str = "gen";

/// The `gen` subcommand: generates words.
pub struct GenerateCmd;

impl GenerateCmd {
    pub fn new() -> GenerateCmd {
        GenerateCmd {  }
    }

    /// The name of the subcommand.
    pub fn subcommand(&self) -> (r: &'static str)
        ensures
            r@ == "gen"@,
    {
        "gen"
    }

    /// The word length bounds: a fixed length, where one is given, is both
    /// bounds; otherwise the given bounds.
    pub fn calc_min_max(length: Option<u32>, min: u32, max: u32) -> (r: (u32, u32))
        ensures
            match length {
                Some(l) => r == (l, l),
                None => r == (min, max),
            },
    {
        match length {
            Some(l) => (l, l),
            None => (min, max),
        }
    }

    /// The uniform generator where `realrandom` is set, else the adaptive
    /// one seeded with the database counts; both draw from a stream fixed by
    /// `seed`. Fails where the adaptive one is asked for and a database
    /// word cannot be split.
    pub fn choose_rangen(realrandom: bool, cfg: &Vocabulary, seed: u64) -> (r: Result<RandomEngine, LangErr>)
        requires
            cfg.wf(),
            total_chars(syllable_views(cfg.database@)) <= u32::MAX,
        ensures
            realrandom ==> r matches Ok(RandomEngine::Real(_)),
            !realrandom ==> match (r, db_syllables(cfg.voc(), syllable_views(cfg.database@))) {
                (Ok(RandomEngine::Calculated(e)), Ok(s)) => e.inv(cfg) && e.sum() == s.len()
                    && forall|i: int| 0 <= i < cfg.syllables@.len() ==> #[trigger] e.counts()[i] == occurrences(cfg.voc(), s, i),
                (Err(LangErr::InvalidSyllable(p)), Err(x)) => p@ == x,
                _ => false,
            },
    {
        if realrandom {
            Ok(RandomEngine::Real(real_random(cfg, seed)))
        } else {
            match calculated_random(cfg, seed) {
                Ok(e) => Ok(RandomEngine::Calculated(e)),
                Err(e) => Err(e),
            }
        }
    }

    /// The romanized form of each word. Fails with the first word's error.
    pub fn romanize(words: &Vec<String>, cfg: &Vocabulary) -> (r: Result<Vec<String>, LangErr>)
        requires
            cfg.wf(),
        ensures
            match r {
                Ok(out) => out@.len() == words@.len() && forall|i: int| 0 <= i < out@.len()
                    ==> romanize_spec(cfg, #[trigger] words@[i]@) == Ok::<Seq<char>, Seq<char>>(out@[i]@),
                Err(LangErr::InvalidSyllable(p)) => exists|i: int| 0 <= i < words@.len()
                    && #[trigger] romanize_spec(cfg, words@[i]@) == Err::<Seq<char>, Seq<char>>(p@)
                    && forall|j: int| 0 <= j < i ==> #[trigger] romanize_spec(cfg, words@[j]@) is Ok,
                Err(_) => false,
            },
    {
        let mut out: Vec<String> = Vec::new();
        let mut i: usize = 0;
        while i < words.len()
            invariant
                cfg.wf(),
                i <= words@.len(),
                out@.len() == i,
                forall|j: int| 0 <= j < i ==> romanize_spec(cfg, #[trigger] words@[j]@) == Ok::<Seq<char>, Seq<char>>(out@[j]@),
            decreases words@.len() - i,
        {
            match romanize(words[i].as_str(), cfg) {
                Ok(s) => out.push(s),
                Err(e) => {
                    proof {
                        assert(romanize_spec(cfg, words@[i as int]@) is Err);
                        assert(forall|j: int| 0 <= j < i ==> #[trigger] romanize_spec(cfg, words@[j]@) is Ok);
                    }
                    return Err(e);
                },
            }
            i = i + 1;
        }
        Ok(out)
    }
}

} // verus!
