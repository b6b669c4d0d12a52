use crate::calculatedrandom::{made_by_pulls, slot_blocked, CalculatedRandom};
use crate::config::{syllable_views, Vocabulary};
use crate::error::LangErr;
use crate::realrandom::{generated_word, lengths_open, RealRandom};
use crate::syllables::{db_syllables, occurrences, total_chars};
use rand::rngs::StdRng;
use rand::{Rng, SeedableRng};
use vstd::prelude::*;

verus! {

/// rand's standard generator, held opaque: the library only seeds it and
/// draws from it.
#[verifier::external_type_specification]
#[verifier::external_body]
pub struct ExStdRng(StdRng);

/// Relies on rand's `SeedableRng::seed_from_u64` for `StdRng`: a generator
/// whose stream depends on the seed alone.
#[verifier::external_body]
pub(crate) fn seeded_rng(seed: u64) -> StdRng {
    StdRng::seed_from_u64(seed)
}

/// Relies on rand's `Rng::gen_range` on a half-open range: a value inside
/// the range (it panics only on an empty range, which `requires` rules out).
#[verifier::external_body]
pub(crate) fn gen_index(rng: &mut StdRng, lo: usize, hi: usize) -> (r: usize)
    requires
        lo < hi,
    ensures
        lo <= r < hi,
{
    rng.gen_range(lo..hi)
}

/// A uniform generator whose random stream is fixed by `seed`.
pub fn real_random(cfg: &Vocabulary, seed: u64) -> (r: RealRandom)
    ensures
        r.max_tries() == 100,
{
    RealRandom::with_config(cfg, seed)
}

/// An adaptive generator seeded with the syllable counts of the database,
/// whose random stream is fixed by `seed`. Fails where a database word
/// cannot be split into syllables.
pub fn calculated_random(cfg: &Vocabulary, seed: u64) -> (r: Result<CalculatedRandom, LangErr>)
    requires
        cfg.wf(),
        total_chars(syllable_views(cfg.database@)) <= u32::MAX,
    ensures
        match (r, db_syllables(cfg.voc(), syllable_views(cfg.database@))) {
            (Ok(e), Ok(s)) => e.inv(cfg) && e.sum() == s.len()
                && forall|i: int| 0 <= i < cfg.syllables@.len() ==> #[trigger] e.counts()[i] == occurrences(cfg.voc(), s, i),
            (Err(LangErr::InvalidSyllable(p)), Err(x)) => p@ == x,
            _ => false,
        },
{
    CalculatedRandom::with_config(cfg, seed)
}

/// A word generator of either kind.
pub enum RandomEngine {
    /// Uniform draws with a bounded number of retries per slot.
    Real(RealRandom),
    /// Draws steered toward the target frequencies.
    Calculated(CalculatedRandom),
}

impl RandomEngine {
    /// The generator can make `count` words of up to `max_len` syllables
    /// without its running total overflowing.
    pub open spec fn ready(&self, cfg: &Vocabulary, count: u32, max_len: u32) -> bool {
        match self {
            RandomEngine::Real(_) => cfg.wf(),
            RandomEngine::Calculated(e) => e.inv(cfg) && e.sum() + count * max_len < u32::MAX,
        }
    }

    /// Generates `count` words of `min_len..=max_len` syllables.
    pub fn create_words(&mut self, min_len: u32, max_len: u32, count: u32, cfg: &Vocabulary) -> (r: Result<Vec<String>, LangErr>)
        requires
            old(self).ready(cfg, count, max_len),
            min_len <= max_len < u32::MAX,
        ensures
            match r {
                Ok(words) => words@.len() == count
                    && forall|i: int| 0 <= i < count ==> generated_word(cfg, #[trigger] words@[i]@, min_len as int, max_len as int),
                Err(e) => e == LangErr::NoValidCandidate,
            },
            old(self) matches RandomEngine::Calculated(_) && r is Err ==> exists|len: int, pos: int|
                min_len <= len <= max_len && 0 <= pos < len && #[trigger] slot_blocked(cfg, pos, len),
            count == 0 ==> r is Ok,
            match *old(self) {
                RandomEngine::Real(e) => e.max_tries() > 0 && cfg.voc().len() > 0
                    && lengths_open(cfg, min_len as int, max_len as int) ==> r is Ok,
                RandomEngine::Calculated(e) => match (*final(self), r) {
                    (RandomEngine::Calculated(e2), Ok(words)) => made_by_pulls(cfg, e.counts(), e.sum() as int,
                        e2.counts(), e2.sum() as int, words@, min_len as int, max_len as int),
                    (RandomEngine::Calculated(_), Err(_)) => true,
                    _ => false,
                },
            },
    {
        match self {
            RandomEngine::Real(e) => e.create_words(min_len, max_len, count, cfg),
            RandomEngine::Calculated(e) => e.create_words(min_len, max_len, count, cfg),
        }
    }
}

} // verus!
