use crate::config::{Vocabulary, TARGET_SCALE};
use crate::error::LangErr;
use crate::syllables::{
    db_syllable_occurrences_as_count, db_syllables, lemma_db_members, lemma_seq_sum_occurrences, occurrences, seq_sum, db_syllable_occurrences_as_percentage, lists_by_value,
    syllables_by_occurrence_desc, total_chars,
};
use crate::config::syllable_views;
use vstd::prelude::*;

verus! {

/// The `config` subcommand: shows target and real syllable frequencies.
pub struct ConfigCmd;

/// The syllables with their values, in inventory order, listed largest
/// value first.
pub open spec fn listing_of(names: Seq<String>, values: Seq<u64>, r: Seq<(String, u64)>) -> bool {
    exists|order: Seq<usize>| #[trigger] lists_by_value(values, order, values.len() as int)
        && r.len() == order.len()
        && forall|k: int| 0 <= k < order.len() ==> #[trigger] r[k] == (names[order[k] as int], values[order[k] as int])
}

/// `r` lists the share of each syllable among the syllables `s`, in units
/// of `1 / TARGET_SCALE` rounded down, largest first.
pub open spec fn share_listing(cfg: &Vocabulary, s: Seq<Seq<char>>, r: Seq<(String, u64)>) -> bool {
    exists|values: Seq<u64>| #[trigger] listing_of(cfg.syllables@, values, r)
        && values.len() == cfg.syllables@.len()
        && (forall|i: int| 0 <= i < values.len()
            ==> #[trigger] values[i] == occurrences(cfg.voc(), s, i) * TARGET_SCALE / (s.len() as int))
}

impl ConfigCmd {
    pub fn new() -> ConfigCmd {
        ConfigCmd
    }

    /// The name of the subcommand.
    pub fn subcommand(&self) -> (r: &'static str)
        ensures
            r@ == "config"@,
    {
        "config"
    }

    /// The target frequency of each syllable, largest first, in units of
    /// `1 / TARGET_SCALE`.
    pub fn wanted_shares(&self, cfg: &Vocabulary) -> (r: Vec<(String, u64)>)
        requires
            cfg.wf(),
        ensures
            exists|values: Seq<u64>| values.len() == cfg.wanted@.len()
                && (forall|i: int| 0 <= i < values.len() ==> #[trigger] values[i] == cfg.wanted@[i] as u64)
                && listing_of(cfg.syllables@, values, r@),
    {
        let mut values: Vec<u64> = Vec::new();
        let mut i: usize = 0;
        while i < cfg.wanted.len()
            invariant
                i <= cfg.wanted@.len(),
                values@.len() == i,
                forall|j: int| 0 <= j < i ==> #[trigger] values@[j] == cfg.wanted@[j] as u64,
            decreases cfg.wanted@.len() - i,
        {
            values.push(cfg.wanted[i] as u64);
            i = i + 1;
        }
        let r = syllables_by_occurrence_desc(&cfg.syllables, &values);
        proof {
            assert(listing_of(cfg.syllables@, values@, r@));
        }
        r
    }

    /// The share of each syllable among the syllables of the database,
    /// largest first, in units of `1 / TARGET_SCALE`. Fails where a database
    /// word cannot be split, or the database holds no syllable.
    pub fn real_shares(&self, cfg: &Vocabulary) -> (r: Result<Vec<(String, u64)>, LangErr>)
        requires
            cfg.wf(),
            total_chars(syllable_views(cfg.database@)) <= u32::MAX,
        ensures
            match (r, db_syllables(cfg.voc(), syllable_views(cfg.database@))) {
                (Ok(l), Ok(s)) => s.len() > 0 && share_listing(cfg, s, l@),
                (Err(LangErr::InvalidSyllable(p)), Err(e)) => p@ == e,
                (Err(LangErr::EmptyDatabase), Ok(s)) => s.len() == 0,
                _ => false,
            },
    {
        let counts = match db_syllable_occurrences_as_count(cfg) {
            Ok(c) => c,
            Err(e) => return Err(e),
        };
        proof {
            let s = db_syllables(cfg.voc(), syllable_views(cfg.database@))->Ok_0;
            lemma_db_members(cfg.voc(), syllable_views(cfg.database@));
            lemma_seq_sum_occurrences(cfg.voc(), s, counts@);
        }
        let shares = match db_syllable_occurrences_as_percentage(&counts) {
            Ok(s) => s,
            Err(e) => return Err(e),
        };
        let r = syllables_by_occurrence_desc(&cfg.syllables, &shares);
        proof {
            let s = db_syllables(cfg.voc(), syllable_views(cfg.database@))->Ok_0;
            assert(listing_of(cfg.syllables@, shares@, r@));
            assert forall|i: int| 0 <= i < shares@.len()
                implies #[trigger] shares@[i] == occurrences(cfg.voc(), s, i) * TARGET_SCALE / (s.len() as int) by {
                assert(counts@[i] == occurrences(cfg.voc(), s, i));
            }
            assert(seq_sum(counts@) == s.len());
            assert(share_listing(cfg, s, r@));
        }
        Ok(r)
    }
}

} // verus!
