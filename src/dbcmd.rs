use crate::config::{index_of, syllable_views, Vocabulary};
use vstd::prelude::*;

verus! {

/// `db` with the first occurrence of `w`, if any, removed.
pub open spec fn delete_first(db: Seq<String>, w: Seq<char>) -> Seq<String> {
    let i = index_of(syllable_views(db), w);
    if i >= 0 {
        db.remove(i)
    } else {
        db
    }
}

/// `db` after deleting the first remaining occurrence of each word of
/// `words`, in turn.
pub open spec fn delete_each(db: Seq<String>, words: Seq<String>) -> Seq<String>
    decreases words.len(),
{
    if words.len() == 0 {
        db
    } else {
        delete_first(delete_each(db, words.drop_last()), words.last()@)
    }
}

/// How many words of `words` are found when deleting them in turn.
pub open spec fn found_count(db: Seq<String>, words: Seq<String>) -> nat
    decreases words.len(),
{
    if words.len() == 0 {
        0
    } else {
        found_count(db, words.drop_last()) + if index_of(
            syllable_views(delete_each(db, words.drop_last())),
            words.last()@,
        ) >= 0 {
            1nat
        } else {
            0nat
        }
    }
}

/// The `db` subcommand: adds, deletes and lists database words.
pub struct DatabaseCmd;

impl DatabaseCmd {
    pub fn new() -> DatabaseCmd {
        DatabaseCmd
    }

    /// The name of the subcommand.
    pub fn subcommand(&self) -> (r: &'static str)
        ensures
            r@ == "db"@,
    {
        "db"
    }

    /// Adds words to the database and tells how many there were.
    pub fn add(&self, words: &Vec<String>, cfg: &mut Vocabulary) -> (r: usize)
        ensures
            r == words@.len(),
            final(cfg).database@ == old(cfg).database@ + words@,
            final(cfg).syllables == old(cfg).syllables,
            final(cfg).positions == old(cfg).positions,
            final(cfg).romanization == old(cfg).romanization,
            final(cfg).wanted == old(cfg).wanted,
    {
        cfg.append_database(words);
        words.len()
    }

    /// The report after adding `added` words.
    pub fn add_message(added: usize) -> (r: &'static str)
        ensures
            added > 1 ==> r@ == "Words were added to the database"@,
            added <= 1 ==> r@ == "Word was added to the database"@,
    {
        if added > 1 {
            "Words were added to the database"
        } else {
            "Word was added to the database"
        }
    }

    /// Deletes each word's first remaining occurrence from the database, in
    /// turn; tells how many were found.
    pub fn del(&self, words: &Vec<String>, cfg: &mut Vocabulary) -> (r: usize)
        ensures
            r == found_count(old(cfg).database@, words@),
            final(cfg).database@ == delete_each(old(cfg).database@, words@),
            final(cfg).syllables == old(cfg).syllables,
            final(cfg).positions == old(cfg).positions,
            final(cfg).romanization == old(cfg).romanization,
            final(cfg).wanted == old(cfg).wanted,
    {
        let mut found: usize = 0;
        let mut i: usize = 0;
        while i < words.len()
            invariant
                i <= words@.len(),
                found <= i,
                found == found_count(old(cfg).database@, words@.take(i as int)),
                cfg.database@ == delete_each(old(cfg).database@, words@.take(i as int)),
                cfg.syllables == old(cfg).syllables,
                cfg.positions == old(cfg).positions,
                cfg.romanization == old(cfg).romanization,
                cfg.wanted == old(cfg).wanted,
            decreases words@.len() - i,
        {
            proof {
                assert(words@.take(i + 1).drop_last() =~= words@.take(i as int));
                assert(words@.take(i + 1).last() == words@[i as int]);
            }
            if cfg.delete_from_database(words[i].as_str()) {
                found = found + 1;
            }
            i = i + 1;
        }
        proof {
            assert(words@.take(i as int) =~= words@);
        }
        found
    }

    /// The report after deleting `found` of `asked` words.
    pub fn del_message(found: usize, asked: usize) -> (r: &'static str)
        ensures
            found == asked ==> r@ == "Words were deleted from the database"@,
            found != asked && found == 0 ==> r@ == "Words were not found in the database"@,
            found != asked && found != 0 ==> r@ == "Some words could not be found and deleted from the database"@,
    {
        if found == asked {
            "Words were deleted from the database"
        } else if found == 0 {
            "Words were not found in the database"
        } else {
            "Some words could not be found and deleted from the database"
        }
    }
}

} // verus!
