use crate::config::{index_of, lemma_index_of_found, syllable_views, Vocabulary, TARGET_SCALE};
use crate::error::LangErr;
use vstd::string::{StrSliceExecFns, StringExecFns};
use vstd::prelude::*;

verus! {

/// Where in a word a syllable may stand.
#[derive(Debug, Clone, Copy, PartialEq, Eq, Structural)]
pub enum SyllablePosition {
    Start,
    NotStart,
    End,
    NotEnd,
    Middle,
    NotMiddle,
    Any,
}

/// Whether a syllable under `rule` may stand at index `pos` of a word of
/// `len` syllables.
pub open spec fn rule_allows(rule: SyllablePosition, pos: int, len: int) -> bool {
    let last = len - 1;
    match rule {
        SyllablePosition::Start => pos == 0,
        SyllablePosition::NotStart => pos != 0,
        SyllablePosition::End => pos == last,
        SyllablePosition::NotEnd => pos != last,
        SyllablePosition::Middle => pos != 0 && pos != last,
        SyllablePosition::NotMiddle => pos == 0 || pos == last,
        SyllablePosition::Any => true,
    }
}

/// Whether syllable `s` may stand at index `pos` of a word of `len`
/// syllables: a syllable without a rule may stand nowhere.
pub open spec fn pos_valid(cfg: &Vocabulary, s: Seq<char>, pos: int, len: int) -> bool {
    match cfg.rule_of(s) {
        Some(rule) => rule_allows(rule, pos, len),
        None => false,
    }
}

/// Whether a rule allows a slot depends only on whether the slot is the
/// first and whether it is the last of the word.
pub proof fn lemma_rule_depends_on_ends(rule: SyllablePosition, p1: int, l1: int, p2: int, l2: int)
    requires
        0 <= p1 < l1,
        0 <= p2 < l2,
        (p1 == 0) == (p2 == 0),
        (p1 == l1 - 1) == (p2 == l2 - 1),
    ensures
        rule_allows(rule, p1, l1) == rule_allows(rule, p2, l2),
{
}

/// The rule table: for every rule and every slot `pos < len`, what
/// `rule_allows` gives in terms of the slot being first or last.
pub proof fn lemma_rule_table(pos: int, len: int)
    requires
        0 <= pos < len,
    ensures
        rule_allows(SyllablePosition::Start, pos, len) == (pos == 0),
        rule_allows(SyllablePosition::NotStart, pos, len) == (pos != 0),
        rule_allows(SyllablePosition::End, pos, len) == (pos == len - 1),
        rule_allows(SyllablePosition::NotEnd, pos, len) == (pos != len - 1),
        rule_allows(SyllablePosition::Middle, pos, len) == (pos != 0 && pos != len - 1),
        rule_allows(SyllablePosition::NotMiddle, pos, len) == (pos == 0 || pos == len - 1),
        rule_allows(SyllablePosition::Any, pos, len),
{
}

/// Whether a rule allows index `pos` of a word of `len` syllables.
pub fn rule_allows_at(rule: SyllablePosition, pos: usize, len: usize) -> (r: bool)
    requires
        pos < len,
    ensures
        r == rule_allows(rule, pos as int, len as int),
{
    let last = len - 1;
    match rule {
        SyllablePosition::Start => pos == 0,
        SyllablePosition::NotStart => pos != 0,
        SyllablePosition::End => pos == last,
        SyllablePosition::NotEnd => pos != last,
        SyllablePosition::Middle => pos != 0 && pos != last,
        SyllablePosition::NotMiddle => pos == 0 || pos == last,
        SyllablePosition::Any => true,
    }
}

/// Validates whether a syllable may stand at index `pos` of a word of
/// `len` syllables under the vocabulary's rules.
pub fn is_syllable_pos_valid(syllable: &str, pos: usize, len: usize, cfg: &Vocabulary) -> (r: bool)
    requires
        cfg.wf(),
        pos < len,
    ensures
        r == pos_valid(cfg, syllable@, pos as int, len as int),
{
    match cfg.find_syllable(syllable) {
        Some(i) => match cfg.positions[i] {
            Some(rule) => rule_allows_at(rule, pos, len),
            None => false,
        },
        None => false,
    }
}


/// The length of the longest syllable, 0 for an empty inventory.
pub open spec fn max_syllable_len(voc: Seq<Seq<char>>) -> nat
    decreases voc.len(),
{
    if voc.len() == 0 {
        0
    } else {
        let m = max_syllable_len(voc.drop_last());
        if voc.last().len() > m {
            voc.last().len()
        } else {
            m
        }
    }
}

/// The length of the shortest syllable, 0 for an empty inventory.
pub open spec fn min_syllable_len(voc: Seq<Seq<char>>) -> nat
    decreases voc.len(),
{
    if voc.len() == 0 {
        0
    } else if voc.len() == 1 {
        voc[0].len()
    } else {
        let m = min_syllable_len(voc.drop_last());
        if voc.last().len() < m {
            voc.last().len()
        } else {
            m
        }
    }
}

/// The longest length `l`, from `len` down to `max(min_len, 1)`, such that
/// the `l` characters of `w` from offset `o` are a syllable.
pub open spec fn match_len(voc: Seq<Seq<char>>, w: Seq<char>, o: int, len: int, min_len: int) -> Option<int>
    decreases len,
{
    if len < 1 || len < min_len {
        None
    } else if voc.contains(w.subrange(o, o + len)) {
        Some(len)
    } else {
        match_len(voc, w, o, len - 1, min_len)
    }
}

/// Puts `p` in front of a successful segmentation; an error stays as it is.
pub open spec fn prepend(p: Seq<Seq<char>>, r: Result<Seq<Seq<char>>, Seq<char>>) -> Result<Seq<Seq<char>>, Seq<char>> {
    match r {
        Ok(s) => Ok(p + s),
        Err(e) => Err(e),
    }
}

/// Greedy longest-match segmentation of `w` from offset `o`: at each step
/// the longest syllable that the input continues with is taken, trying
/// lengths from the longest syllable's length down to the shortest's.
/// Where none matches, the error holds the text of the last attempt.
pub open spec fn segment_from(voc: Seq<Seq<char>>, w: Seq<char>, o: int) -> Result<Seq<Seq<char>>, Seq<char>>
    decreases w.len() - o,
{
    if o >= w.len() {
        Ok(Seq::empty())
    } else {
        let rem = w.len() - o;
        let max = max_syllable_len(voc) as int;
        let min = min_syllable_len(voc) as int;
        let start = if max < rem { max } else { rem };
        match match_len(voc, w, o, start, min) {
            Some(l) => if 1 <= l <= rem {
                prepend(seq![w.subrange(o, o + l)], segment_from(voc, w, o + l))
            } else {
                Ok(Seq::empty())
            },
            None => Err(w.subrange(o, o + if min < rem { min } else { rem })),
        }
    }
}

/// The segmentation of a whole word.
pub open spec fn segment(voc: Seq<Seq<char>>, w: Seq<char>) -> Result<Seq<Seq<char>>, Seq<char>> {
    segment_from(voc, w, 0)
}

/// An executable segmentation result agrees with a spec one.
pub open spec fn split_agrees(r: Result<Vec<String>, LangErr>, s: Result<Seq<Seq<char>>, Seq<char>>) -> bool {
    match (r, s) {
        (Ok(v), Ok(x)) => syllable_views(v@) == x,
        (Err(LangErr::InvalidSyllable(p)), Err(e)) => p@ == e,
        _ => false,
    }
}

proof fn lemma_prepend_assoc(a: Seq<Seq<char>>, b: Seq<Seq<char>>, r: Result<Seq<Seq<char>>, Seq<char>>)
    ensures
        prepend(a, prepend(b, r)) == prepend(a + b, r),
{
    if let Ok(s) = r {
        assert(a + (b + s) =~= (a + b) + s);
    }
}

/// The character lengths of the longest and of the shortest syllable.
fn syllable_len_bounds(cfg: &Vocabulary) -> (r: (usize, usize))
    ensures
        r.0 == max_syllable_len(cfg.voc()),
        r.1 == min_syllable_len(cfg.voc()),
{
    let mut max: usize = 0;
    let mut min: usize = 0;
    let mut i: usize = 0;
    while i < cfg.syllables.len()
        invariant
            0 <= i <= cfg.syllables@.len(),
            max == max_syllable_len(cfg.voc().take(i as int)),
            min == min_syllable_len(cfg.voc().take(i as int)),
        decreases cfg.syllables@.len() - i,
    {
        let l = cfg.syllables[i].as_str().unicode_len();
        proof {
            let t = cfg.voc().take(i as int + 1);
            assert(t.drop_last() =~= cfg.voc().take(i as int));
            assert(t.last() == cfg.syllables@[i as int]@);
            if i == 0 {
                assert(t.len() == 1);
                assert(t[0] == t.last());
            }
        }
        if i == 0 || l < min {
            min = l;
        }
        if l > max {
            max = l;
        }
        i = i + 1;
    }
    proof {
        assert(cfg.voc().take(i as int) =~= cfg.voc());
    }
    (max, min)
}

/// The longest length from `start` down to `max(min, 1)` at which `word`
/// continues from offset `o` with a syllable.
fn longest_match(cfg: &Vocabulary, word: &str, o: usize, start: usize, min: usize) -> (r: Option<usize>)
    requires
        o + start <= word@.len() <= usize::MAX,
    ensures
        match r {
            Some(l) => match_len(cfg.voc(), word@, o as int, start as int, min as int) == Some(l as int)
                && 1 <= l <= start,
            None => match_len(cfg.voc(), word@, o as int, start as int, min as int) is None,
        },
{
    let mut l: usize = start;
    while l >= 1 && l >= min
        invariant
            l <= start,
            o + start <= word@.len() <= usize::MAX,
            match_len(cfg.voc(), word@, o as int, start as int, min as int)
                == match_len(cfg.voc(), word@, o as int, l as int, min as int),
        decreases l,
    {
        let part = word.substring_char(o, o + l);
        if cfg.find_syllable(part).is_some() {
            return Some(l);
        }
        l = l - 1;
    }
    None
}

/// Splits a word into syllables by greedy longest match, or reports the
/// piece of the word that no syllable matches.
pub fn split_into_syllables(word: &str, cfg: &Vocabulary) -> (r: Result<Vec<String>, LangErr>)
    ensures
        split_agrees(r, segment(cfg.voc(), word@)),
{
    let n = word.unicode_len();
    let (max, min) = syllable_len_bounds(cfg);
    let mut res: Vec<String> = Vec::new();
    let mut o: usize = 0;
    proof {
        assert(syllable_views(res@) =~= Seq::<Seq<char>>::empty());
        assert(Seq::<Seq<char>>::empty() + segment(cfg.voc(), word@)->Ok_0
            =~= segment(cfg.voc(), word@)->Ok_0);
    }
    while o < n
        invariant
            o <= n,
            n == word@.len(),
            max == max_syllable_len(cfg.voc()),
            min == min_syllable_len(cfg.voc()),
            segment(cfg.voc(), word@) == prepend(syllable_views(res@), segment_from(cfg.voc(), word@, o as int)),
        decreases n - o,
    {
        let rem = n - o;
        let start = if max < rem { max } else { rem };
        match longest_match(cfg, word, o, start, min) {
            Some(l) => {
                let part = word.substring_char(o, o + l);
                let ghost before = syllable_views(res@);
                res.push(String::from_str(part));
                proof {
                    assert(syllable_views(res@) =~= before + seq![part@]);
                    lemma_prepend_assoc(before, seq![part@], segment_from(cfg.voc(), word@, o + l));
                }
                o = o + l;
            },
            None => {
                let el = if min < rem { min } else { rem };
                let part = word.substring_char(o, o + el);
                return Err(LangErr::InvalidSyllable(String::from_str(part)));
            },
        }
    }
    proof {
        assert(syllable_views(res@) + Seq::<Seq<char>>::empty() =~= syllable_views(res@));
    }
    Ok(res)
}


/// The string form of a sequence of syllables.
pub open spec fn concat(syls: Seq<Seq<char>>) -> Seq<char>
    decreases syls.len(),
{
    if syls.len() == 0 {
        Seq::empty()
    } else {
        syls[0] + concat(syls.drop_first())
    }
}

/// `p` is a prefix of `w`.
pub open spec fn is_prefix(p: Seq<char>, w: Seq<char>) -> bool {
    p.len() <= w.len() && w.subrange(0, p.len() as int) == p
}

/// Greedy matching picks `syls[k]` at each step: every piece is a syllable,
/// and no longer syllable is a prefix of what remains from that piece on.
pub open spec fn greedy_unambiguous(voc: Seq<Seq<char>>, syls: Seq<Seq<char>>) -> bool {
    &&& forall|k: int| 0 <= k < syls.len() ==> voc.contains(#[trigger] syls[k])
    &&& forall|k: int, j: int|
        0 <= k < syls.len() && 0 <= j < voc.len() && voc[j].len() > syls[k].len()
            ==> !is_prefix(#[trigger] voc[j], concat(#[trigger] syls.subrange(k, syls.len() as int)))
}

proof fn lemma_concat_append(a: Seq<Seq<char>>, b: Seq<Seq<char>>)
    ensures
        concat(a + b) == concat(a) + concat(b),
    decreases a.len(),
{
    if a.len() == 0 {
        assert(a + b =~= b);
        assert(Seq::<char>::empty() + concat(b) =~= concat(b));
    } else {
        assert((a + b).drop_first() =~= a.drop_first() + b);
        lemma_concat_append(a.drop_first(), b);
        assert(a[0] + (concat(a.drop_first()) + concat(b)) =~= (a[0] + concat(a.drop_first())) + concat(b));
    }
}

proof fn lemma_max_min_bound(voc: Seq<Seq<char>>, i: int)
    requires
        0 <= i < voc.len(),
    ensures
        min_syllable_len(voc) <= voc[i].len() <= max_syllable_len(voc),
    decreases voc.len(),
{
    if i < voc.len() - 1 {
        lemma_max_min_bound(voc.drop_last(), i);
        assert(voc.drop_last()[i] == voc[i]);
    }
    if voc.len() > 1 {
        if i == voc.len() - 1 {
            assert(voc.last() == voc[i]);
        }
    }
}

proof fn lemma_match_len_finds(voc: Seq<Seq<char>>, w: Seq<char>, o: int, len: int, min: int, l0: int)
    requires
        1 <= l0 <= len,
        min <= l0,
        voc.contains(w.subrange(o, o + l0)),
        forall|l: int| l0 < l <= len ==> !voc.contains(#[trigger] w.subrange(o, o + l)),
    ensures
        match_len(voc, w, o, len, min) == Some(l0),
    decreases len,
{
    if len > l0 {
        lemma_match_len_finds(voc, w, o, len - 1, min, l0);
    }
}

/// Round trip: where greedy matching never sees a longer syllable at the
/// start of what remains, segmenting the joined syllables gives them back.
pub proof fn lemma_segment_concat(voc: Seq<Seq<char>>, syls: Seq<Seq<char>>)
    requires
        forall|i: int| 0 <= i < voc.len() ==> #[trigger] voc[i].len() > 0,
        greedy_unambiguous(voc, syls),
    ensures
        segment(voc, concat(syls)) == Ok::<Seq<Seq<char>>, Seq<char>>(syls),
{
    lemma_segment_concat_from(voc, syls, 0);
    assert(syls.subrange(0, syls.len() as int) =~= syls);
    assert(syls.subrange(0, 0) =~= Seq::<Seq<char>>::empty());
}

proof fn lemma_segment_concat_from(voc: Seq<Seq<char>>, syls: Seq<Seq<char>>, k: int)
    requires
        0 <= k <= syls.len(),
        forall|i: int| 0 <= i < voc.len() ==> #[trigger] voc[i].len() > 0,
        greedy_unambiguous(voc, syls),
    ensures
        segment_from(voc, concat(syls), concat(syls.subrange(0, k)).len() as int)
            == Ok::<Seq<Seq<char>>, Seq<char>>(syls.subrange(k, syls.len() as int)),
    decreases syls.len() - k,
{
    let w = concat(syls);
    let pre = syls.subrange(0, k);
    let rest = syls.subrange(k, syls.len() as int);
    let o = concat(pre).len() as int;
    assert(syls =~= pre + rest);
    lemma_concat_append(pre, rest);
    assert(w.subrange(o, w.len() as int) =~= concat(rest));
    if k == syls.len() {
        assert(rest =~= Seq::<Seq<char>>::empty());
        assert(o == w.len());
    } else {
        let s = syls[k];
        assert(rest[0] == s);
        assert(rest.drop_first() =~= syls.subrange(k + 1, syls.len() as int));
        assert(voc.contains(s));
        let j0 = choose|j: int| 0 <= j < voc.len() && voc[j] == s;
        lemma_max_min_bound(voc, j0);
        let rem = w.len() - o;
        let max = max_syllable_len(voc) as int;
        let min = min_syllable_len(voc) as int;
        let start = if max < rem { max } else { rem };
        let l0 = s.len() as int;
        assert(concat(rest) == s + concat(rest.drop_first()));
        assert(w.subrange(o, o + l0) =~= s);
        assert forall|l: int| l0 < l <= start implies !voc.contains(#[trigger] w.subrange(o, o + l)) by {
            if voc.contains(w.subrange(o, o + l)) {
                let j = choose|j: int| 0 <= j < voc.len() && voc[j] == w.subrange(o, o + l);
                assert(concat(rest).subrange(0, l) =~= w.subrange(o, o + l));
                assert(is_prefix(voc[j], concat(syls.subrange(k, syls.len() as int))));
            }
        }
        lemma_match_len_finds(voc, w, o, start, min, l0);
        let pre2 = syls.subrange(0, k + 1);
        assert(pre2 =~= pre + seq![s]);
        lemma_concat_append(pre, seq![s]);
        assert(seq![s].drop_first() =~= Seq::<Seq<char>>::empty());
        assert(s + Seq::<char>::empty() =~= s);
        assert(seq![s].len() == 1);
        assert(seq![s][0] == s);
        assert(concat(seq![s].drop_first()) == Seq::<char>::empty());
        assert(concat(seq![s]) == s + Seq::<char>::empty());
        assert(concat(seq![s]) == s);
        assert(concat(pre2).len() == o + l0);
        assert(1 <= l0 <= rem);
        assert(match_len(voc, w, o, start, min) == Some(l0));
        lemma_segment_concat_from(voc, syls, k + 1);
        assert(segment_from(voc, w, o) == prepend(seq![w.subrange(o, o + l0)], segment_from(voc, w, o + l0)));
        assert(seq![s] + syls.subrange(k + 1, syls.len() as int) =~= rest);
    }
}


/// The display form of a sequence of syllables: their romanizations joined,
/// or the first syllable that has none.
pub open spec fn romanize_seq(cfg: &Vocabulary, syls: Seq<Seq<char>>) -> Result<Seq<char>, Seq<char>>
    decreases syls.len(),
{
    if syls.len() == 0 {
        Ok(Seq::empty())
    } else {
        match cfg.romanization_of(syls[0]) {
            None => Err(syls[0]),
            Some(r) => match romanize_seq(cfg, syls.drop_first()) {
                Ok(rest) => Ok(r + rest),
                Err(e) => Err(e),
            },
        }
    }
}

/// The display form of a word: the error of its segmentation, or the
/// romanization of its syllables.
pub open spec fn romanize_spec(cfg: &Vocabulary, w: Seq<char>) -> Result<Seq<char>, Seq<char>> {
    match segment(cfg.voc(), w) {
        Err(e) => Err(e),
        Ok(syls) => romanize_seq(cfg, syls),
    }
}

/// Puts `p` in front of a successful display form.
pub open spec fn prepend_str(p: Seq<char>, r: Result<Seq<char>, Seq<char>>) -> Result<Seq<char>, Seq<char>> {
    match r {
        Ok(s) => Ok(p + s),
        Err(e) => Err(e),
    }
}

/// Replaces each syllable of a word with its romanized form. Fails where
/// the word cannot be split or one of its syllables has no romanization.
pub fn romanize(word: &str, cfg: &Vocabulary) -> (r: Result<String, LangErr>)
    requires
        cfg.wf(),
    ensures
        match (r, romanize_spec(cfg, word@)) {
            (Ok(s), Ok(x)) => s@ == x,
            (Err(LangErr::InvalidSyllable(p)), Err(e)) => p@ == e,
            _ => false,
        },
{
    let syllables = match split_into_syllables(word, cfg) {
        Ok(s) => s,
        Err(e) => return Err(e),
    };
    let ghost syls = syllable_views(syllables@);
    let mut result = String::new();
    let mut i: usize = 0;
    proof {
        assert(syls.subrange(0, syls.len() as int) =~= syls);
        assert(Seq::<char>::empty() + romanize_seq(cfg, syls)->Ok_0 =~= romanize_seq(cfg, syls)->Ok_0);
    }
    while i < syllables.len()
        invariant
            cfg.wf(),
            0 <= i <= syllables@.len(),
            syls == syllable_views(syllables@),
            romanize_spec(cfg, word@) == romanize_seq(cfg, syls),
            romanize_seq(cfg, syls) == prepend_str(result@, romanize_seq(cfg, syls.subrange(i as int, syls.len() as int))),
        decreases syllables@.len() - i,
    {
        let ghost rest = syls.subrange(i as int, syls.len() as int);
        proof {
            assert(rest[0] == syllables@[i as int]@);
            assert(rest.drop_first() =~= syls.subrange(i + 1, syls.len() as int));
        }
        match cfg.find_syllable(syllables[i].as_str()) {
            Some(k) => match &cfg.romanization[k] {
                Some(rom) => {
                    let ghost before = result@;
                    result.append(rom.as_str());
                    proof {
                        match romanize_seq(cfg, rest.drop_first()) {
                            Ok(t) => {
                                assert(before + (rom@ + t) =~= (before + rom@) + t);
                            },
                            Err(_) => {},
                        }
                    }
                },
                None => {
                    proof {
                        assert(cfg.romanization_of(rest[0]) is None);
                        assert(romanize_seq(cfg, rest) == Err::<Seq<char>, Seq<char>>(rest[0]));
                    }
                    return Err(LangErr::InvalidSyllable(syllables[i].clone()));
                },
            },
            None => {
                proof {
                    assert(cfg.romanization_of(rest[0]) is None);
                    assert(romanize_seq(cfg, rest) == Err::<Seq<char>, Seq<char>>(rest[0]));
                }
                return Err(LangErr::InvalidSyllable(syllables[i].clone()));
            },
        }
        i = i + 1;
    }
    proof {
        assert(syls.subrange(i as int, syls.len() as int) =~= Seq::<Seq<char>>::empty());
        assert(result@ + Seq::<char>::empty() =~= result@);
    }
    Ok(result)
}


/// All syllables of the words of `db`, in order, or the first
/// segmentation error.
pub open spec fn db_syllables(voc: Seq<Seq<char>>, db: Seq<Seq<char>>) -> Result<Seq<Seq<char>>, Seq<char>>
    decreases db.len(),
{
    if db.len() == 0 {
        Ok(Seq::empty())
    } else {
        match db_syllables(voc, db.drop_last()) {
            Err(e) => Err(e),
            Ok(p) => match segment(voc, db.last()) {
                Err(e) => Err(e),
                Ok(s) => Ok(p + s),
            },
        }
    }
}

/// How many of `syls` are syllable `i` of the inventory (duplicates in the
/// inventory count toward their first entry).
pub open spec fn occurrences(voc: Seq<Seq<char>>, syls: Seq<Seq<char>>, i: int) -> nat
    decreases syls.len(),
{
    if syls.len() == 0 {
        0
    } else {
        occurrences(voc, syls.drop_last(), i) + if index_of(voc, syls.last()) == i { 1nat } else { 0nat }
    }
}

/// The number of characters of all words of `db`.
pub open spec fn total_chars(db: Seq<Seq<char>>) -> nat
    decreases db.len(),
{
    if db.len() == 0 {
        0
    } else {
        total_chars(db.drop_last()) + db.last().len()
    }
}

proof fn lemma_occurrences_le_len(voc: Seq<Seq<char>>, syls: Seq<Seq<char>>, i: int)
    ensures
        occurrences(voc, syls, i) <= syls.len(),
    decreases syls.len(),
{
    if syls.len() > 0 {
        lemma_occurrences_le_len(voc, syls.drop_last(), i);
    }
}

proof fn lemma_total_chars_prefix(db: Seq<Seq<char>>, k: int)
    requires
        0 <= k <= db.len(),
    ensures
        total_chars(db.take(k)) <= total_chars(db),
    decreases db.len(),
{
    if k < db.len() {
        assert(db.drop_last().take(k) =~= db.take(k));
        lemma_total_chars_prefix(db.drop_last(), k);
    } else {
        assert(db.take(k) =~= db);
    }
}

proof fn lemma_segment_from_len(voc: Seq<Seq<char>>, w: Seq<char>, o: int)
    requires
        0 <= o <= w.len(),
    ensures
        segment_from(voc, w, o) is Ok ==> segment_from(voc, w, o)->Ok_0.len() <= w.len() - o,
    decreases w.len() - o,
{
    if o < w.len() {
        let rem = w.len() - o;
        let max = max_syllable_len(voc) as int;
        let min = min_syllable_len(voc) as int;
        let start = if max < rem { max } else { rem };
        if let Some(l) = match_len(voc, w, o, start, min) {
            if 1 <= l <= rem {
                lemma_segment_from_len(voc, w, o + l);
            }
        }
    }
}

proof fn lemma_db_err_stays(voc: Seq<Seq<char>>, db: Seq<Seq<char>>, k: int)
    requires
        0 <= k <= db.len(),
        db_syllables(voc, db.take(k)) is Err,
    ensures
        db_syllables(voc, db) == db_syllables(voc, db.take(k)),
    decreases db.len(),
{
    if k < db.len() {
        assert(db.drop_last().take(k) =~= db.take(k));
        lemma_db_err_stays(voc, db.drop_last(), k);
    } else {
        assert(db.take(k) =~= db);
    }
}

/// Counts how often each syllable of the inventory occurs in the database
/// words; entry `i` of the result belongs to syllable `i`, and a syllable
/// that never occurs counts 0. Fails with the first piece of a database
/// word that cannot be split.
pub fn db_syllable_occurrences_as_count(cfg: &Vocabulary) -> (r: Result<Vec<u32>, LangErr>)
    requires
        cfg.wf(),
        total_chars(syllable_views(cfg.database@)) <= u32::MAX,
    ensures
        match (r, db_syllables(cfg.voc(), syllable_views(cfg.database@))) {
            (Ok(c), Ok(s)) => c@.len() == cfg.syllables@.len()
                && forall|i: int| 0 <= i < c@.len() ==> #[trigger] c@[i] == occurrences(cfg.voc(), s, i),
            (Err(LangErr::InvalidSyllable(p)), Err(e)) => p@ == e,
            _ => false,
        },
{
    match count_occurrences(cfg) {
        Ok((counts, _)) => Ok(counts),
        Err(e) => Err(e),
    }
}

/// The syllable counts of the database, with the number of syllables in it.
pub(crate) fn count_occurrences(cfg: &Vocabulary) -> (r: Result<(Vec<u32>, u32), LangErr>)
    requires
        cfg.wf(),
        total_chars(syllable_views(cfg.database@)) <= u32::MAX,
    ensures
        match (r, db_syllables(cfg.voc(), syllable_views(cfg.database@))) {
            (Ok((c, total)), Ok(s)) => c@.len() == cfg.syllables@.len() && total == s.len()
                && (forall|i: int| 0 <= i < c@.len() ==> #[trigger] c@[i] == occurrences(cfg.voc(), s, i))
                && (forall|i: int| 0 <= i < c@.len() ==> #[trigger] c@[i] <= total),
            (Err(LangErr::InvalidSyllable(p)), Err(e)) => p@ == e,
            _ => false,
        },
{
    let ghost voc = cfg.voc();
    let ghost db = syllable_views(cfg.database@);
    let n = cfg.syllables.len();
    let mut counts: Vec<u32> = Vec::new();
    while counts.len() < n
        invariant
            counts@.len() <= n,
            forall|i: int| 0 <= i < counts@.len() ==> #[trigger] counts@[i] == 0,
        decreases n - counts@.len(),
    {
        counts.push(0);
    }
    let ghost mut flat: Seq<Seq<char>> = Seq::empty();
    let mut total: u32 = 0;
    let mut k: usize = 0;
    proof {
        assert(db.take(0) =~= Seq::<Seq<char>>::empty());
    }
    while k < cfg.database.len()
        invariant
            cfg.wf(),
            voc == cfg.voc(),
            db == syllable_views(cfg.database@),
            total_chars(db) <= u32::MAX,
            0 <= k <= db.len(),
            n == voc.len(),
            db_syllables(voc, db.take(k as int)) == Ok::<Seq<Seq<char>>, Seq<char>>(flat),
            flat.len() <= total_chars(db.take(k as int)),
            total == flat.len(),
            counts@.len() == n,
            forall|i: int| 0 <= i < n ==> #[trigger] counts@[i] == occurrences(voc, flat, i),
        decreases db.len() - k,
    {
        proof {
            assert(db.take(k + 1).drop_last() =~= db.take(k as int));
            assert(db.take(k + 1).last() == cfg.database@[k as int]@);
            lemma_total_chars_prefix(db, k + 1);
        }
        let syls = match split_into_syllables(cfg.database[k].as_str(), cfg) {
            Ok(s) => s,
            Err(e) => {
                proof {
                    lemma_db_err_stays(voc, db, k + 1);
                }
                return Err(e);
            },
        };
        let ghost sv = syllable_views(syls@);
        proof {
            lemma_segment_from_len(voc, cfg.database@[k as int]@, 0);
        }
        let mut j: usize = 0;
        while j < syls.len()
            invariant
                cfg.wf(),
                voc == cfg.voc(),
                sv == syllable_views(syls@),
                0 <= j <= sv.len(),
                flat.len() + sv.len() <= u32::MAX,
                total == flat.len() + j,
                counts@.len() == n,
                n == voc.len(),
                forall|i: int| 0 <= i < n ==> #[trigger] counts@[i] == occurrences(voc, flat + sv.take(j as int), i),
            decreases sv.len() - j,
        {
            let ghost cur = flat + sv.take(j as int);
            let ghost next = flat + sv.take(j + 1);
            proof {
                assert(next.drop_last() =~= cur);
                assert(next.last() == syls@[j as int]@);
            }
            match cfg.find_syllable(syls[j].as_str()) {
                Some(i) => {
                    proof {
                        lemma_occurrences_le_len(voc, cur, i as int);
                    }
                    counts.set(i, counts[i] + 1);
                },
                None => {},
            }
            proof {
                assert forall|i: int| 0 <= i < n implies #[trigger] counts@[i] == occurrences(voc, next, i) by {}
            }
            total = total + 1;
            j = j + 1;
        }
        proof {
            assert(sv.take(sv.len() as int) =~= sv);
            flat = flat + sv;
        }
        k = k + 1;
    }
    proof {
        assert(db.take(k as int) =~= db);
        assert forall|i: int| 0 <= i < n implies #[trigger] counts@[i] <= total by {
            lemma_occurrences_le_len(voc, flat, i);
        }
    }
    Ok((counts, total))
}


/// The sum of a sequence of counts.
pub open spec fn seq_sum(s: Seq<u32>) -> int
    decreases s.len(),
{
    if s.len() == 0 {
        0
    } else {
        seq_sum(s.drop_last()) + s.last()
    }
}

/// The share of each count in the total, in units of `1 / TARGET_SCALE`,
/// rounded down. Fails with `EmptyDatabase` exactly where the counts are
/// all zero, since no share is defined then.
pub fn db_syllable_occurrences_as_percentage(count: &Vec<u32>) -> (r: Result<Vec<u64>, LangErr>)
    ensures
        r is Err <==> seq_sum(count@) == 0,
        match r {
            Ok(p) => p@.len() == count@.len() && forall|i: int| 0 <= i < p@.len()
                ==> #[trigger] p@[i] == count@[i] * TARGET_SCALE / seq_sum(count@),
            Err(e) => e == LangErr::EmptyDatabase,
        },
{
    let n = count.len();
    let mut total: u128 = 0;
    let mut i: usize = 0;
    while i < n
        invariant
            n == count@.len(),
            i <= n,
            total == seq_sum(count@.take(i as int)),
            total <= i * 0x1_0000_0000,
        decreases n - i,
    {
        proof {
            assert(count@.take(i + 1).drop_last() =~= count@.take(i as int));
        }
        total = total + count[i] as u128;
        i = i + 1;
    }
    proof {
        assert(count@.take(n as int) =~= count@);
    }
    if total == 0 {
        return Err(LangErr::EmptyDatabase);
    }
    let mut result: Vec<u64> = Vec::new();
    let mut i: usize = 0;
    while i < n
        invariant
            n == count@.len(),
            i <= n,
            total == seq_sum(count@),
            total > 0,
            result@.len() == i,
            forall|j: int| 0 <= j < i ==> #[trigger] result@[j] == count@[j] * TARGET_SCALE / seq_sum(count@),
        decreases n - i,
    {
        let c = count[i] as u128;
        proof {
            assert(c * 1_000_000 <= 0xFFFF_FFFF * 1_000_000) by (nonlinear_arith)
                requires
                    c <= 0xFFFF_FFFF,
            ;
            assert((c * 1_000_000) as int / (total as int) <= c * 1_000_000) by (nonlinear_arith)
                requires
                    total > 0,
                    c >= 0,
            ;
        }
        let share = c * (TARGET_SCALE as u128) / total;
        result.push(share as u64);
        i = i + 1;
    }
    Ok(result)
}


/// What `str::to_lowercase` makes of a string.
pub uninterp spec fn lower_of(s: Seq<char>) -> Seq<char>;

/// Relies on `str::to_lowercase`: the lowercase form depends on the
/// characters alone.
#[verifier::external_body]
fn lowercase(s: &str) -> (r: String)
    ensures
        r@ == lower_of(s@),
{
    s.to_lowercase()
}

/// The rule that a lowercase rule name stands for.
pub open spec fn rule_named(name: Seq<char>) -> Option<SyllablePosition> {
    if name == "start"@ {
        Some(SyllablePosition::Start)
    } else if name == "notstart"@ {
        Some(SyllablePosition::NotStart)
    } else if name == "end"@ {
        Some(SyllablePosition::End)
    } else if name == "notend"@ {
        Some(SyllablePosition::NotEnd)
    } else if name == "middle"@ {
        Some(SyllablePosition::Middle)
    } else if name == "notmiddle"@ {
        Some(SyllablePosition::NotMiddle)
    } else if name == "any"@ {
        Some(SyllablePosition::Any)
    } else {
        None
    }
}

impl SyllablePosition {
    /// The rule that a name already in lowercase stands for, or
    /// `UnknownPosition` with the name.
    pub fn from_lowercase_name(name: &str) -> (r: Result<SyllablePosition, LangErr>)
        ensures
            match r {
                Ok(p) => rule_named(name@) == Some(p),
                Err(e) => rule_named(name@) is None && e == LangErr::UnknownPosition(e->UnknownPosition_0)
                    && e->UnknownPosition_0@ == name@,
            },
    {
        let n = String::from_str(name);
        if n == String::from_str("start") {
            Ok(SyllablePosition::Start)
        } else if n == String::from_str("notstart") {
            Ok(SyllablePosition::NotStart)
        } else if n == String::from_str("end") {
            Ok(SyllablePosition::End)
        } else if n == String::from_str("notend") {
            Ok(SyllablePosition::NotEnd)
        } else if n == String::from_str("middle") {
            Ok(SyllablePosition::Middle)
        } else if n == String::from_str("notmiddle") {
            Ok(SyllablePosition::NotMiddle)
        } else if n == String::from_str("any") {
            Ok(SyllablePosition::Any)
        } else {
            Err(LangErr::UnknownPosition(n))
        }
    }

    /// The rule that a name stands for, in any letter case, or
    /// `UnknownPosition` with the name as given.
    pub fn from_name(name: &str) -> (r: Result<SyllablePosition, LangErr>)
        ensures
            match r {
                Ok(p) => rule_named(lower_of(name@)) == Some(p),
                Err(e) => rule_named(lower_of(name@)) is None && e == LangErr::UnknownPosition(e->UnknownPosition_0)
                    && e->UnknownPosition_0@ == name@,
            },
    {
        let lowered = lowercase(name);
        match SyllablePosition::from_lowercase_name(lowered.as_str()) {
            Ok(p) => Ok(p),
            Err(_) => Err(LangErr::UnknownPosition(String::from_str(name))),
        }
    }
}


/// Entry `a` comes before entry `b` when listing by value, largest first;
/// equal values keep their order.
pub open spec fn listed_before(values: Seq<u64>, a: int, b: int) -> bool {
    values[a] > values[b] || (values[a] == values[b] && a < b)
}

/// `order` lists each index below `n` once, by value, largest first.
pub open spec fn lists_by_value(values: Seq<u64>, order: Seq<usize>, n: int) -> bool {
    &&& order.len() == n
    &&& forall|k: int| 0 <= k < order.len() ==> #[trigger] order[k] < n
    &&& forall|c: usize| c < n ==> #[trigger] order.contains(c)
    &&& forall|j: int, k: int| 0 <= j < k < order.len() ==> listed_before(values, order[j] as int, order[k] as int)
}

/// The indices of `values`, by value, largest first, equal values in index
/// order.
fn order_by_value_desc(values: &Vec<u64>) -> (r: Vec<usize>)
    ensures
        lists_by_value(values@, r@, values@.len() as int),
{
    let n = values.len();
    let mut out: Vec<usize> = Vec::new();
    let mut i: usize = 0;
    while i < n
        invariant
            n == values@.len(),
            i <= n,
            lists_by_value(values@, out@, i as int),
        decreases n - i,
    {
        let mut p: usize = 0;
        while p < out.len() && values[out[p]] >= values[i]
            invariant
                n == values@.len(),
                i < n,
                p <= out@.len(),
                lists_by_value(values@, out@, i as int),
                forall|j: int| 0 <= j < p ==> values@[#[trigger] out@[j] as int] >= values@[i as int],
            decreases out@.len() - p,
        {
            p = p + 1;
        }
        let ghost before = out@;
        out.insert(p, i);
        proof {
            assert forall|j: int, k: int| 0 <= j < k < out@.len() implies listed_before(values@, out@[j] as int, out@[k] as int) by {
                if k < p {
                    assert(out@[j] == before[j] && out@[k] == before[k]);
                } else if k == p {
                    assert(out@[j] == before[j]);
                } else if j < p {
                    assert(out@[j] == before[j] && out@[k] == before[k - 1]);
                } else if j == p {
                    assert(out@[k] == before[k - 1]);
                    assert(listed_before(values@, before[p as int] as int, before[k - 1] as int) || k - 1 == p);
                } else {
                    assert(out@[j] == before[j - 1] && out@[k] == before[k - 1]);
                }
            }
            assert forall|c: usize| c < i + 1 implies #[trigger] out@.contains(c) by {
                if c == i {
                    assert(out@[p as int] == i);
                } else {
                    assert(before.contains(c));
                    let k = choose|k: int| 0 <= k < before.len() && before[k] == c;
                    if k < p {
                        assert(out@[k] == c);
                    } else {
                        assert(out@[k + 1] == c);
                    }
                }
            }
            assert forall|k: int| 0 <= k < out@.len() implies #[trigger] out@[k] < i + 1 by {
                if k < p {
                    assert(out@[k] == before[k]);
                } else if k > p {
                    assert(out@[k] == before[k - 1]);
                }
            }
        }
        i = i + 1;
    }
    out
}

/// The names listed by their values, largest first, equal values in the
/// order given.
pub fn syllables_sorted_by_occurrence(names: &Vec<String>, values: &Vec<u64>) -> (r: Vec<String>)
    requires
        names@.len() == values@.len(),
    ensures
        exists|order: Seq<usize>| #[trigger] lists_by_value(values@, order, values@.len() as int)
            && r@.len() == order.len()
            && forall|k: int| 0 <= k < order.len() ==> #[trigger] r@[k] == names@[order[k] as int],
{
    let order = order_by_value_desc(values);
    let mut r: Vec<String> = Vec::new();
    let mut k: usize = 0;
    while k < order.len()
        invariant
            names@.len() == values@.len(),
            lists_by_value(values@, order@, values@.len() as int),
            k <= order@.len(),
            r@.len() == k,
            forall|j: int| 0 <= j < k ==> #[trigger] r@[j] == names@[order@[j] as int],
        decreases order@.len() - k,
    {
        r.push(names[order[k]].clone());
        k = k + 1;
    }
    r
}

/// The names with their values, largest value first, equal values in the
/// order given.
pub fn syllables_by_occurrence_desc(names: &Vec<String>, values: &Vec<u64>) -> (r: Vec<(String, u64)>)
    requires
        names@.len() == values@.len(),
    ensures
        exists|order: Seq<usize>| #[trigger] lists_by_value(values@, order, values@.len() as int)
            && r@.len() == order.len()
            && forall|k: int| 0 <= k < order.len() ==> #[trigger] r@[k] == (names@[order[k] as int], values@[order[k] as int]),
{
    let order = order_by_value_desc(values);
    let mut r: Vec<(String, u64)> = Vec::new();
    let mut k: usize = 0;
    while k < order.len()
        invariant
            names@.len() == values@.len(),
            lists_by_value(values@, order@, values@.len() as int),
            k <= order@.len(),
            r@.len() == k,
            forall|j: int| 0 <= j < k ==> #[trigger] r@[j] == (names@[order@[j] as int], values@[order@[j] as int]),
        decreases order@.len() - k,
    {
        let i = order[k];
        r.push((names[i].clone(), values[i]));
        k = k + 1;
    }
    r
}


proof fn lemma_match_len_result(voc: Seq<Seq<char>>, w: Seq<char>, o: int, len: int, min: int)
    requires
        match_len(voc, w, o, len, min) is Some,
    ensures
        ({
            let l = match_len(voc, w, o, len, min)->Some_0;
            &&& 1 <= l <= len
            &&& voc.contains(w.subrange(o, o + l))
            &&& forall|k: int| l < k <= len ==> !voc.contains(#[trigger] w.subrange(o, o + k))
        }),
    decreases len,
{
    if !voc.contains(w.subrange(o, o + len)) {
        lemma_match_len_result(voc, w, o, len - 1, min);
    }
}

/// The index of the first colon of `s` at or after `from`, or the length
/// of `s` where there is none.
pub open spec fn colon_from(s: Seq<char>, from: int) -> int
    decreases s.len() - from,
{
    if from >= s.len() {
        s.len() as int
    } else if s[from] == ':' {
        from
    } else {
        colon_from(s, from + 1)
    }
}

/// Splits a configuration line of the form `key:value`: the key is the text
/// before the first colon, the value the text after it up to the next colon
/// or the end. `None` where the line has no colon.
pub fn split_colon_pair(line: &str) -> (r: Option<(String, String)>)
    ensures
        ({
            let i = colon_from(line@, 0);
            match r {
                Some((k, v)) => i < line@.len() && k@ == line@.subrange(0, i)
                    && v@ == line@.subrange(i + 1, colon_from(line@, i + 1)),
                None => i == line@.len(),
            }
        }),
{
    let n = line.unicode_len();
    let mut i: usize = 0;
    while i < n && line.get_char(i) != ':'
        invariant
            n == line@.len(),
            i <= n,
            colon_from(line@, 0) == colon_from(line@, i as int),
        decreases n - i,
    {
        i = i + 1;
    }
    if i == n {
        return None;
    }
    let mut j: usize = i + 1;
    while j < n && line.get_char(j) != ':'
        invariant
            n == line@.len(),
            i < j <= n,
            colon_from(line@, i + 1) == colon_from(line@, j as int),
        decreases n - j,
    {
        j = j + 1;
    }
    let key = String::from_str(line.substring_char(0, i));
    let value = String::from_str(line.substring_char(i + 1, j));
    Some((key, value))
}

/// What a line `syllable:rule` of a position table holds: the syllable and
/// the rule its name stands for, in any letter case; `None` where the line
/// has no colon.
pub open spec fn position_line(line: Seq<char>) -> Option<(Seq<char>, Option<SyllablePosition>)> {
    let i = colon_from(line, 0);
    if i == line.len() {
        None
    } else {
        Some((line.subrange(0, i), rule_named(lower_of(line.subrange(i + 1, colon_from(line, i + 1))))))
    }
}

/// The line holds a syllable and a known rule name.
pub open spec fn position_line_ok(line: Seq<char>) -> bool {
    position_line(line) is Some && position_line(line)->Some_0.1 is Some
}

/// The syllable and rule of each line `syllable:rule` of a position table,
/// in order. Fails where a line has no colon or names an unknown rule.
pub fn parse_syllable_positions(lines: &Vec<String>) -> (r: Result<Vec<(String, SyllablePosition)>, LangErr>)
    ensures
        match r {
            Ok(out) => out@.len() == lines@.len() && forall|i: int| 0 <= i < out@.len()
                ==> #[trigger] position_line(lines@[i]@) == Some((out@[i].0@, Some(out@[i].1))),
            Err(_) => exists|i: int| 0 <= i < lines@.len() && !#[trigger] position_line_ok(lines@[i]@),
        },
{
    let mut out: Vec<(String, SyllablePosition)> = Vec::new();
    let mut i: usize = 0;
    while i < lines.len()
        invariant
            i <= lines@.len(),
            out@.len() == i,
            forall|j: int| 0 <= j < i ==> #[trigger] position_line(lines@[j]@) == Some((out@[j].0@, Some(out@[j].1))),
        decreases lines@.len() - i,
    {
        match split_colon_pair(lines[i].as_str()) {
            Some((syllable, name)) => match SyllablePosition::from_name(name.as_str()) {
                Ok(rule) => out.push((syllable, rule)),
                Err(e) => {
                    proof {
                        assert(!position_line_ok(lines@[i as int]@));
                    }
                    return Err(e);
                },
            },
            None => {
                proof {
                    assert(!position_line_ok(lines@[i as int]@));
                }
                return Err(LangErr::UnknownPosition(lines[i].clone()));
            },
        }
        i = i + 1;
    }
    Ok(out)
}


/// Every piece of a successful segmentation is a syllable of the inventory.
pub proof fn lemma_segment_members(voc: Seq<Seq<char>>, w: Seq<char>, o: int)
    requires
        0 <= o <= w.len(),
        segment_from(voc, w, o) is Ok,
    ensures
        forall|k: int| 0 <= k < segment_from(voc, w, o)->Ok_0.len()
            ==> voc.contains(#[trigger] segment_from(voc, w, o)->Ok_0[k]),
    decreases w.len() - o,
{
    if o < w.len() {
        let rem = w.len() - o;
        let max = max_syllable_len(voc) as int;
        let min = min_syllable_len(voc) as int;
        let start = if max < rem { max } else { rem };
        lemma_match_len_result(voc, w, o, start, min);
        let l = match_len(voc, w, o, start, min)->Some_0;
        lemma_segment_members(voc, w, o + l);
        let rest = segment_from(voc, w, o + l)->Ok_0;
        let all = segment_from(voc, w, o)->Ok_0;
        assert(all == seq![w.subrange(o, o + l)] + rest);
        assert forall|k: int| 0 <= k < all.len() implies voc.contains(#[trigger] all[k]) by {
            if k > 0 {
                assert(all[k] == rest[k - 1]);
            }
        }
    }
}

/// Every syllable of the database is a syllable of the inventory.
pub proof fn lemma_db_members(voc: Seq<Seq<char>>, db: Seq<Seq<char>>)
    requires
        db_syllables(voc, db) is Ok,
    ensures
        forall|k: int| 0 <= k < db_syllables(voc, db)->Ok_0.len()
            ==> voc.contains(#[trigger] db_syllables(voc, db)->Ok_0[k]),
    decreases db.len(),
{
    if db.len() > 0 {
        lemma_db_members(voc, db.drop_last());
        lemma_segment_members(voc, db.last(), 0);
        let p = db_syllables(voc, db.drop_last())->Ok_0;
        let s = segment(voc, db.last())->Ok_0;
        let all = db_syllables(voc, db)->Ok_0;
        assert(all == p + s);
        assert forall|k: int| 0 <= k < all.len() implies voc.contains(#[trigger] all[k]) by {
            if k < p.len() {
                assert(all[k] == p[k]);
            } else {
                assert(all[k] == s[k - p.len()]);
            }
        }
    }
}

/// The occurrences of the first `m` syllables of the inventory in `syls`.
pub open spec fn occurrence_total(voc: Seq<Seq<char>>, syls: Seq<Seq<char>>, m: int) -> int
    decreases m,
{
    if m <= 0 {
        0
    } else {
        occurrence_total(voc, syls, m - 1) + occurrences(voc, syls, m - 1)
    }
}

proof fn lemma_occurrence_total_step(voc: Seq<Seq<char>>, syls: Seq<Seq<char>>, m: int)
    requires
        syls.len() > 0,
        m >= 0,
    ensures
        occurrence_total(voc, syls, m) == occurrence_total(voc, syls.drop_last(), m)
            + if 0 <= index_of(voc, syls.last()) < m { 1int } else { 0int },
    decreases m,
{
    if m > 0 {
        lemma_occurrence_total_step(voc, syls, m - 1);
    }
}

/// Where every syllable of `syls` is in the inventory, the counts of the
/// inventory's syllables add up to the number of syllables.
pub proof fn lemma_occurrence_total(voc: Seq<Seq<char>>, syls: Seq<Seq<char>>)
    requires
        forall|k: int| 0 <= k < syls.len() ==> voc.contains(#[trigger] syls[k]),
    ensures
        occurrence_total(voc, syls, voc.len() as int) == syls.len(),
    decreases syls.len(),
{
    if syls.len() == 0 {
        assert(syls =~= Seq::<Seq<char>>::empty());
        lemma_occurrence_total_empty(voc, voc.len() as int);
    } else {
        let init = syls.drop_last();
        assert forall|k: int| 0 <= k < init.len() implies voc.contains(#[trigger] init[k]) by {
            assert(init[k] == syls[k]);
        }
        lemma_occurrence_total(voc, init);
        lemma_occurrence_total_step(voc, syls, voc.len() as int);
        let x = syls.last();
        assert(voc.contains(syls[syls.len() - 1]));
        let i = choose|i: int| 0 <= i < voc.len() && voc[i] == x;
        lemma_first_index(voc, x, i);
        let f = choose|f: int| 0 <= f <= i && voc[f] == x && forall|j: int| 0 <= j < f ==> voc[j] != x;
        lemma_index_of_found(voc, x, f);
    }
}

proof fn lemma_first_index(voc: Seq<Seq<char>>, x: Seq<char>, i: int)
    requires
        0 <= i < voc.len(),
        voc[i] == x,
    ensures
        exists|f: int| 0 <= f <= i && voc[f] == x && forall|j: int| 0 <= j < f ==> voc[j] != x,
    decreases i,
{
    if exists|j: int| 0 <= j < i && voc[j] == x {
        let j = choose|j: int| 0 <= j < i && voc[j] == x;
        lemma_first_index(voc, x, j);
    } else {
        assert(forall|j: int| 0 <= j < i ==> voc[j] != x);
    }
}

proof fn lemma_occurrence_total_empty(voc: Seq<Seq<char>>, m: int)
    ensures
        occurrence_total(voc, Seq::empty(), m) == 0,
    decreases m,
{
    if m > 0 {
        lemma_occurrence_total_empty(voc, m - 1);
    }
}

/// Counts that are the occurrences of each syllable add up to their total.
pub proof fn lemma_seq_sum_occurrences(voc: Seq<Seq<char>>, syls: Seq<Seq<char>>, counts: Seq<u32>)
    requires
        counts.len() == voc.len(),
        forall|i: int| 0 <= i < counts.len() ==> #[trigger] counts[i] == occurrences(voc, syls, i),
        forall|k: int| 0 <= k < syls.len() ==> voc.contains(#[trigger] syls[k]),
    ensures
        seq_sum(counts) == syls.len(),
{
    lemma_seq_sum_prefix(voc, syls, counts, counts.len() as int);
    assert(counts.take(counts.len() as int) =~= counts);
    lemma_occurrence_total(voc, syls);
}

proof fn lemma_seq_sum_prefix(voc: Seq<Seq<char>>, syls: Seq<Seq<char>>, counts: Seq<u32>, m: int)
    requires
        0 <= m <= counts.len(),
        forall|i: int| 0 <= i < counts.len() ==> #[trigger] counts[i] == occurrences(voc, syls, i),
    ensures
        seq_sum(counts.take(m)) == occurrence_total(voc, syls, m),
    decreases m,
{
    if m > 0 {
        assert(counts.take(m).drop_last() =~= counts.take(m - 1));
        lemma_seq_sum_prefix(voc, syls, counts, m - 1);
    }
}


/// One more use of entry `c` adds one to the sum.
pub proof fn lemma_seq_sum_increment(s: Seq<u32>, c: int)
    requires
        0 <= c < s.len(),
        s[c] < u32::MAX,
    ensures
        seq_sum(s.update(c, (s[c] + 1) as u32)) == seq_sum(s) + 1,
    decreases s.len(),
{
    let t = s.update(c, (s[c] + 1) as u32);
    if c == s.len() - 1 {
        assert(t.drop_last() =~= s.drop_last());
    } else {
        assert(t.drop_last() =~= s.drop_last().update(c, (s[c] + 1) as u32));
        lemma_seq_sum_increment(s.drop_last(), c);
    }
}

} // verus!

verus! {

/// `piece` is a syllable that `w` continues with from offset `o`, and no
/// longer syllable of the inventory is.
pub open spec fn longest_at(voc: Seq<Seq<char>>, w: Seq<char>, o: int, piece: Seq<char>) -> bool {
    let rest = w.subrange(o, w.len() as int);
    &&& voc.contains(piece)
    &&& is_prefix(piece, rest)
    &&& forall|j: int| 0 <= j < voc.len() && is_prefix(#[trigger] voc[j], rest) ==> voc[j].len() <= piece.len()
}

/// The pieces of a successful segmentation from offset `o` join to the rest
/// of the word, and each is the longest syllable at its own offset.
pub proof fn lemma_segment_from_longest(voc: Seq<Seq<char>>, w: Seq<char>, o: int)
    requires
        0 <= o <= w.len(),
        segment_from(voc, w, o) is Ok,
    ensures
        concat(segment_from(voc, w, o)->Ok_0) == w.subrange(o, w.len() as int),
        forall|i: int| 0 <= i < segment_from(voc, w, o)->Ok_0.len() ==> longest_at(
            voc,
            w,
            o + concat(segment_from(voc, w, o)->Ok_0.take(i)).len(),
            #[trigger] segment_from(voc, w, o)->Ok_0[i],
        ),
    decreases w.len() - o,
{
    let v = segment_from(voc, w, o)->Ok_0;
    if o == w.len() {
        assert(w.subrange(o, w.len() as int) =~= Seq::<char>::empty());
    } else {
        let rem = w.len() - o;
        let max = max_syllable_len(voc) as int;
        let min = min_syllable_len(voc) as int;
        let start = if max < rem { max } else { rem };
        lemma_match_len_result(voc, w, o, start, min);
        let l = match_len(voc, w, o, start, min)->Some_0;
        let p = w.subrange(o, o + l);
        lemma_segment_from_longest(voc, w, o + l);
        let rest = segment_from(voc, w, o + l)->Ok_0;
        assert(v == seq![p] + rest);
        assert(v[0] == p);
        assert(v.drop_first() =~= rest);
        assert(concat(v) == p + concat(rest));
        assert(w.subrange(o, w.len() as int) =~= p + w.subrange(o + l, w.len() as int));
        assert forall|i: int| 0 <= i < v.len() implies longest_at(voc, w, o + concat(v.take(i)).len(), #[trigger] v[i]) by {
            if i == 0 {
                assert(v.take(0) =~= Seq::<Seq<char>>::empty());
                assert(concat(v.take(0)) == Seq::<char>::empty());
                let r = w.subrange(o, w.len() as int);
                assert(r.subrange(0, l) =~= p);
                assert forall|j: int| 0 <= j < voc.len() && is_prefix(#[trigger] voc[j], r) implies voc[j].len() <= l by {
                    lemma_max_min_bound(voc, j);
                    if voc[j].len() > l {
                        let k = voc[j].len() as int;
                        assert(k <= start);
                        assert(w.subrange(o, o + k) =~= r.subrange(0, k));
                        assert(voc.contains(w.subrange(o, o + k)));
                    }
                }
            } else {
                assert(v.take(i).drop_first() =~= rest.take(i - 1));
                assert(v.take(i)[0] == p);
                assert(concat(v.take(i)) == p + concat(rest.take(i - 1)));
                assert(v[i] == rest[i - 1]);
                assert(longest_at(voc, w, o + l + concat(rest.take(i - 1)).len(), rest[i - 1]));
            }
        }
    }
}

/// Longest match at every step: where a word splits, its pieces join back
/// to the word, and each piece is the longest syllable of the inventory
/// that the word continues with where that piece starts.
pub proof fn lemma_segment_longest_everywhere(voc: Seq<Seq<char>>, w: Seq<char>)
    requires
        segment(voc, w) is Ok,
    ensures
        concat(segment(voc, w)->Ok_0) == w,
        forall|i: int| 0 <= i < segment(voc, w)->Ok_0.len() ==> longest_at(
            voc,
            w,
            concat(segment(voc, w)->Ok_0.take(i)).len() as int,
            #[trigger] segment(voc, w)->Ok_0[i],
        ),
{
    lemma_segment_from_longest(voc, w, 0);
    assert(w.subrange(0, w.len() as int) =~= w);
    assert forall|i: int| 0 <= i < segment(voc, w)->Ok_0.len() implies longest_at(
        voc,
        w,
        concat(segment(voc, w)->Ok_0.take(i)).len() as int,
        #[trigger] segment(voc, w)->Ok_0[i],
    ) by {
        assert(0 + concat(segment(voc, w)->Ok_0.take(i)).len() == concat(segment(voc, w)->Ok_0.take(i)).len());
    }
}

} // verus!
