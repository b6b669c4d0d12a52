use crate::config::{syllable_views, Vocabulary, TARGET_SCALE};
use crate::error::LangErr;
use crate::rangen::{gen_index, seeded_rng};
use crate::realrandom::{generated_word, lemma_concat_push, valid_word};
use crate::syllables::{
    concat, count_occurrences, db_syllables, is_syllable_pos_valid, lemma_db_members, lemma_seq_sum_increment,
    lemma_seq_sum_occurrences, occurrences, pos_valid, seq_sum, total_chars,
};
use rand::rngs::StdRng;
use vstd::prelude::*;
use vstd::string::StringExecFns;

verus! {

/// The share of the inventory, in percent, from which each slot's
/// syllable is drawn.
pub const TOP_PERCENT: u64 = 15;

/// How many of the best-ranked allowed syllables a slot draws from, for an
/// inventory of `n` syllables: `TOP_PERCENT` percent of it, rounded down,
/// and at least one.
pub open spec fn pool_size(n: int) -> int {
    if n * TOP_PERCENT / 100 < 1 {
        1
    } else {
        n * TOP_PERCENT / 100
    }
}

pub open spec fn abs_diff(a: int, b: int) -> int {
    if a >= b {
        a - b
    } else {
        b - a
    }
}

/// The count of syllable `s` if syllable `c` were drawn next.
pub open spec fn adjusted(counts: Seq<u32>, c: int, s: int) -> int {
    counts[s] + if s == c { 1int } else { 0int }
}

/// `TARGET_SCALE * sum` times the sum, over the first `m` syllables, of how
/// far each one's frequency would be from its target if `c` were drawn
/// next: `|wanted(s) / TARGET_SCALE - adjusted(s) / sum|`. The frequency
/// keeps the running total from before the draw as its denominator.
pub open spec fn deviation(wanted: Seq<u32>, counts: Seq<u32>, sum: int, c: int, m: int) -> int
    decreases m,
{
    if m <= 0 {
        0
    } else {
        deviation(wanted, counts, sum, c, m - 1)
            + abs_diff(wanted[m - 1] * sum, adjusted(counts, c, m - 1) * TARGET_SCALE)
    }
}

/// The score of candidate `c`: lower is closer to the targets.
pub open spec fn score(cfg: &Vocabulary, counts: Seq<u32>, sum: int, c: int) -> int {
    deviation(cfg.wanted@, counts, sum, c, counts.len() as int)
}

/// Candidate `d` ranks before candidate `c`: a lower score, or an equal
/// score and an earlier place in the inventory.
pub open spec fn precedes(cfg: &Vocabulary, counts: Seq<u32>, sum: int, d: int, c: int) -> bool {
    score(cfg, counts, sum, d) < score(cfg, counts, sum, c)
        || (score(cfg, counts, sum, d) == score(cfg, counts, sum, c) && d < c)
}

/// Syllable `c` of the inventory may stand at index `pos` of a word of
/// `len` syllables.
pub open spec fn slot_valid(cfg: &Vocabulary, c: int, pos: int, len: int) -> bool {
    pos_valid(cfg, cfg.voc()[c], pos, len)
}

/// How many allowed candidates among the first `m` rank before `c`.
pub open spec fn rank(cfg: &Vocabulary, counts: Seq<u32>, sum: int, pos: int, len: int, c: int, m: int) -> nat
    decreases m,
{
    if m <= 0 {
        0
    } else {
        rank(cfg, counts, sum, pos, len, c, m - 1) + if slot_valid(cfg, m - 1, pos, len) && precedes(
            cfg,
            counts,
            sum,
            m - 1,
            c,
        ) {
            1nat
        } else {
            0nat
        }
    }
}

/// No syllable of the inventory may stand at index `pos` of a word of
/// `len` syllables.
pub open spec fn slot_blocked(cfg: &Vocabulary, pos: int, len: int) -> bool {
    forall|c: int| 0 <= c < cfg.voc().len() ==> !#[trigger] slot_valid(cfg, c, pos, len)
}

/// Candidate `c` is among the `pool_size` best-ranked candidates that may
/// stand at the slot.
pub open spec fn in_pool(cfg: &Vocabulary, counts: Seq<u32>, sum: int, pos: int, len: int, c: int) -> bool {
    &&& 0 <= c < counts.len()
    &&& slot_valid(cfg, c, pos, len)
    &&& rank(cfg, counts, sum, pos, len, c, counts.len() as int) < pool_size(counts.len() as int)
}

proof fn lemma_rank_zero(cfg: &Vocabulary, counts: Seq<u32>, sum: int, pos: int, len: int, c: int, m: int)
    requires
        forall|d: int| 0 <= d < m ==> !(slot_valid(cfg, d, pos, len) && #[trigger] precedes(cfg, counts, sum, d, c)),
    ensures
        rank(cfg, counts, sum, pos, len, c, m) == 0,
    decreases m,
{
    if m > 0 {
        lemma_rank_zero(cfg, counts, sum, pos, len, c, m - 1);
    }
}

/// Among the allowed candidates below `m`, if any, one has no allowed
/// candidate below `m` ranked before it.
proof fn lemma_best_candidate(cfg: &Vocabulary, counts: Seq<u32>, sum: int, pos: int, len: int, m: int) -> (b: int)
    requires
        exists|c: int| 0 <= c < m && #[trigger] slot_valid(cfg, c, pos, len),
    ensures
        0 <= b < m,
        slot_valid(cfg, b, pos, len),
        forall|d: int| 0 <= d < m ==> !(slot_valid(cfg, d, pos, len) && #[trigger] precedes(cfg, counts, sum, d, b)),
    decreases m,
{
    if exists|c: int| 0 <= c < m - 1 && #[trigger] slot_valid(cfg, c, pos, len) {
        let b1 = lemma_best_candidate(cfg, counts, sum, pos, len, m - 1);
        if slot_valid(cfg, m - 1, pos, len) && precedes(cfg, counts, sum, m - 1, b1) {
            assert forall|d: int| 0 <= d < m implies !(slot_valid(cfg, d, pos, len) && #[trigger] precedes(cfg, counts, sum, d, m - 1)) by {
                if d < m - 1 && slot_valid(cfg, d, pos, len) && precedes(cfg, counts, sum, d, m - 1) {
                    assert(precedes(cfg, counts, sum, d, b1));
                }
            }
            m - 1
        } else {
            b1
        }
    } else {
        m - 1
    }
}

proof fn lemma_deviation_gap(wanted: Seq<u32>, counts: Seq<u32>, sum: int, a: int, b: int, m: int)
    requires
        0 <= a < counts.len(),
        0 <= b < counts.len(),
        a != b,
        m <= counts.len(),
        (counts[a] + 1) * TARGET_SCALE <= wanted[a] * sum,
        counts[b] * TARGET_SCALE >= wanted[b] * sum,
    ensures
        deviation(wanted, counts, sum, a, m) + TARGET_SCALE * ((if a < m { 1int } else { 0int }) + (if b < m { 1int } else { 0int }))
            == deviation(wanted, counts, sum, b, m),
    decreases m,
{
    if m > 0 {
        lemma_deviation_gap(wanted, counts, sum, a, b, m - 1);
    }
}

/// Feedback toward the targets: a syllable that stays within its target
/// even after one more use scores `2 * TARGET_SCALE` lower, and so ranks
/// before, a syllable already at or over its target.
pub proof fn lemma_under_target_ranks_first(cfg: &Vocabulary, counts: Seq<u32>, sum: int, a: int, b: int)
    requires
        counts.len() == cfg.wanted@.len(),
        0 <= a < counts.len(),
        0 <= b < counts.len(),
        a != b,
        (counts[a] + 1) * TARGET_SCALE <= cfg.wanted@[a] * sum,
        counts[b] * TARGET_SCALE >= cfg.wanted@[b] * sum,
    ensures
        score(cfg, counts, sum, a) + 2 * TARGET_SCALE == score(cfg, counts, sum, b),
        precedes(cfg, counts, sum, a, b),
{
    lemma_deviation_gap(cfg.wanted@, counts, sum, a, b, counts.len() as int);
}

/// The counts after the given draws, each a triple of the inventory index
/// drawn, the slot and the word length.
pub open spec fn counts_after(counts: Seq<u32>, pulls: Seq<(int, int, int)>) -> Seq<u32>
    decreases pulls.len(),
{
    if pulls.len() == 0 {
        counts
    } else {
        let before = counts_after(counts, pulls.drop_last());
        let c = pulls.last().0;
        before.update(c, (before[c] + 1) as u32)
    }
}

/// Each draw came from the candidate pool of its slot, in the state that
/// the draws before it left.
pub open spec fn pulls_from_pools(cfg: &Vocabulary, counts: Seq<u32>, sum: int, pulls: Seq<(int, int, int)>) -> bool
    decreases pulls.len(),
{
    pulls.len() == 0 || {
        let prev = pulls.drop_last();
        let x = pulls.last();
        &&& pulls_from_pools(cfg, counts, sum, prev)
        &&& in_pool(cfg, counts_after(counts, prev), sum + prev.len(), x.1, x.2, x.0)
    }
}

/// The draws of all words, in order.
pub open spec fn flatten(parts: Seq<Seq<(int, int, int)>>) -> Seq<(int, int, int)>
    decreases parts.len(),
{
    if parts.len() == 0 {
        Seq::empty()
    } else {
        flatten(parts.drop_last()) + parts.last()
    }
}

/// The syllables that draws picked.
pub open spec fn drawn_syllables(cfg: &Vocabulary, part: Seq<(int, int, int)>) -> Seq<Seq<char>> {
    part.map_values(|x: (int, int, int)| cfg.voc()[x.0])
}

/// `part` holds the draws of a word `w` of `min..=max` syllables, one per
/// slot from left to right.
pub open spec fn word_part(cfg: &Vocabulary, part: Seq<(int, int, int)>, w: Seq<char>, min: int, max: int) -> bool {
    &&& min <= part.len() <= max
    &&& forall|i: int| 0 <= i < part.len() ==> (#[trigger] part[i]).1 == i && part[i].2 == part.len()
        && 0 <= part[i].0 < cfg.voc().len()
    &&& concat(drawn_syllables(cfg, part)) == w
}

/// `parts` holds the draws of each word of `words`.
pub open spec fn word_parts(cfg: &Vocabulary, parts: Seq<Seq<(int, int, int)>>, words: Seq<String>, min: int, max: int) -> bool {
    &&& parts.len() == words.len()
    &&& forall|j: int| 0 <= j < parts.len() ==> #[trigger] word_part(cfg, parts[j], words[j]@, min, max)
}

/// `words` are made of draws, one per slot, each from the candidate pool
/// of its slot given the draws before it, which take the counts from
/// `counts`, `sum` to `counts2`, `sum2`.
pub open spec fn made_by_pulls(
    cfg: &Vocabulary,
    counts: Seq<u32>,
    sum: int,
    counts2: Seq<u32>,
    sum2: int,
    words: Seq<String>,
    min: int,
    max: int,
) -> bool {
    exists|parts: Seq<Seq<(int, int, int)>>| #[trigger] word_parts(cfg, parts, words, min, max)
        && pulls_from_pools(cfg, counts, sum, flatten(parts))
        && counts2 == counts_after(counts, flatten(parts))
        && sum2 == sum + flatten(parts).len()
}

proof fn lemma_rank_positive(cfg: &Vocabulary, counts: Seq<u32>, sum: int, pos: int, len: int, c: int, d: int, m: int)
    requires
        0 <= d < m,
        slot_valid(cfg, d, pos, len),
        precedes(cfg, counts, sum, d, c),
    ensures
        rank(cfg, counts, sum, pos, len, c, m) >= 1,
    decreases m,
{
    if d < m - 1 {
        lemma_rank_positive(cfg, counts, sum, pos, len, c, d, m - 1);
    }
}

/// With two syllables that may both stand at a slot, one that stays within
/// its target even after one more use, and one at or over its target, the
/// pool of the slot holds the first alone: a draw there picks it.
pub proof fn lemma_under_target_is_pulled(cfg: &Vocabulary, counts: Seq<u32>, sum: int, pos: int, len: int, a: int, b: int, c: int)
    requires
        counts.len() == 2,
        counts.len() == cfg.wanted@.len(),
        counts.len() == cfg.voc().len(),
        0 <= a < 2,
        0 <= b < 2,
        a != b,
        slot_valid(cfg, a, pos, len),
        (counts[a] + 1) * TARGET_SCALE <= cfg.wanted@[a] * sum,
        counts[b] * TARGET_SCALE >= cfg.wanted@[b] * sum,
        in_pool(cfg, counts, sum, pos, len, c),
    ensures
        c == a,
{
    lemma_under_target_ranks_first(cfg, counts, sum, a, b);
    if c != a {
        assert(c == b);
        lemma_rank_positive(cfg, counts, sum, pos, len, c, a, 2);
        assert(pool_size(2) == 1);
    }
}

/// The distance between two numbers.
fn abs_diff_exec(a: u128, b: u128) -> (r: u128)
    ensures
        r == abs_diff(a as int, b as int),
{
    if a >= b {
        a - b
    } else {
        b - a
    }
}

/// How many allowed candidates rank before `c`, given the scores and
/// which candidates are allowed.
fn rank_of(sc: &Vec<u128>, valid: &Vec<bool>, c: usize) -> (r: usize)
    requires
        sc@.len() == valid@.len(),
        c < sc@.len(),
    ensures
        r == rank_count(sc@, valid@, c as int, sc@.len() as int),
{
    let n = sc.len();
    let mut before: usize = 0;
    let mut d: usize = 0;
    while d < n
        invariant
            n == sc@.len(),
            n == valid@.len(),
            c < n,
            d <= n,
            before <= d,
            before == rank_count(sc@, valid@, c as int, d as int),
        decreases n - d,
    {
        if valid[d] && (sc[d] < sc[c] || (sc[d] == sc[c] && d < c)) {
            before = before + 1;
        }
        d = d + 1;
    }
    before
}

/// `rank` over given scores and allowed flags.
pub open spec fn rank_count(sc: Seq<u128>, valid: Seq<bool>, c: int, m: int) -> nat
    decreases m,
{
    if m <= 0 {
        0
    } else {
        rank_count(sc, valid, c, m - 1) + if valid[m - 1] && (sc[m - 1] < sc[c] || (sc[m - 1] == sc[c] && m - 1 < c)) {
            1nat
        } else {
            0nat
        }
    }
}

proof fn lemma_rank_count(cfg: &Vocabulary, counts: Seq<u32>, sum: int, pos: int, len: int, sc: Seq<u128>, valid: Seq<bool>, c: int, m: int)
    requires
        0 <= m <= sc.len(),
        0 <= c < sc.len(),
        valid.len() == sc.len(),
        forall|d: int| 0 <= d < sc.len() ==> #[trigger] sc[d] == score(cfg, counts, sum, d),
        forall|d: int| 0 <= d < sc.len() ==> #[trigger] valid[d] == slot_valid(cfg, d, pos, len),
    ensures
        rank_count(sc, valid, c, m) == rank(cfg, counts, sum, pos, len, c, m),
    decreases m,
{
    if m > 0 {
        lemma_rank_count(cfg, counts, sum, pos, len, sc, valid, c, m - 1);
        assert(sc[m - 1] == score(cfg, counts, sum, m - 1));
        assert(sc[c] == score(cfg, counts, sum, c));
        assert(valid[m - 1] == slot_valid(cfg, m - 1, pos, len));
    }
}

/// Picks syllables so that the running syllable counts move toward the
/// target frequencies: each slot draws uniformly among the best-ranked
/// syllables that may stand there.
pub struct CalculatedRandom {
    occ_count: Vec<u32>,
    sum: u32,
    rng: StdRng,
}

impl CalculatedRandom {
    /// The running count of each syllable of the inventory.
    pub closed spec fn counts(&self) -> Seq<u32> {
        self.occ_count@
    }

    /// The running number of syllables counted.
    pub closed spec fn sum(&self) -> nat {
        self.sum as nat
    }

    /// The running number of syllables counted.
    pub fn total(&self) -> (r: u32)
        ensures
            r == self.sum(),
    {
        self.sum
    }

    /// The running count of syllable `i`.
    pub fn count_of(&self, i: usize) -> (r: u32)
        requires
            i < self.counts().len(),
        ensures
            r == self.counts()[i as int],
    {
        self.occ_count[i]
    }

    /// One count per syllable, adding up to the running total.
    pub open spec fn inv(&self, cfg: &Vocabulary) -> bool {
        &&& cfg.wf()
        &&& self.counts().len() == cfg.syllables@.len()
        &&& seq_sum(self.counts()) == self.sum()
        &&& forall|i: int| 0 <= i < self.counts().len() ==> #[trigger] self.counts()[i] <= self.sum()
    }

    /// A generator whose counts are those of the database and whose random
    /// stream is fixed by `seed`. Fails where a database word cannot be
    /// split into syllables.
    pub fn with_config(cfg: &Vocabulary, seed: u64) -> (r: Result<CalculatedRandom, LangErr>)
        requires
            cfg.wf(),
            total_chars(syllable_views(cfg.database@)) <= u32::MAX,
        ensures
            match (r, db_syllables(cfg.voc(), syllable_views(cfg.database@))) {
                (Ok(e), Ok(s)) => e.inv(cfg) && e.sum() == s.len()
                    && forall|i: int| 0 <= i < cfg.syllables@.len() ==> #[trigger] e.counts()[i] == occurrences(cfg.voc(), s, i),
                (Err(LangErr::InvalidSyllable(p)), Err(x)) => p@ == x,
                _ => false,
            },
    {
        match count_occurrences(cfg) {
            Ok((occ_count, sum)) => {
                proof {
                    let s = db_syllables(cfg.voc(), syllable_views(cfg.database@))->Ok_0;
                    lemma_db_members(cfg.voc(), syllable_views(cfg.database@));
                    lemma_seq_sum_occurrences(cfg.voc(), s, occ_count@);
                }
                Ok(CalculatedRandom { occ_count, sum, rng: seeded_rng(seed) })
            },
            Err(e) => Err(e),
        }
    }

    /// The score of candidate `c`, as `score` states it.
    fn deviation_of(&self, cfg: &Vocabulary, c: usize) -> (r: u128)
        requires
            self.inv(cfg),
        ensures
            r == score(cfg, self.counts(), self.sum() as int, c as int),
    {
        let n = self.occ_count.len();
        let mut acc: u128 = 0;
        let mut s: usize = 0;
        while s < n
            invariant
                self.inv(cfg),
                n == self.counts().len(),
                s <= n,
                acc == deviation(cfg.wanted@, self.counts(), self.sum() as int, c as int, s as int),
                acc <= s * 0x1_0000_0000_0000_0000,
            decreases n - s,
        {
            let w = cfg.wanted[s] as u128;
            let total = self.sum as u128;
            proof {
                assert(w * total <= 0xFFFF_FFFF * 0xFFFF_FFFF) by (nonlinear_arith)
                    requires
                        w <= 0xFFFF_FFFF,
                        total <= 0xFFFF_FFFF,
                ;
            }
            let target = w * total;
            let adj: u128 = if s == c {
                self.occ_count[s] as u128 + 1
            } else {
                self.occ_count[s] as u128
            };
            proof {
                assert(adj * 1_000_000 <= 0x1_0000_0000 * 1_000_000) by (nonlinear_arith)
                    requires
                        adj <= 0x1_0000_0000,
                ;
            }
            let got = adj * (TARGET_SCALE as u128);
            let d = abs_diff_exec(target, got);
            acc = acc + d;
            s = s + 1;
        }
        acc
    }

    /// The score of every candidate, in inventory order.
    fn scores(&self, cfg: &Vocabulary) -> (r: Vec<u128>)
        requires
            self.inv(cfg),
        ensures
            r@.len() == self.counts().len(),
            forall|c: int| 0 <= c < r@.len() ==> #[trigger] r@[c] == score(cfg, self.counts(), self.sum() as int, c),
    {
        let n = self.occ_count.len();
        let mut r: Vec<u128> = Vec::new();
        let mut c: usize = 0;
        while c < n
            invariant
                self.inv(cfg),
                n == self.counts().len(),
                c <= n,
                r@.len() == c,
                forall|d: int| 0 <= d < c ==> #[trigger] r@[d] == score(cfg, self.counts(), self.sum() as int, d),
            decreases n - c,
        {
            r.push(self.deviation_of(cfg, c));
            c = c + 1;
        }
        r
    }

    /// The candidates that a draw for index `pos` of a word of `len`
    /// syllables chooses among, in inventory order.
    pub fn candidate_pool(&self, pos: usize, len: usize, cfg: &Vocabulary) -> (r: Vec<usize>)
        requires
            self.inv(cfg),
            pos < len,
        ensures
            forall|i: int| 0 <= i < r@.len() ==> in_pool(cfg, self.counts(), self.sum() as int, pos as int, len as int, #[trigger] r@[i] as int),
            forall|i: int, j: int| 0 <= i < j < r@.len() ==> r@[i] < r@[j],
            forall|c: int| in_pool(cfg, self.counts(), self.sum() as int, pos as int, len as int, c) ==> r@.contains(c as usize),
    {
        let ghost counts = self.counts();
        let ghost sum = self.sum() as int;
        let n = self.occ_count.len();
        let sc = self.scores(cfg);
        let mut valid: Vec<bool> = Vec::new();
        let mut c: usize = 0;
        while c < n
            invariant
                self.inv(cfg),
                pos < len,
                counts == self.counts(),
                n == counts.len(),
                c <= n,
                valid@.len() == c,
                forall|d: int| 0 <= d < c ==> #[trigger] valid@[d] == slot_valid(cfg, d, pos as int, len as int),
            decreases n - c,
        {
            valid.push(is_syllable_pos_valid(cfg.syllables[c].as_str(), pos, len, cfg));
            c = c + 1;
        }
        let wanted_count = ((n as u128) * (TOP_PERCENT as u128) / 100) as usize;
        let size = if wanted_count < 1 { 1 } else { wanted_count };
        let mut pool: Vec<usize> = Vec::new();
        let mut c: usize = 0;
        while c < n
            invariant
                self.inv(cfg),
                counts == self.counts(),
                sum == self.sum() as int,
                n == counts.len(),
                c <= n,
                size == pool_size(n as int),
                sc@.len() == n,
                forall|d: int| 0 <= d < n ==> #[trigger] sc@[d] == score(cfg, counts, sum, d),
                valid@.len() == n,
                forall|d: int| 0 <= d < n ==> #[trigger] valid@[d] == slot_valid(cfg, d, pos as int, len as int),
                forall|i: int| 0 <= i < pool@.len() ==> in_pool(cfg, counts, sum, pos as int, len as int, #[trigger] pool@[i] as int),
                forall|i: int| 0 <= i < pool@.len() ==> #[trigger] pool@[i] < c,
                forall|i: int, j: int| 0 <= i < j < pool@.len() ==> pool@[i] < pool@[j],
                forall|d: int| 0 <= d < c && in_pool(cfg, counts, sum, pos as int, len as int, d) ==> pool@.contains(d as usize),
            decreases n - c,
        {
            let ghost old_pool = pool@;
            if valid[c] {
                let before = rank_of(&sc, &valid, c);
                proof {
                    lemma_rank_count(cfg, counts, sum, pos as int, len as int, sc@, valid@, c as int, n as int);
                }
                if before < size {
                    pool.push(c);
                }
            }
            proof {
                assert forall|e: int| 0 <= e < c + 1 && in_pool(cfg, counts, sum, pos as int, len as int, e)
                    implies pool@.contains(e as usize) by {
                    if e < c {
                        let k = choose|k: int| 0 <= k < old_pool.len() && old_pool[k] == e as usize;
                        assert(pool@[k] == e as usize);
                    } else {
                        assert(pool@[pool@.len() - 1] == c);
                    }
                }
            }
            c = c + 1;
        }
        pool
    }

    /// Counts one more use of candidate `c` and hands out its syllable.
    pub fn take_candidate(&mut self, c: usize, cfg: &Vocabulary) -> (r: String)
        requires
            old(self).inv(cfg),
            c < old(self).counts().len(),
            old(self).sum() < u32::MAX,
        ensures
            final(self).inv(cfg),
            final(self).counts() == old(self).counts().update(c as int, (old(self).counts()[c as int] + 1) as u32),
            final(self).sum() == old(self).sum() + 1,
            r@ == cfg.voc()[c as int],
    {
        proof {
            lemma_seq_sum_increment(self.counts(), c as int);
        }
        let v = self.occ_count[c] + 1;
        self.occ_count.set(c, v);
        self.sum = self.sum + 1;
        String::from_str(cfg.syllables[c].as_str())
    }

    /// A syllable for index `pos` of a word of `len` syllables, drawn
    /// uniformly from the candidate pool, whose use is then counted. Fails,
    /// and changes nothing, exactly where no syllable may stand there.
    pub fn pull_syllable(&mut self, pos: usize, len: usize, cfg: &Vocabulary) -> (r: Result<String, LangErr>)
        requires
            old(self).inv(cfg),
            pos < len,
            old(self).sum() < u32::MAX,
        ensures
            final(self).inv(cfg),
            match r {
                Ok(s) => exists|c: int|
                    #[trigger] in_pool(cfg, old(self).counts(), old(self).sum() as int, pos as int, len as int, c)
                        && s@ == cfg.voc()[c]
                        && final(self).counts() == old(self).counts().update(c, (old(self).counts()[c] + 1) as u32)
                        && final(self).sum() == old(self).sum() + 1,
                Err(e) => e == LangErr::NoValidCandidate
                    && final(self).counts() == old(self).counts()
                    && final(self).sum() == old(self).sum(),
            },
            r is Err <==> forall|c: int| 0 <= c < cfg.voc().len() ==> !#[trigger] slot_valid(cfg, c, pos as int, len as int),
    {
        let pool = self.candidate_pool(pos, len, cfg);
        if pool.len() == 0 {
            proof {
                let counts = self.counts();
                let sum = self.sum() as int;
                if exists|c: int| 0 <= c < cfg.voc().len() && #[trigger] slot_valid(cfg, c, pos as int, len as int) {
                    let b = lemma_best_candidate(cfg, counts, sum, pos as int, len as int, counts.len() as int);
                    lemma_rank_zero(cfg, counts, sum, pos as int, len as int, b, counts.len() as int);
                    assert(in_pool(cfg, counts, sum, pos as int, len as int, b));
                    assert(pool@.contains(b as usize));
                }
            }
            return Err(LangErr::NoValidCandidate);
        }
        let i = gen_index(&mut self.rng, 0, pool.len());
        let c = pool[i];
        let ghost before = *self;
        let s = self.take_candidate(c, cfg);
        proof {
            assert(in_pool(cfg, before.counts(), before.sum() as int, pos as int, len as int, c as int));
            assert(slot_valid(cfg, c as int, pos as int, len as int));
        }
        Ok(s)
    }

    /// Generates `count` words, each of a length drawn uniformly from
    /// `min_len..=max_len`, filled slot by slot from left to right, every
    /// slot seeing the counts left by the slots before it. Fails as soon as
    /// one slot cannot be filled.
    pub fn create_words(&mut self, min_len: u32, max_len: u32, count: u32, cfg: &Vocabulary) -> (r: Result<Vec<String>, LangErr>)
        requires
            old(self).inv(cfg),
            min_len <= max_len < u32::MAX,
            old(self).sum() + count * max_len < u32::MAX,
        ensures
            final(self).inv(cfg),
            match r {
                Ok(words) => words@.len() == count
                    && (forall|i: int| 0 <= i < count ==> generated_word(cfg, #[trigger] words@[i]@, min_len as int, max_len as int))
                    && made_by_pulls(cfg, old(self).counts(), old(self).sum() as int, final(self).counts(),
                        final(self).sum() as int, words@, min_len as int, max_len as int),
                Err(e) => e == LangErr::NoValidCandidate && exists|len: int, pos: int|
                    min_len <= len <= max_len && 0 <= pos < len && #[trigger] slot_blocked(cfg, pos, len),
            },
            count == 0 ==> r is Ok,
    {
        let ghost c0 = self.counts();
        let ghost s0 = self.sum() as int;
        let ghost mut parts: Seq<Seq<(int, int, int)>> = Seq::empty();
        let mut result: Vec<String> = Vec::new();
        let mut nth: u32 = 0;
        while nth < count
            invariant
                self.inv(cfg),
                min_len <= max_len < u32::MAX,
                nth <= count,
                self.sum() + (count - nth) * max_len < u32::MAX,
                result@.len() == nth,
                forall|i: int| 0 <= i < nth ==> generated_word(cfg, #[trigger] result@[i]@, min_len as int, max_len as int),
                c0 == old(self).counts(),
                s0 == old(self).sum(),
                word_parts(cfg, parts, result@, min_len as int, max_len as int),
                pulls_from_pools(cfg, c0, s0, flatten(parts)),
                self.counts() == counts_after(c0, flatten(parts)),
                self.sum() == s0 + flatten(parts).len(),
            decreases count - nth,
        {
            let chosen = gen_index(&mut self.rng, min_len as usize, max_len as usize + 1);
            proof {
                assert((count - nth) * max_len == (count - nth - 1) * max_len + max_len) by (nonlinear_arith);
                assert((count - nth - 1) * max_len >= 0) by (nonlinear_arith)
                    requires
                        count - nth - 1 >= 0,
                ;
            }
            let mut word = String::new();
            let ghost mut syls: Seq<Seq<char>> = Seq::empty();
            let ghost mut cur: Seq<(int, int, int)> = Seq::empty();
            proof {
                assert(flatten(parts) + cur =~= flatten(parts));
            }
            let mut pos: usize = 0;
            while pos < chosen
                invariant
                    self.inv(cfg),
                    cur.len() == pos,
                    forall|i: int| 0 <= i < pos ==> (#[trigger] cur[i]).1 == i && cur[i].2 == chosen
                        && 0 <= cur[i].0 < cfg.voc().len(),
                    drawn_syllables(cfg, cur) == syls,
                    pulls_from_pools(cfg, c0, s0, flatten(parts) + cur),
                    self.counts() == counts_after(c0, flatten(parts) + cur),
                    self.sum() == s0 + (flatten(parts) + cur).len(),
                    min_len <= chosen <= max_len,
                    nth < count,
                    pos <= chosen,
                    self.sum() + (count - nth - 1) * max_len + (chosen - pos) < u32::MAX,
                    (count - nth - 1) * max_len >= 0,
                    syls.len() == pos,
                    concat(syls) == word@,
                    forall|k: int| 0 <= k < pos ==> cfg.voc().contains(#[trigger] syls[k]),
                    forall|k: int| 0 <= k < pos ==> pos_valid(cfg, #[trigger] syls[k], k, chosen as int),
                decreases chosen - pos,
            {
                let ghost before = *self;
                let s = match self.pull_syllable(pos, chosen, cfg) {
                    Ok(s) => s,
                    Err(e) => {
                        proof {
                            assert(slot_blocked(cfg, pos as int, chosen as int));
                        }
                        return Err(e);
                    },
                };
                proof {
                    let c = choose|c: int|
                        #[trigger] in_pool(cfg, before.counts(), before.sum() as int, pos as int, chosen as int, c)
                            && s@ == cfg.voc()[c]
                            && self.counts() == before.counts().update(c, (before.counts()[c] + 1) as u32)
                            && self.sum() == before.sum() + 1;
                    assert(cfg.voc()[c] == s@);
                    assert(slot_valid(cfg, c, pos as int, chosen as int));
                    lemma_concat_push(syls, s@);
                    syls = syls.push(s@);
                    let x = (c, pos as int, chosen as int);
                    let steps = flatten(parts) + cur;
                    assert((flatten(parts) + cur.push(x)) =~= steps.push(x));
                    assert(steps.push(x).drop_last() =~= steps);
                    cur = cur.push(x);
                    assert(drawn_syllables(cfg, cur) =~= syls);
                }
                word.append(s.as_str());
                pos = pos + 1;
            }
            proof {
                assert(valid_word(cfg, syls, min_len as int, max_len as int));
                assert(word_part(cfg, cur, word@, min_len as int, max_len as int));
                let old_parts = parts;
                parts = parts.push(cur);
                assert(parts.drop_last() =~= old_parts);
                assert(flatten(parts) == flatten(old_parts) + cur);
            }
            let ghost old_result = result@;
            result.push(word);
            proof {
                assert forall|j: int| 0 <= j < parts.len() implies #[trigger] word_part(cfg, parts[j], result@[j]@, min_len as int, max_len as int) by {
                    if j < parts.len() - 1 {
                        assert(result@[j] == old_result[j]);
                    }
                }
            }
            nth = nth + 1;
        }
        proof {
            assert(word_parts(cfg, parts, result@, min_len as int, max_len as int));
            assert(made_by_pulls(cfg, c0, s0, self.counts(), self.sum() as int, result@, min_len as int, max_len as int));
        }
        Ok(result)
    }
}

} // verus!
