//! Per-card answer statistics and the performance model that turns them
//! into sampling weights. A card's weight is the exact rational
//! `1 / (max(correct - incorrect, 0) + 1) + max(incorrect - correct, 0)`:
//! mastered cards shrink toward zero weight, missed cards grow linearly.
//! The statistics map is an association list keyed by `CardId`, viewed as
//! a map from identity strings to counters.

use crate::deck::CardId;
use vstd::pervasive::VecAdditionalExecFns;
use vstd::prelude::*;

verus! {

/// An error of loading or saving statistics. The reading variants carry
/// the path and the reader's message as plain strings.
#[derive(Debug)]
pub enum StatsError {
    NoHomeDirError,
    ConfigIsDir(String),
    IoError(String, String),
    SerdeError(String, String),
}

/// Accumulated answer counts of one card.
#[derive(Clone, Copy, PartialEq, Eq, Structural, Debug)]
pub struct CardStats {
    pub correct: u32,
    pub incorrect: u32,
}

/// A sampling weight as an exact rational number.
#[derive(Clone, Copy, PartialEq, Eq, Structural, Debug)]
pub struct Weight {
    pub num: u64,
    pub den: u64,
}

/// Numerator of the weight of `s`: `1 + max(incorrect - correct, 0)`
/// brought over the common denominator (the margins cannot both be
/// positive).
pub open spec fn weight_num(s: CardStats) -> int {
    if s.incorrect > s.correct {
        1 + (s.incorrect - s.correct)
    } else {
        1
    }
}

/// Denominator of the weight of `s`: `max(correct - incorrect, 0) + 1`.
pub open spec fn weight_den(s: CardStats) -> int {
    if s.correct >= s.incorrect {
        (s.correct - s.incorrect) + 1
    } else {
        1
    }
}

/// The weight of `s` as a rational.
pub open spec fn weight_of(s: CardStats) -> Weight {
    Weight { num: weight_num(s) as u64, den: weight_den(s) as u64 }
}

/// `a < b` as rationals, by cross-multiplication.
pub open spec fn weight_lt(a: Weight, b: Weight) -> bool {
    a.num * b.den < b.num * a.den
}

/// Weight positivity: every reachable statistic maps to a weight that is
/// strictly positive, so no eligible card ever loses all selection
/// probability.
pub proof fn lemma_weight_positive(s: CardStats)
    ensures
        weight_num(s) >= 1,
        weight_den(s) >= 1,
{
}

/// Correct-answer feedback: one more correct answer strictly shrinks a
/// card's weight, whatever the counts were.
pub proof fn lemma_weight_shrinks_on_correct(s: CardStats)
    requires
        s.correct < u32::MAX,
    ensures
        weight_lt(weight_of(after_correct(s)), weight_of(s)),
{
    let a = weight_of(after_correct(s));
    let b = weight_of(s);
    assert(a.den >= 1 && b.den >= 1 && a.num >= 1 && b.num >= 1);
    if s.incorrect > s.correct {
        assert(a.den == 1 && b.den == 1 && a.num < b.num);
    } else {
        assert(a.num == 1 && b.num == 1 && b.den < a.den);
    }
    assert(a.num * b.den < b.num * a.den) by (nonlinear_arith)
        requires
            a.den >= 1 && b.den >= 1 && a.num >= 1 && b.num >= 1,
            (a.den == 1 && b.den == 1 && a.num < b.num) || (a.num == 1 && b.num == 1 && b.den
                < a.den),
    ;
}

/// Incorrect-answer feedback: one more incorrect answer strictly grows a
/// card's weight, whatever the counts were.
pub proof fn lemma_weight_grows_on_incorrect(s: CardStats)
    requires
        s.incorrect < u32::MAX,
    ensures
        weight_lt(weight_of(s), weight_of(after_incorrect(s))),
{
    let a = weight_of(s);
    let b = weight_of(after_incorrect(s));
    assert(a.den >= 1 && b.den >= 1 && a.num >= 1 && b.num >= 1);
    if s.incorrect >= s.correct {
        assert(a.den == 1 && b.den == 1 && a.num < b.num);
    } else {
        assert(a.num == 1 && b.num >= 1 && b.den < a.den);
    }
    assert(a.num * b.den < b.num * a.den) by (nonlinear_arith)
        requires
            a.den >= 1 && b.den >= 1 && a.num >= 1 && b.num >= 1,
            (a.den == 1 && b.den == 1 && a.num < b.num) || (a.num == 1 && b.num >= 1 && b.den
                < a.den),
    ;
}

/// For a card not ahead on correct answers, an incorrect answer grows the
/// weight by exactly one: both weights are whole numbers one apart.
pub proof fn lemma_incorrect_feedback_adds_one(s: CardStats)
    requires
        s.incorrect >= s.correct,
        s.incorrect < u32::MAX,
    ensures
        weight_den(s) == 1,
        weight_den(after_incorrect(s)) == 1,
        weight_num(after_incorrect(s)) == weight_num(s) + 1,
{
}

impl CardStats {
    /// The sampling weight of a card with these statistics.
    pub fn weight(&self) -> (r: Weight)
        ensures
            r == weight_of(*self),
            r.num >= 1,
            r.den >= 1,
    {
        if self.incorrect > self.correct {
            let diff = self.incorrect - self.correct;
            Weight { num: diff as u64 + 1, den: 1 }
        } else {
            let diff = self.correct - self.incorrect;
            Weight { num: 1, den: diff as u64 + 1 }
        }
    }
}

/// Weights scale to container units with this many units per 1.0.
pub const WEIGHT_SCALE: u64 = 1000;

/// Container weights are capped at this many units, so the total of any
/// container of fewer than 2^32 items fits a u64.
pub const WEIGHT_UNIT_CAP: u64 = 0x1_0000_0000;

/// The container units of a weight: the rational scaled by
/// `WEIGHT_SCALE`, rounded down, kept between 1 and `WEIGHT_UNIT_CAP`.
pub open spec fn weight_units(w: Weight) -> int {
    let scaled = (w.num * WEIGHT_SCALE) / (w.den as int);
    if scaled >= WEIGHT_UNIT_CAP {
        WEIGHT_UNIT_CAP as int
    } else if scaled == 0 {
        1
    } else {
        scaled
    }
}

impl Weight {
    pub open spec fn wf(&self) -> bool {
        self.num >= 1 && self.den >= 1
    }

    /// Strict rational comparison.
    pub fn less_than(&self, other: &Weight) -> (r: bool)
        ensures
            r == weight_lt(*self, *other),
    {
        proof {
            assert((self.num as int) * (other.den as int) <= u128::MAX && (other.num as int) * (
            self.den as int) <= u128::MAX) by (nonlinear_arith)
                requires
                    self.num <= u64::MAX,
                    other.num <= u64::MAX,
                    self.den <= u64::MAX,
                    other.den <= u64::MAX,
            ;
        }
        (self.num as u128) * (other.den as u128) < (other.num as u128) * (self.den as u128)
    }

    /// The weight in container units.
    pub fn units(&self) -> (r: u64)
        requires
            self.wf(),
        ensures
            r == weight_units(*self),
            1 <= r <= WEIGHT_UNIT_CAP,
    {
        proof {
            assert((self.num as int) * (WEIGHT_SCALE as int) <= u128::MAX) by (nonlinear_arith)
                requires
                    self.num <= u64::MAX,
                    WEIGHT_SCALE == 1000,
            ;
        }
        let scaled = (self.num as u128) * (WEIGHT_SCALE as u128) / (self.den as u128);
        if scaled >= WEIGHT_UNIT_CAP as u128 {
            WEIGHT_UNIT_CAP
        } else if scaled == 0 {
            1
        } else {
            scaled as u64
        }
    }
}

/// The map an entry list denotes: later entries win.
pub open spec fn map_of_entries(s: Seq<(CardId, CardStats)>) -> Map<Seq<char>, CardStats>
    decreases s.len(),
{
    if s.len() == 0 {
        Map::empty()
    } else {
        map_of_entries(s.drop_last()).insert(s.last().0@, s.last().1)
    }
}

/// No two entries share a key.
pub open spec fn stats_keys_unique(s: Seq<(CardId, CardStats)>) -> bool {
    forall|i: int, j: int| 0 <= i < j < s.len() ==> (#[trigger] s[i]).0@ != (#[trigger] s[j]).0@
}

/// The statistics of `k` in `m`, zero-valued when absent.
pub open spec fn stats_lookup(m: Map<Seq<char>, CardStats>, k: Seq<char>) -> CardStats {
    if m.contains_key(k) {
        m[k]
    } else {
        CardStats { correct: 0, incorrect: 0 }
    }
}

proof fn lemma_map_of_entries_contains(s: Seq<(CardId, CardStats)>, k: Seq<char>)
    ensures
        map_of_entries(s).contains_key(k) <==> exists|i: int|
            0 <= i < s.len() && (#[trigger] s[i]).0@ == k,
    decreases s.len(),
{
    if s.len() > 0 {
        lemma_map_of_entries_contains(s.drop_last(), k);
        if s.last().0@ == k {
            assert((s[s.len() - 1]).0@ == k);
        } else {
            if map_of_entries(s.drop_last()).contains_key(k) {
                let i = choose|i: int|
                    0 <= i < s.drop_last().len() && (#[trigger] s.drop_last()[i]).0@ == k;
                assert(s[i] == s.drop_last()[i]);
            }
            if exists|i: int| 0 <= i < s.len() && (#[trigger] s[i]).0@ == k {
                let i = choose|i: int| 0 <= i < s.len() && (#[trigger] s[i]).0@ == k;
                assert(i < s.len() - 1);
                assert(s.drop_last()[i] == s[i]);
            }
        }
    }
}

proof fn lemma_map_of_entries_value(s: Seq<(CardId, CardStats)>, i: int)
    requires
        stats_keys_unique(s),
        0 <= i < s.len(),
    ensures
        map_of_entries(s).contains_key(s[i].0@),
        map_of_entries(s)[s[i].0@] == s[i].1,
    decreases s.len(),
{
    lemma_map_of_entries_contains(s, s[i].0@);
    if i < s.len() - 1 {
        assert(stats_keys_unique(s.drop_last())) by {
            assert(forall|a: int, b: int|
                0 <= a < b < s.drop_last().len() ==> (#[trigger] s.drop_last()[a]) == s[a] && (
                #[trigger] s.drop_last()[b]) == s[b]);
        }
        assert(s.drop_last()[i] == s[i]);
        lemma_map_of_entries_value(s.drop_last(), i);
        assert(s[i].0@ != s.last().0@);
    }
}

proof fn lemma_map_of_entries_update(s: Seq<(CardId, CardStats)>, i: int, p: (CardId, CardStats))
    requires
        stats_keys_unique(s),
        0 <= i < s.len(),
        s[i].0@ == p.0@,
    ensures
        map_of_entries(s.update(i, p)) =~= map_of_entries(s).insert(p.0@, p.1),
    decreases s.len(),
{
    if i == s.len() - 1 {
        assert(s.update(i, p).drop_last() =~= s.drop_last());
        assert(s.update(i, p).last() == p);
    } else {
        assert(stats_keys_unique(s.drop_last())) by {
            assert(forall|a: int, b: int|
                0 <= a < b < s.drop_last().len() ==> (#[trigger] s.drop_last()[a]) == s[a] && (
                #[trigger] s.drop_last()[b]) == s[b]);
        }
        assert(s.drop_last()[i] == s[i]);
        lemma_map_of_entries_update(s.drop_last(), i, p);
        assert(s.update(i, p).drop_last() =~= s.drop_last().update(i, p));
        assert(s.update(i, p).last() == s.last());
        assert(s[i].0@ != s.last().0@);
    }
}

/// The per-card statistics of a session, keyed by stable card identity.
/// The store is an association list with unique keys, viewed as a map: a
/// hash map keyed by strings would leave its lookups without a usable
/// specification, while the list's linear search is verified exactly (the
/// pool is hundreds to low thousands of cards).
pub struct Stats {
    entries: Vec<(CardId, CardStats)>,
}

impl View for Stats {
    type V = Map<Seq<char>, CardStats>;

    closed spec fn view(&self) -> Map<Seq<char>, CardStats> {
        map_of_entries(self.entries@)
    }
}

impl Stats {
    /// The stored entries, in insertion order.
    pub closed spec fn entries_spec(&self) -> Seq<(CardId, CardStats)> {
        self.entries@
    }

    /// Keys are unique, so the entry list and the map carry the same
    /// information.
    pub open spec fn wf(&self) -> bool {
        stats_keys_unique(self.entries_spec())
    }

    pub open spec fn spec_lookup(&self, k: Seq<char>) -> CardStats {
        stats_lookup(self@, k)
    }

    /// The view is exactly the map the entry list denotes.
    pub proof fn lemma_view_is_entries_map(&self)
        ensures
            self@ == map_of_entries(self.entries_spec()),
    {
    }

    /// An empty statistics store.
    pub fn new() -> (r: Stats)
        ensures
            r.wf(),
            r@ == Map::<Seq<char>, CardStats>::empty(),
    {
        Stats { entries: Vec::new() }
    }

    fn find_entry(&self, id: &CardId) -> (r: Option<usize>)
        ensures
            r matches Some(i) ==> i < self.entries_spec().len() && self.entries_spec()[
                i as int
            ].0@ == id@,
            r is None ==> forall|j: int|
                0 <= j < self.entries_spec().len() ==> (#[trigger] self.entries_spec()[j]).0@
                    != id@,
    {
        let n = self.entries.len();
        let mut i: usize = 0;
        while i < n
            invariant
                i <= n,
                n == self.entries@.len(),
                self.entries_spec() == self.entries@,
                forall|j: int| 0 <= j < i ==> (#[trigger] self.entries@[j]).0@ != id@,
            decreases n - i,
        {
            if self.entries[i].0.0 == id.0 {
                return Some(i);
            }
            i = i + 1;
        }
        None
    }

    /// Stores `value` under `id`, replacing any existing entry.
    fn upsert(&mut self, id: &CardId, value: CardStats)
        requires
            old(self).wf(),
        ensures
            final(self).wf(),
            final(self)@ == old(self)@.insert(id@, value),
    {
        let ghost prev = self.entries@;
        match self.find_entry(id) {
            Some(i) => {
                self.entries.set(i, (CardId(id.0.clone()), value));
                proof {
                    let p = self.entries@[i as int];
                    assert(p.0@ == id@ && p.1 == value);
                    assert(self.entries@ =~= prev.update(i as int, p));
                    lemma_map_of_entries_update(prev, i as int, p);
                    assert(forall|j: int|
                        0 <= j < self.entries@.len() ==> (#[trigger] self.entries@[j]).0@
                            == prev[j].0@);
                }
            },
            None => {
                self.entries.push((CardId(id.0.clone()), value));
                proof {
                    assert(self.entries@.drop_last() =~= prev);
                }
            },
        }
    }

    /// The statistics of `id`, creating a zero-valued entry when none is
    /// stored yet.
    pub fn for_card(&mut self, id: &CardId) -> (r: CardStats)
        requires
            old(self).wf(),
        ensures
            final(self).wf(),
            r == stats_lookup(old(self)@, id@),
            final(self)@ == old(self)@.insert(id@, r),
    {
        let ghost prev = self.entries@;
        match self.find_entry(id) {
            Some(i) => {
                let r = self.entries[i].1;
                proof {
                    lemma_map_of_entries_value(prev, i as int);
                    assert(old(self)@.insert(id@, r) =~= old(self)@);
                }
                r
            },
            None => {
                proof {
                    lemma_map_of_entries_contains(prev, id@);
                }
                let zero = CardStats { correct: 0, incorrect: 0 };
                self.upsert(id, zero);
                zero
            },
        }
    }

    /// Records a correct answer for `id` and returns the fresh weight, for
    /// the caller to push into the sampling container.
    pub fn record_correct(&mut self, id: &CardId) -> (r: Weight)
        requires
            old(self).wf(),
            stats_lookup(old(self)@, id@).correct < u32::MAX,
        ensures
            final(self).wf(),
            final(self)@ == old(self)@.insert(
                id@,
                after_correct(stats_lookup(old(self)@, id@)),
            ),
            r == weight_of(after_correct(stats_lookup(old(self)@, id@))),
            r.wf(),
    {
        let cur = self.for_card(id);
        let updated = CardStats { correct: cur.correct + 1, incorrect: cur.incorrect };
        self.upsert(id, updated);
        proof {
            assert(final(self)@ =~= old(self)@.insert(
                id@,
                after_correct(stats_lookup(old(self)@, id@)),
            ));
        }
        updated.weight()
    }

    /// Records an incorrect answer for `id` and returns the fresh weight.
    pub fn record_incorrect(&mut self, id: &CardId) -> (r: Weight)
        requires
            old(self).wf(),
            stats_lookup(old(self)@, id@).incorrect < u32::MAX,
        ensures
            final(self).wf(),
            final(self)@ == old(self)@.insert(
                id@,
                after_incorrect(stats_lookup(old(self)@, id@)),
            ),
            r == weight_of(after_incorrect(stats_lookup(old(self)@, id@))),
            r.wf(),
    {
        let cur = self.for_card(id);
        let updated = CardStats { correct: cur.correct, incorrect: cur.incorrect + 1 };
        self.upsert(id, updated);
        proof {
            assert(final(self)@ =~= old(self)@.insert(
                id@,
                after_incorrect(stats_lookup(old(self)@, id@)),
            ));
        }
        updated.weight()
    }

    /// The entry list to hand to a persistent store.
    pub fn to_entries(&self) -> (r: Vec<(CardId, CardStats)>)
        ensures
            r@ == self.entries_spec(),
    {
        let n = self.entries.len();
        let mut buf: Vec<(CardId, CardStats)> = Vec::with_capacity(n);
        let mut i: usize = 0;
        while i < n
            invariant
                i <= n,
                n == self.entries@.len(),
                self.entries_spec() == self.entries@,
                buf@ =~= self.entries@.take(i as int),
            decreases n - i,
        {
            let pair = (CardId(self.entries[i].0.0.clone()), self.entries[i].1);
            buf.push(pair);
            i = i + 1;
        }
        proof {
            assert(self.entries@.take(n as int) =~= self.entries@);
        }
        buf
    }

    /// A store rebuilt from an entry list a persistent store handed back;
    /// on duplicate keys the later entry wins, as a map does.
    pub fn from_entries(entries: Vec<(CardId, CardStats)>) -> (r: Stats)
        ensures
            r.wf(),
            r@ == map_of_entries(entries@),
    {
        let mut stats = Stats::new();
        let n = entries.len();
        let mut i: usize = 0;
        while i < n
            invariant
                i <= n,
                n == entries@.len(),
                stats.wf(),
                stats@ == map_of_entries(entries@.take(i as int)),
            decreases n - i,
        {
            proof {
                assert(entries@.take(i + 1).drop_last() =~= entries@.take(i as int));
                assert(entries@.take(i + 1).last() == entries@[i as int]);
            }
            stats.upsert(&entries[i].0, entries[i].1);
            i = i + 1;
        }
        proof {
            assert(entries@.take(n as int) =~= entries@);
        }
        stats
    }
}

/// The statistics after one more correct answer.
pub open spec fn after_correct(s: CardStats) -> CardStats {
    CardStats { correct: (s.correct + 1) as u32, incorrect: s.incorrect }
}

/// The statistics after one more incorrect answer.
pub open spec fn after_incorrect(s: CardStats) -> CardStats {
    CardStats { correct: s.correct, incorrect: (s.incorrect + 1) as u32 }
}

/// Round trip: persisting a statistics store as its entry list and
/// rebuilding a store from that list reproduces the identical statistics
/// for every card identity.
pub proof fn lemma_stats_round_trip(saved: Seq<(CardId, CardStats)>, s: Stats, t: Stats)
    requires
        saved == s.entries_spec(),
        t@ == map_of_entries(saved),
    ensures
        t@ == s@,
        forall|k: Seq<char>| #[trigger] t@.contains_key(k) <==> s@.contains_key(k),
        forall|k: Seq<char>| s@.contains_key(k) ==> #[trigger] t@[k] == s@[k],
{
}

} // verus!
