//! The matching-quiz generator: draws a weighted-random card, picks a
//! question face and an answer face, gathers three distractor cards whose
//! answer-face values differ from each other and from the correct one,
//! and places the correct answer at a random position. A session step
//! feeds the learner's choice back into the statistics and the weights.

use crate::deck::lemma_present_has_front;
use crate::deck::Card;
use crate::deck::CardId;
use crate::deck::Deck;
use crate::deck::Face;
use crate::deck::FaceVal;
use crate::deck::card_id_spec;
use crate::deck::clone_face;
use crate::deck::count_present;
use crate::deck::deck_valid;
use crate::deck::first_present;
use crate::random::lemma_swap_remove_multiset;
use crate::random::rand_below;
use crate::random::vec_remove_random;
use crate::stats::after_correct;
use crate::stats::after_incorrect;
use crate::stats::stats_lookup;
use crate::stats::weight_of;
use crate::stats::weight_units;
use crate::stats::CardStats;
use crate::stats::Stats;
use crate::stats::Weight;
use crate::stats::WEIGHT_UNIT_CAP;
use crate::weighted_list::lemma_sum_weights_at_least_len;
use crate::weighted_list::lemma_sum_weights_bounded;
use crate::weighted_list::sum_weights;
use crate::weighted_list::WeightedList;
use crate::card_eligible;
use crate::filter_view;
use crate::name_in_filter;
use crate::string_vec_contains;
use vstd::pervasive::unreached;
use crate::DeckCard;
use crate::FlashrError;
use crate::Progress;
use crate::PromptCard;
use vstd::prelude::*;

verus! {

/// Every problem offers this many answers to choose from.
pub const ANSWERS_PER_PROBLEM: usize = 4;

/// The container holds at most this many cards, so that capped weights
/// can never overflow the running total.
pub const MAX_POOL: usize = 0xFFFF_FFFF;

/// One generated problem: a question prompt, four answer options exactly
/// one of which is correct, the position of the correct one, and, when
/// requested, a snapshot of the sampling weights.
pub struct MatchProblem {
    pub question: PromptCard,
    pub answers: Vec<(PromptCard, bool)>,
    pub answer_index: usize,
    pub weights: Option<Vec<u64>>,
}

/// The stable identity of the card at `dc`.
pub open spec fn card_id_of(decks: Seq<Deck>, dc: DeckCard) -> Seq<char> {
    card_id_spec(decks[dc.deck as int].name@, dc.card_view(decks))
}

/// The value the card at `dc` exposes under the face of its own deck
/// named `name`: the value at the (unique) face of that name, or `None`
/// when the deck has no such face or the card leaves it absent.
pub open spec fn named_face_value(decks: Seq<Deck>, dc: DeckCard, name: Seq<char>) -> Option<
    FaceVal,
> {
    let deck = decks[dc.deck as int];
    let card = dc.card_view(decks);
    if exists|i: int|
        0 <= i < deck.faces@.len() && (#[trigger] deck.faces@[i])@ == name && card[i] is Some {
        card[choose|i: int|
            0 <= i < deck.faces@.len() && (#[trigger] deck.faces@[i])@ == name && card[i] is Some]
    } else {
        None
    }
}

/// With unique face names, the looked-up value is the value at the
/// matching index.
proof fn lemma_named_face_value_at(decks: Seq<Deck>, dc: DeckCard, name: Seq<char>, i: int)
    requires
        dc.valid(decks),
        crate::deck::deck_faces_unique(&decks[dc.deck as int]),
        0 <= i < decks[dc.deck as int].faces@.len(),
        decks[dc.deck as int].faces@[i]@ == name,
        dc.card_view(decks)[i] is Some,
    ensures
        named_face_value(decks, dc, name) == dc.card_view(decks)[i],
{
    let deck = decks[dc.deck as int];
    let card = dc.card_view(decks);
    assert(exists|j: int|
        0 <= j < deck.faces@.len() && (#[trigger] deck.faces@[j])@ == name && card[j] is Some);
    let j = choose|j: int|
        0 <= j < deck.faces@.len() && (#[trigger] deck.faces@[j])@ == name && card[j] is Some;
    if i != j {
        assert(deck.faces@[i]@ == deck.faces@[j]@);
        assert(false);
    }
}

/// The coverage bookkeeping of the distractor scan: every clean value is
/// carried by a remaining candidate or already collected. Removing one
/// candidate preserves it, provided any clean value that candidate carries
/// is already collected.
proof fn lemma_coverage_step(
    decks: Seq<Deck>,
    pool: Seq<(DeckCard, u64)>,
    aname: Seq<char>,
    qname: Seq<char>,
    qv: FaceVal,
    av: FaceVal,
    prev: Seq<usize>,
    now: Seq<usize>,
    i0: int,
    dist: Seq<(Face, DeckCard, usize)>,
)
    requires
        0 <= i0 < prev.len(),
        now == prev.update(i0, prev.last()).drop_last(),
        forall|v: FaceVal|
            (v != av && #[trigger] clean_value(decks, pool, aname, qname, qv, v)) ==> ((exists|
                j: usize,
            | #[trigger]
                prev.contains(j) && j < pool.len() && named_face_value(
                    decks,
                    pool[j as int].0,
                    aname,
                ) == Some(v)) || (exists|dt: int|
                0 <= dt < dist.len() && (#[trigger] dist[dt]).0@ == v)),
        forall|v: FaceVal|
            (v != av && #[trigger] clean_value(decks, pool, aname, qname, qv, v)
                && named_face_value(decks, pool[prev[i0] as int].0, aname) == Some(v)) ==> (exists|
                dt: int,
            | 0 <= dt < dist.len() && (#[trigger] dist[dt]).0@ == v),
    ensures
        forall|v: FaceVal|
            (v != av && #[trigger] clean_value(decks, pool, aname, qname, qv, v)) ==> ((exists|
                j: usize,
            | #[trigger]
                now.contains(j) && j < pool.len() && named_face_value(decks, pool[j as int].0, aname)
                    == Some(v)) || (exists|dt: int|
                0 <= dt < dist.len() && (#[trigger] dist[dt]).0@ == v)),
{
    assert forall|v: FaceVal|
        (v != av && #[trigger] clean_value(decks, pool, aname, qname, qv, v)) implies ((exists|
        j: usize,
    | #[trigger]
        now.contains(j) && j < pool.len() && named_face_value(decks, pool[j as int].0, aname)
            == Some(v)) || (exists|dt: int|
        0 <= dt < dist.len() && (#[trigger] dist[dt]).0@ == v)) by {
        if exists|j: usize| #[trigger]
            prev.contains(j) && j < pool.len() && named_face_value(decks, pool[j as int].0, aname)
                == Some(v) {
            let j = choose|j: usize| #[trigger]
                prev.contains(j) && j < pool.len() && named_face_value(
                    decks,
                    pool[j as int].0,
                    aname,
                ) == Some(v);
            if j == prev[i0] {
                assert(named_face_value(decks, pool[prev[i0] as int].0, aname) == Some(v));
            } else {
                crate::random::lemma_swap_remove_still_contains(prev, i0, j);
                assert(now.contains(j));
            }
        }
    }
}

/// What every generated problem guarantees, with `qi` and `ai` the
/// question and answer face indices of the question card's deck:
/// four answers; exactly one marked correct, at the recorded position,
/// and it is the drawn card itself; each carried index is the container
/// slot of that very card, so weight feedback lands on the right card;
/// a set face filter admits the question face's name; every answer's card
/// exposes the answer face, and those values are pairwise structurally
/// distinct; and no answer but the correct one matches the problem's
/// question-face value, so the question is unambiguous.
pub open spec fn problem_wf_with(
    decks: Seq<Deck>,
    pool: Seq<(DeckCard, u64)>,
    filter: Option<Seq<Seq<char>>>,
    p: MatchProblem,
    qi: int,
    ai: int,
) -> bool {
    let qdc = p.question.deck_card;
    let qdeck = decks[qdc.deck as int];
    let qcard = qdc.card_view(decks);
    let qname = qdeck.faces@[qi]@;
    let aname = qdeck.faces@[ai]@;
    &&& qdc.valid(decks)
    &&& p.question.index < pool.len()
    &&& pool[p.question.index as int].0 == qdc
    &&& 0 <= qi < qdeck.faces@.len()
    &&& 0 <= ai < qdeck.faces@.len()
    &&& qi != ai
    &&& qcard.len() == qdeck.faces@.len()
    &&& qcard[qi] is Some
    &&& qcard[ai] is Some
    &&& (filter matches Some(fil) ==> name_in_filter(fil, qname))
    &&& p.answers@.len() == ANSWERS_PER_PROBLEM
    &&& (p.answer_index as int) < p.answers@.len()
    &&& p.answers@[p.answer_index as int].0.deck_card == qdc
    &&& p.answers@[p.answer_index as int].0.index == p.question.index
    &&& (forall|t: int|
        0 <= t < p.answers@.len() ==> ((#[trigger] p.answers@[t]).1 <==> t == p.answer_index))
    &&& (forall|t: int|
        0 <= t < p.answers@.len() ==> (#[trigger] p.answers@[t]).0.deck_card.valid(decks)
            && p.answers@[t].0.index < pool.len() && pool[p.answers@[t].0.index as int].0
            == p.answers@[t].0.deck_card)
    &&& (forall|t: int|
        0 <= t < p.answers@.len() ==> named_face_value(
            decks,
            (#[trigger] p.answers@[t]).0.deck_card,
            aname,
        ) is Some)
    &&& (forall|t1: int, t2: int|
        0 <= t1 < t2 < p.answers@.len() ==> named_face_value(
            decks,
            (#[trigger] p.answers@[t1]).0.deck_card,
            aname,
        ) != named_face_value(decks, (#[trigger] p.answers@[t2]).0.deck_card, aname))
    &&& (forall|t: int|
        0 <= t < p.answers@.len() && t != p.answer_index ==> !(named_face_value(
            decks,
            (#[trigger] p.answers@[t]).0.deck_card,
            qname,
        ) matches Some(v) && qcard[qi] == Some(v)))
    &&& (forall|t: int|
        0 <= t < p.answers@.len() ==> (named_face_value(
            decks,
            (#[trigger] p.answers@[t]).0.deck_card,
            aname,
        ) matches Some(FaceVal::Single(v)) ==> p.answers@[t].0.prompt@ == v))
    &&& (qcard[qi] matches Some(FaceVal::Single(v)) ==> p.question.prompt@ == v)
}

/// Some pool card exposes `v` under the face of its deck named `aname`.
pub open spec fn pool_has_value(
    decks: Seq<Deck>,
    pool: Seq<(DeckCard, u64)>,
    aname: Seq<char>,
    v: FaceVal,
) -> bool {
    exists|t: int|
        0 <= t < pool.len() && named_face_value(decks, (#[trigger] pool[t]).0, aname) == Some(v)
}

/// No pool card exposing `v` under the answer face carries the question
/// value `qv` under the question face.
pub open spec fn value_never_collides(
    decks: Seq<Deck>,
    pool: Seq<(DeckCard, u64)>,
    aname: Seq<char>,
    qname: Seq<char>,
    qv: FaceVal,
    v: FaceVal,
) -> bool {
    forall|t: int|
        (0 <= t < pool.len() && named_face_value(decks, (#[trigger] pool[t]).0, aname) == Some(v))
            ==> !(named_face_value(decks, pool[t].0, qname) matches Some(w) && w == qv)
}

/// A distractor value the scan can never lose, in whatever order the pool
/// is examined: some pool card exposes it, and none of its carriers
/// collides with the question value.
pub open spec fn clean_value(
    decks: Seq<Deck>,
    pool: Seq<(DeckCard, u64)>,
    aname: Seq<char>,
    qname: Seq<char>,
    qv: FaceVal,
    v: FaceVal,
) -> bool {
    &&& pool_has_value(decks, pool, aname, v)
    &&& value_never_collides(decks, pool, aname, qname, qv, v)
}

/// Three distinct clean values besides the correct one: a supply that
/// forces a full problem for this draw, whatever order the pool is
/// examined in.
pub open spec fn assured_supply(
    decks: Seq<Deck>,
    pool: Seq<(DeckCard, u64)>,
    aname: Seq<char>,
    qname: Seq<char>,
    qv: FaceVal,
    av: FaceVal,
) -> bool {
    exists|v1: FaceVal, v2: FaceVal, v3: FaceVal|
        v1 != v2 && v1 != v3 && v2 != v3 && v1 != av && v2 != av && v3 != av && #[trigger] clean_value(
            decks,
            pool,
            aname,
            qname,
            qv,
            v1,
        ) && #[trigger] clean_value(decks, pool, aname, qname, qv, v2) && #[trigger] clean_value(
            decks,
            pool,
            aname,
            qname,
            qv,
            v3,
        )
}

/// An outcome the generator's random draws can produce: a pool card with
/// two distinct present faces, the question one admitted by the filter.
pub open spec fn admissible_draw(
    decks: Seq<Deck>,
    pool: Seq<(DeckCard, u64)>,
    filter: Option<Seq<Seq<char>>>,
    dc: DeckCard,
    qi: int,
    ai: int,
) -> bool {
    &&& exists|t: int| 0 <= t < pool.len() && (#[trigger] pool[t]).0 == dc
    &&& dc.valid(decks)
    &&& 0 <= qi < decks[dc.deck as int].faces@.len()
    &&& 0 <= ai < decks[dc.deck as int].faces@.len()
    &&& qi != ai
    &&& dc.card_view(decks)[qi] is Some
    &&& dc.card_view(decks)[ai] is Some
    &&& (filter matches Some(fil) ==> name_in_filter(fil, decks[dc.deck as int].faces@[qi]@))
}

/// The message a mismatch is reported with: it names the question value,
/// the question and answer face names, and the deck.
pub open spec fn deck_mismatch_message(
    qshown: Seq<char>,
    qname: Seq<char>,
    deck_name: Seq<char>,
    aname: Seq<char>,
) -> Seq<char> {
    "Cannot find enough answers for question "@ + qshown + ", which is a \""@ + qname
        + "\" face, from deck "@ + deck_name + ", given answer face \""@ + aname + "\""@
}

/// The draw `(dc, qi, ai)` cannot fill a problem in every examination
/// order: it lacks an assured supply of three distinct clean distractor
/// values beside its own answer value.
pub open spec fn draw_lacks_supply(
    decks: Seq<Deck>,
    pool: Seq<(DeckCard, u64)>,
    dc: DeckCard,
    qi: int,
    ai: int,
) -> bool {
    !assured_supply(
        decks,
        pool,
        decks[dc.deck as int].faces@[ai]@,
        decks[dc.deck as int].faces@[qi]@,
        dc.card_view(decks)[qi]->Some_0,
        dc.card_view(decks)[ai]->Some_0,
    )
}

/// A generated problem is well formed for some choice of question and
/// answer face.
pub open spec fn problem_wf(
    decks: Seq<Deck>,
    pool: Seq<(DeckCard, u64)>,
    filter: Option<Seq<Seq<char>>>,
    p: MatchProblem,
) -> bool {
    exists|qi: int, ai: int| problem_wf_with(decks, pool, filter, p, qi, ai)
}

/// A well-formed problem rests on four distinct pool cards: its answers
/// carry pairwise-distinct answer-face values, and each carried index is
/// that answer's own pool slot, so equal slots would force equal values.
/// A pool holding only three cards can therefore never yield a problem —
/// the generator must report a mismatch instead.
pub proof fn lemma_problem_needs_four_cards(
    decks: Seq<Deck>,
    pool: Seq<(DeckCard, u64)>,
    filter: Option<Seq<Seq<char>>>,
    p: MatchProblem,
)
    requires
        problem_wf(decks, pool, filter, p),
    ensures
        pool.len() >= ANSWERS_PER_PROBLEM,
{
    let (qi, ai) = choose|qi: int, ai: int| problem_wf_with(decks, pool, filter, p, qi, ai);
    let aname = decks[p.question.deck_card.deck as int].faces@[ai]@;
    assert forall|t1: int, t2: int|
        0 <= t1 < t2 < p.answers@.len() implies (#[trigger] p.answers@[t1]).0.index != (
    #[trigger] p.answers@[t2]).0.index by {
        if p.answers@[t1].0.index == p.answers@[t2].0.index {
            assert(p.answers@[t1].0.deck_card == pool[p.answers@[t1].0.index as int].0);
            assert(p.answers@[t2].0.deck_card == pool[p.answers@[t2].0.index as int].0);
            assert(named_face_value(decks, p.answers@[t1].0.deck_card, aname) != named_face_value(
                decks,
                p.answers@[t2].0.deck_card,
                aname,
            ));
            assert(false);
        }
    }
    let i0 = p.answers@[0].0.index;
    let i1 = p.answers@[1].0.index;
    let i2 = p.answers@[2].0.index;
    let i3 = p.answers@[3].0.index;
    assert(i0 != i1 && i0 != i2 && i0 != i3 && i1 != i2 && i1 != i3 && i2 != i3);
    assert(i0 < pool.len() && i1 < pool.len() && i2 < pool.len() && i3 < pool.len());
}

/// The inexhaustible source of matching problems: the loaded decks, the
/// weighted pool of eligible cards, and the optional face filter.
pub struct MatchProblemIterator {
    decks: Vec<Deck>,
    weighted: WeightedList<DeckCard>,
    faces: Option<Vec<String>>,
    line: bool,
}

impl MatchProblemIterator {
    pub closed spec fn decks_spec(&self) -> Seq<Deck> {
        self.decks@
    }

    pub closed spec fn pool(&self) -> Seq<(DeckCard, u64)> {
        self.weighted@
    }

    pub closed spec fn filter_spec(&self) -> Option<Seq<Seq<char>>> {
        filter_view(self.faces)
    }

    pub closed spec fn line_spec(&self) -> bool {
        self.line
    }

    /// The decks are valid, every pooled card is eligible under the
    /// filter, and every weight is a capped positive unit count, so the
    /// running total can neither vanish nor overflow.
    pub open spec fn wf(&self) -> bool {
        &&& self.weighted_wf()
        &&& self.pool().len() <= MAX_POOL
        &&& (forall|d: int|
            0 <= d < self.decks_spec().len() ==> deck_valid(&(#[trigger] self.decks_spec()[d])))
        &&& (forall|t: int|
            0 <= t < self.pool().len() ==> card_eligible(
                self.decks_spec(),
                self.filter_spec(),
                (#[trigger] self.pool()[t]).0,
            ))
        &&& (forall|t: int|
            0 <= t < self.pool().len() ==> 1 <= (#[trigger] self.pool()[t]).1 <= WEIGHT_UNIT_CAP)
    }

    pub closed spec fn weighted_wf(&self) -> bool {
        self.weighted.wf()
    }

    /// Seeds the pool: one entry per eligible card, weighted by the
    /// performance model over the stored statistics (entries appear for
    /// cards seen for the first time, with zero counts; no stored count
    /// changes).
    pub fn new(
        decks: Vec<Deck>,
        deck_cards: Vec<DeckCard>,
        stats: &mut Stats,
        faces: Option<Vec<String>>,
        line: bool,
    ) -> (r: MatchProblemIterator)
        requires
            old(stats).wf(),
            forall|d: int| 0 <= d < decks@.len() ==> deck_valid(&(#[trigger] decks@[d])),
            forall|t: int|
                0 <= t < deck_cards@.len() ==> card_eligible(
                    decks@,
                    filter_view(faces),
                    #[trigger] deck_cards@[t],
                ),
            deck_cards@.len() <= MAX_POOL,
        ensures
            r.wf(),
            final(stats).wf(),
            r.decks_spec() == decks@,
            r.filter_spec() == filter_view(faces),
            r.line_spec() == line,
            r.pool().len() == deck_cards@.len(),
            forall|t: int|
                0 <= t < deck_cards@.len() ==> (#[trigger] r.pool()[t]).0 == deck_cards@[t],
            forall|t: int|
                0 <= t < deck_cards@.len() ==> (#[trigger] r.pool()[t]).1 == weight_units(
                    weight_of(stats_lookup(old(stats)@, card_id_of(decks@, deck_cards@[t]))),
                ),
            forall|k: Seq<char>| #[trigger]
                stats_lookup(final(stats)@, k) == stats_lookup(old(stats)@, k),
    {
        let ghost fil = filter_view(faces);
        let n = deck_cards.len();
        let mut weighted: WeightedList<DeckCard> = WeightedList::with_capacity(n);
        let mut i: usize = 0;
        while i < n
            invariant
                i <= n,
                n == deck_cards@.len(),
                n <= MAX_POOL,
                stats.wf(),
                weighted.wf(),
                weighted@.len() == i,
                forall|d: int| 0 <= d < decks@.len() ==> deck_valid(&(#[trigger] decks@[d])),
                forall|t: int|
                    0 <= t < deck_cards@.len() ==> card_eligible(
                        decks@,
                        fil,
                        #[trigger] deck_cards@[t],
                    ),
                forall|t: int| 0 <= t < i ==> (#[trigger] weighted@[t]).0 == deck_cards@[t],
                forall|t: int|
                    0 <= t < i ==> 1 <= (#[trigger] weighted@[t]).1 <= WEIGHT_UNIT_CAP,
                forall|t: int|
                    0 <= t < i ==> (#[trigger] weighted@[t]).1 == weight_units(
                        weight_of(
                            stats_lookup(old(stats)@, card_id_of(decks@, deck_cards@[t])),
                        ),
                    ),
                forall|k: Seq<char>| #[trigger]
                    stats_lookup(stats@, k) == stats_lookup(old(stats)@, k),
            decreases n - i,
        {
            let dc = deck_cards[i];
            proof {
                assert(card_eligible(decks@, fil, dc));
                assert(deck_valid(&decks@[dc.deck as int]));
                assert(count_present(dc.card_view(decks@)) >= 2);
                lemma_present_has_front(dc.card_view(decks@));
            }
            let deck = &decks[dc.deck];
            let id = CardId::get(deck, &deck.cards[dc.card]);
            let ghost mid = stats@;
            let st = stats.for_card(&id);
            proof {
                assert forall|k: Seq<char>| #[trigger] stats_lookup(stats@, k) == stats_lookup(
                    old(stats)@,
                    k,
                ) by {
                    assert(stats_lookup(mid, k) == stats_lookup(old(stats)@, k));
                    if k == id@ {
                        assert(stats@.contains_key(k));
                        assert(stats@[k] == st);
                        assert(st == stats_lookup(mid, k));
                    } else {
                        assert(stats@.contains_key(k) == mid.contains_key(k));
                        if mid.contains_key(k) {
                            assert(stats@[k] == mid[k]);
                        }
                    }
                }
            }
            let w = st.weight();
            let units = w.units();
            proof {
                lemma_sum_weights_bounded(weighted@, WEIGHT_UNIT_CAP as int);
                assert(weighted@.len() * (WEIGHT_UNIT_CAP as int) <= (MAX_POOL - 1) * (
                WEIGHT_UNIT_CAP as int)) by (nonlinear_arith)
                    requires
                        weighted@.len() <= MAX_POOL - 1,
                        WEIGHT_UNIT_CAP >= 0,
                ;
            }
            weighted.add(dc, units);
            i = i + 1;
        }
        MatchProblemIterator { decks, weighted, faces, line }
    }

    /// Replaces the weight of the card at `index` with the container
    /// units of `weight`.
    pub fn change_weight(&mut self, index: usize, weight: &Weight)
        requires
            old(self).wf(),
            index < old(self).pool().len(),
            weight.wf(),
        ensures
            final(self).wf(),
            final(self).decks_spec() == old(self).decks_spec(),
            final(self).filter_spec() == old(self).filter_spec(),
            final(self).line_spec() == old(self).line_spec(),
            final(self).pool() == old(self).pool().update(
                index as int,
                (old(self).pool()[index as int].0, weight_units(*weight) as u64),
            ),
    {
        let units = weight.units();
        proof {
            lemma_sum_weights_bounded(self.weighted@, WEIGHT_UNIT_CAP as int);
            assert(self.weighted@.len() * (WEIGHT_UNIT_CAP as int) <= MAX_POOL * (
            WEIGHT_UNIT_CAP as int)) by (nonlinear_arith)
                requires
                    self.weighted@.len() <= MAX_POOL,
                    WEIGHT_UNIT_CAP >= 0,
            ;
            assert(self.weighted@[index as int].1 >= 1);
        }
        self.weighted.change_weight(index, units);
    }
}

/// Where the `t`-th answer's distractor sits, given the correct answer
/// stands at `r`.
pub open spec fn dist_pos(t: int, r: int) -> int {
    if t < r {
        t
    } else {
        t - 1
    }
}

impl MatchProblemIterator {
    /// Generates one problem: `None` exactly when the pool is empty;
    /// otherwise either a well-formed problem — four answers over the
    /// drawn answer face, pairwise distinct, exactly one correct, none
    /// colliding with the question — or a `DeckMismatch` error, which can
    /// only arise when some admissible draw lacks an assured supply of
    /// three distinct clean distractor values.
    pub fn next_problem(&self, rng: &mut rand::rngs::ThreadRng) -> (r: Option<
        Result<MatchProblem, FlashrError>,
    >)
        requires
            self.wf(),
        ensures
            r is Some <==> self.pool().len() > 0,
            (r matches Some(res) ==> match res {
                Ok(p) => problem_wf(self.decks_spec(), self.pool(), self.filter_spec(), p) && (
                p.weights is Some <==> self.line_spec()) && (p.weights matches Some(w)
                    ==> w@.len() == self.pool().len() && (forall|t: int|
                    0 <= t < w@.len() ==> w@[t] == self.pool()[t].1)),
                Err(e) => e matches FlashrError::DeckMismatch(m) && (exists|
                    dc0: DeckCard,
                    qi0: int,
                    ai0: int,
                |
                    #[trigger] admissible_draw(
                        self.decks_spec(),
                        self.pool(),
                        self.filter_spec(),
                        dc0,
                        qi0,
                        ai0,
                    ) && draw_lacks_supply(self.decks_spec(), self.pool(), dc0, qi0, ai0) && m@
                        == deck_mismatch_message(
                        crate::deck::face_display(dc0.card_view(self.decks_spec())[qi0]->Some_0),
                        self.decks_spec()[dc0.deck as int].faces@[qi0]@,
                        self.decks_spec()[dc0.deck as int].name@,
                        self.decks_spec()[dc0.deck as int].faces@[ai0]@,
                    )),
            }),
    {
        let ghost decks = self.decks_spec();
        let ghost pool = self.pool();
        proof {
            lemma_sum_weights_at_least_len(self.weighted@);
        }
        let drawn = self.weighted.get_random(rng);
        let (dc, p_idx) = match drawn {
            None => {
                return None;
            },
            Some(pair) => pair,
        };
        proof {
            assert(dc == pool[p_idx as int].0);
            assert(card_eligible(decks, self.filter_spec(), dc));
            assert(deck_valid(&decks[dc.deck as int]));
        }
        let deck = &self.decks[dc.deck];
        let card = &deck.cards[dc.card];
        let possible = dc.possible_faces(&self.decks);
        proof {
            assert(card@ == dc.card_view(decks));
            assert(count_present(card@) >= 2);
            assert(card@.len() == deck.faces@.len());
        }
        let nfaces = deck.faces.len();
        let (qi, ai) = match &self.faces {
            Some(filter) => {
                proof {
                    assert(self.filter_spec() == Some(filter.deep_view()));
                    let i = choose|i: int|
                        0 <= i < decks[dc.deck as int].faces@.len() && name_in_filter(
                            filter.deep_view(),
                            (#[trigger] decks[dc.deck as int].faces@[i])@,
                        ) && dc.card_view(decks)[i] is Some;
                    assert(deck.faces@.len() == nfaces);
                    let ju = i as usize;
                    assert(ju as int == i);
                    assert(possible@.contains(ju));
                    assert(possible@.contains(ju) && ju < deck.faces@.len() && name_in_filter(
                        filter.deep_view(),
                        deck.faces@[ju as int]@,
                    ));
                }
                let qi = pick_filtered_question(deck, card, &possible, filter, rng);
                proof {
                    assert(possible@.len() >= 2);
                    if possible@[0] == qi {
                        assert(possible@[0] != possible@[1]);
                        assert(possible@.contains(possible@[1])) by {
                            assert(possible@[1] == possible@[1]);
                        }
                        assert(possible@.contains(possible@[1]) && possible@[1] != qi);
                    } else {
                        assert(possible@.contains(possible@[0])) by {
                            assert(possible@[0] == possible@[0]);
                        }
                        assert(possible@.contains(possible@[0]) && possible@[0] != qi);
                    }
                }
                let ai = pick_answer_face(card, &possible, qi, rng);
                (qi, ai)
            },
            None => {
                let mut cand = copy_usize_vec(&possible);
                let ghost prev0 = cand@;
                proof {
                    assert(prev0.no_duplicates()) by {
                        assert(forall|t1: int, t2: int|
                            0 <= t1 < t2 < prev0.len() ==> prev0[t1] != prev0[t2]);
                    }
                }
                let qi = match vec_remove_random(&mut cand, rng) {
                    Some(x) => x,
                    None => {
                        proof {
                            assert(prev0.len() >= 2);
                            assert(false);
                        }
                        return unreached();
                    },
                };
                let ghost prev1 = cand@;
                proof {
                    broadcast use vstd::seq_lib::group_to_multiset_ensures;
                    broadcast use vstd::multiset::group_multiset_axioms;

                    let i0 = choose|i: int|
                        0 <= i < prev0.len() && qi == prev0[i] && prev1 == prev0.update(
                            i,
                            prev0.last(),
                        ).drop_last();
                    assert(qi < card@.len() && card@[qi as int] is Some);
                    assert forall|t: int|
                        0 <= t < prev1.len() implies ((#[trigger] prev1[t]) < card@.len()
                        && card@[prev1[t] as int] is Some) by {
                        if t == i0 {
                            assert(prev1[t] == prev0[prev0.len() - 1]);
                        } else {
                            assert(prev1[t] == prev0[t]);
                        }
                    }
                    lemma_swap_remove_multiset(prev0, i0);
                    prev0.lemma_multiset_has_no_duplicates();
                    assert(prev0.to_multiset().count(qi) == 1) by {
                        assert(prev0.contains(qi));
                    }
                    assert(prev1.to_multiset().count(qi) == 0);
                }
                let ai = match vec_remove_random(&mut cand, rng) {
                    Some(x) => x,
                    None => {
                        proof {
                            assert(prev1.len() >= 1);
                            assert(false);
                        }
                        return unreached();
                    },
                };
                proof {
                    broadcast use vstd::seq_lib::group_to_multiset_ensures;
                    broadcast use vstd::multiset::group_multiset_axioms;

                    let i1 = choose|i: int|
                        0 <= i < prev1.len() && ai == prev1[i] && cand@ == prev1.update(
                            i,
                            prev1.last(),
                        ).drop_last();
                    assert(ai < card@.len() && card@[ai as int] is Some);
                    assert(prev1.contains(ai)) by {
                        assert(prev1[i1] == ai);
                    }
                    assert(prev1.to_multiset().count(ai) >= 1);
                    assert(ai != qi);
                }
                (qi, ai)
            },
        };
        proof {
            assert(self.filter_spec() matches Some(fil) ==> name_in_filter(
                fil,
                deck.faces@[qi as int]@,
            ));
        }
        let ghost qname_s = deck.faces@[qi as int]@;
        let ghost aname_s = deck.faces@[ai as int]@;
        let ghost qv = dc.card_view(decks)[qi as int];
        let qname = &deck.faces[qi];
        let aname = &deck.faces[ai];
        let qface = match card.face_at(qi) {
            Some(f) => f,
            None => unreached(),
        };
        let aface = match card.face_at(ai) {
            Some(f) => f,
            None => unreached(),
        };
        let ghost av = dc.card_view(decks)[ai as int]->Some_0;
        proof {
            lemma_named_face_value_at(decks, dc, aname_s, ai as int);
            assert(named_face_value(decks, dc, aname_s) == Some(av));
            assert(aface@ == av);
            assert(qv == Some(qface@));
        }
        let mut seen: Vec<Face> = Vec::new();
        seen.push(clone_face(aface));
        let mut distractors: Vec<(Face, DeckCard, usize)> = Vec::new();
        let pool_len = self.weighted.len();
        let mut cand: Vec<usize> = Vec::with_capacity(pool_len);
        let mut ci: usize = 0;
        while ci < pool_len
            invariant
                ci <= pool_len,
                pool_len == pool.len(),
                pool == self.pool(),
                cand@.len() == ci,
                forall|t: int| 0 <= t < ci ==> (#[trigger] cand@[t]) == t,
            decreases pool_len - ci,
        {
            cand.push(ci);
            ci = ci + 1;
        }
        proof {
            assert forall|v: FaceVal|
                (v != av && #[trigger] clean_value(decks, pool, aname_s, qname_s, qface@, v))
                    implies ((exists|j: usize| #[trigger]
                cand@.contains(j) && j < pool.len() && named_face_value(
                    decks,
                    pool[j as int].0,
                    aname_s,
                ) == Some(v)) || (exists|dt: int|
                0 <= dt < distractors@.len() && (#[trigger] distractors@[dt]).0@ == v)) by {
                let t = choose|t: int|
                    0 <= t < pool.len() && named_face_value(decks, (#[trigger] pool[t]).0, aname_s)
                        == Some(v);
                let ju = t as usize;
                assert(cand@[t] == ju);
                assert(cand@.contains(ju) && ju < pool.len() && named_face_value(
                    decks,
                    pool[ju as int].0,
                    aname_s,
                ) == Some(v));
            }
        }
        loop
            invariant
                self.wf(),
                decks == self.decks_spec(),
                pool == self.pool(),
                pool_len == pool.len(),
                dc.valid(decks),
                deck == decks[dc.deck as int],
                card == decks[dc.deck as int].cards@[dc.card as int],
                card@ == dc.card_view(decks),
                (qi as int) < card@.len(),
                (ai as int) < card@.len(),
                qi != ai,
                card@[qi as int] is Some,
                card@[ai as int] is Some,
                card@.len() == deck.faces@.len(),
                qname_s == deck.faces@[qi as int]@,
                aname_s == deck.faces@[ai as int]@,
                qname@ == qname_s,
                aname@ == aname_s,
                qv == card@[qi as int],
                qv == Some(qface@),
                named_face_value(decks, dc, aname_s) == Some(av),
                av == card@[ai as int]->Some_0,
                seen@.len() >= 1,
                seen@[0]@ == av,
                forall|t: int| 0 <= t < cand@.len() ==> (#[trigger] cand@[t]) < pool_len,
                distractors@.len() <= 3,
                forall|v: FaceVal|
                    (v != av && #[trigger] clean_value(decks, pool, aname_s, qname_s, qface@, v))
                        ==> ((exists|j: usize| #[trigger]
                    cand@.contains(j) && j < pool.len() && named_face_value(
                        decks,
                        pool[j as int].0,
                        aname_s,
                    ) == Some(v)) || (exists|dt: int|
                    0 <= dt < distractors@.len() && (#[trigger] distractors@[dt]).0@ == v)),
                forall|si: int|
                    0 <= si < seen@.len() ==> ((#[trigger] seen@[si])@ == av || (exists|dt: int|
                        0 <= dt < distractors@.len() && (#[trigger] distractors@[dt]).0@
                            == seen@[si]@) || (exists|t: int|
                        0 <= t < pool.len() && named_face_value(
                            decks,
                            (#[trigger] pool[t]).0,
                            aname_s,
                        ) == Some(seen@[si]@) && (named_face_value(decks, pool[t].0, qname_s)
                            matches Some(w) && w == qface@))),
                forall|dt: int|
                    0 <= dt < distractors@.len() ==> (#[trigger] distractors@[dt]).1.valid(decks)
                        && distractors@[dt].2 < pool_len && pool[distractors@[dt].2 as int].0
                        == distractors@[dt].1,
                forall|dt: int|
                    0 <= dt < distractors@.len() ==> named_face_value(
                        decks,
                        (#[trigger] distractors@[dt]).1,
                        aname_s,
                    ) == Some(distractors@[dt].0@),
                forall|dt: int|
                    0 <= dt < distractors@.len() ==> !(named_face_value(
                        decks,
                        (#[trigger] distractors@[dt]).1,
                        qname_s,
                    ) matches Some(v) && qv == Some(v)),
                forall|dt: int|
                    0 <= dt < distractors@.len() ==> exists|si: int|
                        0 <= si < seen@.len() && (#[trigger] seen@[si])@ == (
                        #[trigger] distractors@[dt]).0@,
                forall|dt1: int, dt2: int|
                    0 <= dt1 < dt2 < distractors@.len() ==> (#[trigger] distractors@[dt1]).0@ != (
                    #[trigger] distractors@[dt2]).0@,
                forall|dt: int|
                    0 <= dt < distractors@.len() ==> (#[trigger] distractors@[dt]).0@ != av,
            ensures
                distractors@.len() >= 3 || cand@.len() == 0,
            decreases cand@.len(),
        {
            if distractors.len() >= 3 {
                break ;
            }
            let ghost prev = cand@;
            match vec_remove_random(&mut cand, rng) {
                None => {
                    break ;
                },
                Some(cidx) => {
                    let ghost i0 = choose|i: int|
                        0 <= i < prev.len() && cidx == prev[i] && cand@ == prev.update(
                            i,
                            prev.last(),
                        ).drop_last();
                    proof {
                        assert(cidx < pool_len);
                        assert forall|t: int|
                            0 <= t < cand@.len() implies (#[trigger] cand@[t]) < pool_len by {
                            if t == i0 {
                                assert(cand@[t] == prev[prev.len() - 1]);
                            } else {
                                assert(cand@[t] == prev[t]);
                            }
                        }
                    }
                    let cdc = self.weighted.get_item(cidx);
                    proof {
                        assert(cdc == pool[cidx as int].0);
                        assert(pool[prev[i0] as int].0 == cdc);
                        assert(card_eligible(decks, self.filter_spec(), cdc));
                        assert(deck_valid(&decks[cdc.deck as int]));
                        assert(decks[cdc.deck as int].cards@[cdc.card as int]@.len()
                            == decks[cdc.deck as int].faces@.len());
                    }
                    let cdeck = &self.decks[cdc.deck];
                    let ccard = &cdeck.cards[cdc.card];
                    match find_named_face_index(cdeck, ccard, aname) {
                        None => {
                            proof {
                                assert(named_face_value(decks, cdc, aname_s) is None) by {
                                    assert(forall|i: int|
                                        0 <= i < decks[cdc.deck as int].faces@.len() ==> !((
                                        #[trigger] decks[cdc.deck as int].faces@[i])@ == aname_s
                                            && cdc.card_view(decks)[i] is Some));
                                }
                                lemma_coverage_step(
                                    decks,
                                    pool,
                                    aname_s,
                                    qname_s,
                                    qface@,
                                    av,
                                    prev,
                                    cand@,
                                    i0,
                                    distractors@,
                                );
                            }
                        },
                        Some(fi) => {
                            let cface = match ccard.face_at(fi) {
                                Some(f) => f,
                                None => unreached(),
                            };
                            proof {
                                lemma_named_face_value_at(decks, cdc, aname_s, fi as int);
                                assert(named_face_value(decks, cdc, aname_s) == Some(cface@));
                            }
                            if !seen_contains(&seen, cface) {
                                let ghost seen_prev = seen@;
                                seen.push(clone_face(cface));
                                proof {
                                    assert(seen@[0] == seen_prev[0]);
                                    assert(forall|si: int|
                                        0 <= si < seen_prev.len() ==> (#[trigger] seen@[si])
                                            == seen_prev[si]);
                                    assert forall|dt: int|
                                        0 <= dt < distractors@.len() implies exists|si: int|
                                        0 <= si < seen@.len() && (#[trigger] seen@[si])@ == (
                                        #[trigger] distractors@[dt]).0@ by {
                                        let si = choose|si: int|
                                            0 <= si < seen_prev.len() && (
                                            #[trigger] seen_prev[si])@ == distractors@[dt].0@;
                                        assert(seen@[si]@ == distractors@[dt].0@);
                                    }
                                }
                                let collides = match find_named_face_index(cdeck, ccard, qname) {
                                    Some(qfi) => {
                                        let cq = match ccard.face_at(qfi) {
                                            Some(f) => f,
                                            None => unreached(),
                                        };
                                        proof {
                                            lemma_named_face_value_at(
                                                decks,
                                                cdc,
                                                qname_s,
                                                qfi as int,
                                            );
                                        }
                                        *cq == *qface
                                    },
                                    None => {
                                        proof {
                                            assert(named_face_value(
                                                decks,
                                                cdc,
                                                qname_s,
                                            ) is None) by {
                                                assert(forall|i: int|
                                                    0 <= i < decks[cdc.deck as int].faces@.len()
                                                        ==> !((
                                                    #[trigger] decks[cdc.deck as int].faces@[i])@
                                                        == qname_s && cdc.card_view(
                                                        decks,
                                                    )[i] is Some));
                                            }
                                        }
                                        false
                                    },
                                };
                                proof {
                                    assert(collides ==> (named_face_value(
                                        decks,
                                        cdc,
                                        qname_s,
                                    ) matches Some(w) && w == qface@));
                                }
                                if !collides {
                                    let ghost dist_prev = distractors@;
                                    distractors.push((clone_face(cface), cdc, cidx));
                                    proof {
                                        let newdt = dist_prev.len() as int;
                                        assert(forall|dt: int|
                                            0 <= dt < dist_prev.len() ==> (
                                            #[trigger] distractors@[dt]) == dist_prev[dt]);
                                        assert(distractors@[newdt].0@ == cface@);
                                        assert forall|dt: int|
                                            0 <= dt < distractors@.len() implies exists|si: int|
                                            0 <= si < seen@.len() && (#[trigger] seen@[si])@ == (
                                            #[trigger] distractors@[dt]).0@ by {
                                            if dt < newdt {
                                                let si = choose|si: int|
                                                    0 <= si < seen_prev.len() && (
                                                    #[trigger] seen_prev[si])@
                                                        == dist_prev[dt].0@;
                                                assert(seen@[si]@ == distractors@[dt].0@);
                                            } else {
                                                assert(seen@[seen@.len() - 1]@
                                                    == distractors@[dt].0@);
                                            }
                                        }
                                        assert forall|dt: int|
                                            0 <= dt < newdt implies (#[trigger] distractors@[dt]).0@
                                            != cface@ by {
                                            let si = choose|si: int|
                                                0 <= si < seen_prev.len() && (
                                                #[trigger] seen_prev[si])@ == dist_prev[dt].0@;
                                            assert(seen_prev[si]@ != cface@);
                                        }
                                        assert(cface@ != av) by {
                                            assert(seen_prev[0]@ == av);
                                        }
                                        assert forall|si: int|
                                            0 <= si < seen@.len() implies ((#[trigger] seen@[si])@
                                            == av || (exists|dt: int|
                                            0 <= dt < distractors@.len() && (
                                            #[trigger] distractors@[dt]).0@ == seen@[si]@) || (
                                        exists|t: int|
                                            0 <= t < pool.len() && named_face_value(
                                                decks,
                                                (#[trigger] pool[t]).0,
                                                aname_s,
                                            ) == Some(seen@[si]@) && (named_face_value(
                                                decks,
                                                pool[t].0,
                                                qname_s,
                                            ) matches Some(w) && w == qface@))) by {
                                            if si < seen_prev.len() {
                                                if exists|dt: int|
                                                    0 <= dt < dist_prev.len() && (
                                                    #[trigger] dist_prev[dt]).0@
                                                        == seen_prev[si as int]@ {
                                                    let dt = choose|dt: int|
                                                        0 <= dt < dist_prev.len() && (
                                                        #[trigger] dist_prev[dt]).0@
                                                            == seen_prev[si as int]@;
                                                    assert(distractors@[dt].0@ == seen@[si]@);
                                                }
                                            } else {
                                                assert(seen@[si]@ == cface@);
                                                assert(distractors@[newdt].0@ == seen@[si]@);
                                            }
                                        }
                                        assert forall|v: FaceVal|
                                            (v != av && #[trigger] clean_value(
                                                decks,
                                                pool,
                                                aname_s,
                                                qname_s,
                                                qface@,
                                                v,
                                            )) implies ((exists|j: usize| #[trigger]
                                            prev.contains(j) && j < pool.len() && named_face_value(
                                                decks,
                                                pool[j as int].0,
                                                aname_s,
                                            ) == Some(v)) || (exists|dt: int|
                                            0 <= dt < distractors@.len() && (
                                            #[trigger] distractors@[dt]).0@ == v)) by {
                                            if exists|dt: int|
                                                0 <= dt < dist_prev.len() && (
                                                #[trigger] dist_prev[dt]).0@ == v {
                                                let dt = choose|dt: int|
                                                    0 <= dt < dist_prev.len() && (
                                                    #[trigger] dist_prev[dt]).0@ == v;
                                                assert(distractors@[dt].0@ == v);
                                            }
                                        }
                                        assert forall|v: FaceVal|
                                            (v != av && clean_value(
                                                decks,
                                                pool,
                                                aname_s,
                                                qname_s,
                                                qface@,
                                                v,
                                            ) && named_face_value(
                                                decks,
                                                pool[prev[i0] as int].0,
                                                aname_s,
                                            ) == Some(v)) implies (exists|dt: int|
                                            0 <= dt < distractors@.len() && (
                                            #[trigger] distractors@[dt]).0@ == v) by {
                                            assert(v == cface@);
                                            assert(distractors@[newdt].0@ == v);
                                        }
                                        lemma_coverage_step(
                                            decks,
                                            pool,
                                            aname_s,
                                            qname_s,
                                            qface@,
                                            av,
                                            prev,
                                            cand@,
                                            i0,
                                            distractors@,
                                        );
                                    }
                                } else {
                                    proof {
                                        assert(named_face_value(decks, cdc, qname_s) matches Some(
                                            w,
                                        ) && w == qface@);
                                        assert(!value_never_collides(
                                            decks,
                                            pool,
                                            aname_s,
                                            qname_s,
                                            qface@,
                                            cface@,
                                        )) by {
                                            if value_never_collides(
                                                decks,
                                                pool,
                                                aname_s,
                                                qname_s,
                                                qface@,
                                                cface@,
                                            ) {
                                                assert(0 <= (cidx as int) < pool.len()
                                                    && named_face_value(
                                                    decks,
                                                    pool[cidx as int].0,
                                                    aname_s,
                                                ) == Some(cface@));
                                                assert(false);
                                            }
                                        }
                                        assert forall|si: int|
                                            0 <= si < seen@.len() implies ((#[trigger] seen@[si])@
                                            == av || (exists|dt: int|
                                            0 <= dt < distractors@.len() && (
                                            #[trigger] distractors@[dt]).0@ == seen@[si]@) || (
                                        exists|t: int|
                                            0 <= t < pool.len() && named_face_value(
                                                decks,
                                                (#[trigger] pool[t]).0,
                                                aname_s,
                                            ) == Some(seen@[si]@) && (named_face_value(
                                                decks,
                                                pool[t].0,
                                                qname_s,
                                            ) matches Some(w) && w == qface@))) by {
                                            if si == seen_prev.len() as int {
                                                assert(seen@[si]@ == cface@);
                                                assert(0 <= (cidx as int) < pool.len()
                                                    && named_face_value(
                                                    decks,
                                                    pool[cidx as int].0,
                                                    aname_s,
                                                ) == Some(seen@[si]@) && (named_face_value(
                                                    decks,
                                                    pool[cidx as int].0,
                                                    qname_s,
                                                ) matches Some(w) && w == qface@));
                                            }
                                        }
                                        assert forall|v: FaceVal|
                                            (v != av && clean_value(
                                                decks,
                                                pool,
                                                aname_s,
                                                qname_s,
                                                qface@,
                                                v,
                                            ) && named_face_value(
                                                decks,
                                                pool[prev[i0] as int].0,
                                                aname_s,
                                            ) == Some(v)) implies (exists|dt: int|
                                            0 <= dt < distractors@.len() && (
                                            #[trigger] distractors@[dt]).0@ == v) by {
                                            assert(v == cface@);
                                            assert(false);
                                        }
                                        lemma_coverage_step(
                                            decks,
                                            pool,
                                            aname_s,
                                            qname_s,
                                            qface@,
                                            av,
                                            prev,
                                            cand@,
                                            i0,
                                            distractors@,
                                        );
                                    }
                                }
                            } else {
                                proof {
                                    let si = choose|si: int|
                                        0 <= si < seen@.len() && (#[trigger] seen@[si])@ == cface@;
                                    assert forall|v: FaceVal|
                                        (v != av && clean_value(
                                            decks,
                                            pool,
                                            aname_s,
                                            qname_s,
                                            qface@,
                                            v,
                                        ) && named_face_value(
                                            decks,
                                            pool[prev[i0] as int].0,
                                            aname_s,
                                        ) == Some(v)) implies (exists|dt: int|
                                        0 <= dt < distractors@.len() && (
                                        #[trigger] distractors@[dt]).0@ == v) by {
                                        assert(v == cface@);
                                        assert(seen@[si]@ == v);
                                        if exists|t: int|
                                            0 <= t < pool.len() && named_face_value(
                                                decks,
                                                (#[trigger] pool[t]).0,
                                                aname_s,
                                            ) == Some(seen@[si]@) && (named_face_value(
                                                decks,
                                                pool[t].0,
                                                qname_s,
                                            ) matches Some(w) && w == qface@) {
                                            let t = choose|t: int|
                                                0 <= t < pool.len() && named_face_value(
                                                    decks,
                                                    (#[trigger] pool[t]).0,
                                                    aname_s,
                                                ) == Some(seen@[si]@) && (named_face_value(
                                                    decks,
                                                    pool[t].0,
                                                    qname_s,
                                                ) matches Some(w) && w == qface@);
                                            assert(!value_never_collides(
                                                decks,
                                                pool,
                                                aname_s,
                                                qname_s,
                                                qface@,
                                                v,
                                            ));
                                            assert(false);
                                        }
                                    }
                                    lemma_coverage_step(
                                        decks,
                                        pool,
                                        aname_s,
                                        qname_s,
                                        qface@,
                                        av,
                                        prev,
                                        cand@,
                                        i0,
                                        distractors@,
                                    );
                                }
                            }
                        },
                    }
                },
            }
        }
        if distractors.len() < 3 {
            proof {
                assert(cand@.len() == 0);
                assert(!assured_supply(decks, pool, aname_s, qname_s, qface@, av)) by {
                    if assured_supply(decks, pool, aname_s, qname_s, qface@, av) {
                        let (v1, v2, v3) = choose|v1: FaceVal, v2: FaceVal, v3: FaceVal|
                            v1 != v2 && v1 != v3 && v2 != v3 && v1 != av && v2 != av && v3 != av
                                && #[trigger] clean_value(
                                decks,
                                pool,
                                aname_s,
                                qname_s,
                                qface@,
                                v1,
                            ) && #[trigger] clean_value(decks, pool, aname_s, qname_s, qface@, v2)
                                && #[trigger] clean_value(decks, pool, aname_s, qname_s, qface@, v3);
                        assert forall|j: usize| !(#[trigger] cand@.contains(j)) by {
                            if cand@.contains(j) {
                                let t = choose|t: int| 0 <= t < cand@.len() && cand@[t] == j;
                                assert(false);
                            }
                        }
                        assert(exists|dt: int|
                            0 <= dt < distractors@.len() && (#[trigger] distractors@[dt]).0@ == v1);
                        assert(exists|dt: int|
                            0 <= dt < distractors@.len() && (#[trigger] distractors@[dt]).0@ == v2);
                        assert(exists|dt: int|
                            0 <= dt < distractors@.len() && (#[trigger] distractors@[dt]).0@ == v3);
                        let dt1 = choose|dt: int|
                            0 <= dt < distractors@.len() && (#[trigger] distractors@[dt]).0@ == v1;
                        let dt2 = choose|dt: int|
                            0 <= dt < distractors@.len() && (#[trigger] distractors@[dt]).0@ == v2;
                        let dt3 = choose|dt: int|
                            0 <= dt < distractors@.len() && (#[trigger] distractors@[dt]).0@ == v3;
                        assert(dt1 != dt2 && dt1 != dt3 && dt2 != dt3);
                        assert(false);
                    }
                }
                assert(admissible_draw(decks, pool, self.filter_spec(), dc, qi as int, ai as int))
                    by {
                    assert(0 <= (p_idx as int) < pool.len() && (#[trigger] pool[p_idx as int]).0
                        == dc);
                }
                assert(draw_lacks_supply(decks, pool, dc, qi as int, ai as int));
            }
            let mut msg = String::new();
            msg.append("Cannot find enough answers for question ");
            let shown = qface.display();
            msg.append(shown.as_str());
            msg.append(", which is a \"");
            msg.append(qname.as_str());
            msg.append("\" face, from deck ");
            msg.append(deck.name.as_str());
            msg.append(", given answer face \"");
            msg.append(aname.as_str());
            msg.append("\"");
            proof {
                assert(msg@ =~= deck_mismatch_message(
                    crate::deck::face_display(qface@),
                    qname_s,
                    deck.name@,
                    aname_s,
                ));
            }
            return Some(Err(FlashrError::DeckMismatch(msg)));
        }
        let r_pos_raw = rand_below(rng, ANSWERS_PER_PROBLEM as u64);
        let r_pos = r_pos_raw as usize;
        let mut answers: Vec<(PromptCard, bool)> = Vec::with_capacity(ANSWERS_PER_PROBLEM);
        let mut t: usize = 0;
        while t < ANSWERS_PER_PROBLEM
            invariant
                t <= ANSWERS_PER_PROBLEM,
                r_pos < ANSWERS_PER_PROBLEM,
                answers@.len() == t,
                distractors@.len() == 3,
                aface@ == av,
                dc.valid(decks),
                (p_idx as int) < pool.len(),
                forall|tt: int| 0 <= tt < t ==> ((#[trigger] answers@[tt]).1 <==> tt == r_pos),
                forall|tt: int|
                    0 <= tt < t && tt != r_pos ==> (#[trigger] answers@[tt]).0.deck_card
                        == distractors@[dist_pos(tt, r_pos as int)].1 && answers@[tt].0.index
                        == distractors@[dist_pos(tt, r_pos as int)].2,
                forall|tt: int|
                    0 <= tt < t && tt != r_pos ==> ((#[trigger] distractors@[dist_pos(
                        tt,
                        r_pos as int,
                    )]).0@ matches FaceVal::Single(v) ==> answers@[tt].0.prompt@ == v),
                t > r_pos ==> answers@[r_pos as int].0.deck_card == dc && answers@[
                    r_pos as int
                ].0.index == p_idx,
                t > r_pos ==> (av matches FaceVal::Single(v) ==> answers@[
                    r_pos as int
                ].0.prompt@ == v),
            decreases ANSWERS_PER_PROBLEM - t,
        {
            if t == r_pos {
                let prompt = aface.join_random(aface.infer_separator(), rng);
                proof {
                    match av {
                        FaceVal::Single(v) => {
                            assert(aface matches Face::Single(s) && s@ == v);
                            assert(prompt@ == v);
                        },
                        FaceVal::Multi(_) => {},
                    }
                }
                answers.push((PromptCard { prompt, deck_card: dc, index: p_idx }, true));
            } else {
                let di = if t < r_pos {
                    t
                } else {
                    t - 1
                };
                let entry = &distractors[di];
                let prompt = entry.0.join_random(entry.0.infer_separator(), rng);
                proof {
                    match entry.0@ {
                        FaceVal::Single(v) => {
                            assert(entry.0 matches Face::Single(s) && s@ == v);
                            assert(prompt@ == v);
                        },
                        FaceVal::Multi(_) => {},
                    }
                }
                answers.push((PromptCard { prompt, deck_card: entry.1, index: entry.2 }, false));
            }
            t = t + 1;
        }
        let qprompt = qface.join_random(qface.infer_separator(), rng);
        proof {
            match qface@ {
                FaceVal::Single(v) => {
                    assert(qface matches Face::Single(s) && s@ == v);
                    assert(qprompt@ == v);
                },
                FaceVal::Multi(_) => {},
            }
        }
        let weights = if self.line {
            Some(self.weighted.weights())
        } else {
            None
        };
        let problem = MatchProblem {
            question: PromptCard { prompt: qprompt, deck_card: dc, index: p_idx },
            answers,
            answer_index: r_pos,
            weights,
        };
        proof {
            let plen = pool.len() as int;
            assert forall|tt: int|
                0 <= tt < problem.answers@.len() implies named_face_value(
                decks,
                (#[trigger] problem.answers@[tt]).0.deck_card,
                aname_s,
            ) is Some && problem.answers@[tt].0.deck_card.valid(decks) && problem.answers@[
                tt
            ].0.index < plen && pool[problem.answers@[tt].0.index as int].0 == problem.answers@[
                tt
            ].0.deck_card by {
                if tt != r_pos {
                    assert(problem.answers@[tt].0.deck_card == distractors@[dist_pos(
                        tt,
                        r_pos as int,
                    )].1);
                }
            }
            assert forall|t1: int, t2: int|
                0 <= t1 < t2 < problem.answers@.len() implies named_face_value(
                decks,
                (#[trigger] problem.answers@[t1]).0.deck_card,
                aname_s,
            ) != named_face_value(decks, (#[trigger] problem.answers@[t2]).0.deck_card, aname_s) by {
                let v1 = named_face_value(decks, problem.answers@[t1].0.deck_card, aname_s);
                let v2 = named_face_value(decks, problem.answers@[t2].0.deck_card, aname_s);
                if t1 == r_pos {
                    assert(v1 == Some(av));
                    assert(v2 == Some(distractors@[dist_pos(t2, r_pos as int)].0@));
                } else if t2 == r_pos {
                    assert(v2 == Some(av));
                    assert(v1 == Some(distractors@[dist_pos(t1, r_pos as int)].0@));
                } else {
                    assert(v1 == Some(distractors@[dist_pos(t1, r_pos as int)].0@));
                    assert(v2 == Some(distractors@[dist_pos(t2, r_pos as int)].0@));
                    assert(dist_pos(t1, r_pos as int) < dist_pos(t2, r_pos as int));
                }
            }
            assert forall|tt: int|
                0 <= tt < problem.answers@.len() implies (named_face_value(
                decks,
                (#[trigger] problem.answers@[tt]).0.deck_card,
                aname_s,
            ) matches Some(FaceVal::Single(v)) ==> problem.answers@[tt].0.prompt@ == v) by {
                if tt != r_pos {
                    assert(named_face_value(decks, problem.answers@[tt].0.deck_card, aname_s)
                        == Some(distractors@[dist_pos(tt, r_pos as int)].0@));
                } else {
                    assert(named_face_value(decks, dc, aname_s) == Some(av));
                }
            }
            assert forall|tt: int|
                0 <= tt < problem.answers@.len() && tt != problem.answer_index implies !(
            named_face_value(
                decks,
                (#[trigger] problem.answers@[tt]).0.deck_card,
                qname_s,
            ) matches Some(v) && dc.card_view(decks)[qi as int] == Some(v)) by {
                assert(problem.answers@[tt].0.deck_card == distractors@[dist_pos(
                    tt,
                    r_pos as int,
                )].1);
            }
            assert(problem_wf_with(decks, pool, self.filter_spec(), problem, qi as int, ai as int));
            assert(problem_wf(decks, pool, self.filter_spec(), problem));
        }
        Some(Ok(problem))
    }
}

impl MatchProblemIterator {
    /// One session step: the learner chose answer `answered` of
    /// `problem`. A correct choice rewards the question card; a wrong
    /// choice penalises both the question card and the card whose answer
    /// was mistakenly chosen; each freshly computed weight replaces that
    /// card's sampling weight in place. Returns whether the choice was
    /// correct.
    pub fn record_answer(
        &mut self,
        stats: &mut Stats,
        progress: &mut Progress,
        problem: &MatchProblem,
        answered: usize,
    ) -> (r: bool)
        requires
            old(self).wf(),
            old(stats).wf(),
            problem_wf(
                old(self).decks_spec(),
                old(self).pool(),
                old(self).filter_spec(),
                *problem,
            ),
            answered < problem.answers@.len(),
            old(progress).total < usize::MAX,
            old(progress).correct < usize::MAX,
            stats_lookup(
                old(stats)@,
                card_id_of(old(self).decks_spec(), problem.question.deck_card),
            ).correct < u32::MAX - 1,
            stats_lookup(
                old(stats)@,
                card_id_of(old(self).decks_spec(), problem.question.deck_card),
            ).incorrect < u32::MAX - 1,
            stats_lookup(
                old(stats)@,
                card_id_of(old(self).decks_spec(), problem.answers@[answered as int].0.deck_card),
            ).incorrect < u32::MAX - 1,
        ensures
            r == (answered == problem.answer_index),
            final(self).wf(),
            final(stats).wf(),
            final(self).decks_spec() == old(self).decks_spec(),
            final(self).filter_spec() == old(self).filter_spec(),
            final(self).line_spec() == old(self).line_spec(),
            final(self).pool().len() == old(self).pool().len(),
            (r ==> ({
                let qid = card_id_of(old(self).decks_spec(), problem.question.deck_card);
                let upd = after_correct(stats_lookup(old(stats)@, qid));
                &&& final(stats)@ == old(stats)@.insert(qid, upd)
                &&& final(self).pool() == old(self).pool().update(
                    problem.question.index as int,
                    (
                        old(self).pool()[problem.question.index as int].0,
                        weight_units(weight_of(upd)) as u64,
                    ),
                )
                &&& final(progress).correct == old(progress).correct + 1
                &&& final(progress).total == old(progress).total + 1
            })),
            (!r ==> ({
                let qid = card_id_of(old(self).decks_spec(), problem.question.deck_card);
                let aid = card_id_of(
                    old(self).decks_spec(),
                    problem.answers@[answered as int].0.deck_card,
                );
                let qupd = after_incorrect(stats_lookup(old(stats)@, qid));
                let mid = old(stats)@.insert(qid, qupd);
                let aupd = after_incorrect(stats_lookup(mid, aid));
                &&& final(stats)@ == mid.insert(aid, aupd)
                &&& final(self).pool() == old(self).pool().update(
                    problem.question.index as int,
                    (
                        old(self).pool()[problem.question.index as int].0,
                        weight_units(weight_of(qupd)) as u64,
                    ),
                ).update(
                    problem.answers@[answered as int].0.index as int,
                    (
                        old(self).pool().update(
                            problem.question.index as int,
                            (
                                old(self).pool()[problem.question.index as int].0,
                                weight_units(weight_of(qupd)) as u64,
                            ),
                        )[problem.answers@[answered as int].0.index as int].0,
                        weight_units(weight_of(aupd)) as u64,
                    ),
                )
                &&& final(progress).correct == old(progress).correct
                &&& final(progress).total == old(progress).total + 1
            })),
    {
        let ghost decks = self.decks_spec();
        proof {
            let (qi, ai) = choose|qi: int, ai: int|
                problem_wf_with(decks, self.pool(), self.filter_spec(), *problem, qi, ai);
            assert(problem.question.deck_card.valid(decks));
            assert(problem.answers@[answered as int].0.deck_card.valid(decks));
            assert(deck_valid(&decks[problem.question.deck_card.deck as int]));
            assert(count_present(problem.question.deck_card.card_view(decks)) >= 2);
            lemma_present_has_front(problem.question.deck_card.card_view(decks));
            assert(deck_valid(&decks[problem.answers@[answered as int].0.deck_card.deck as int]));
            assert(count_present(problem.answers@[answered as int].0.deck_card.card_view(decks))
                >= 2);
            lemma_present_has_front(problem.answers@[answered as int].0.deck_card.card_view(decks));
        }
        let correct = answered == problem.answer_index;
        let qdc = problem.question.deck_card;
        let qdeck = &self.decks[qdc.deck];
        let qid = CardId::get(qdeck, &qdeck.cards[qdc.card]);
        if correct {
            let w = stats.record_correct(&qid);
            self.change_weight(problem.question.index, &w);
            progress.add_correct();
            true
        } else {
            let w = stats.record_incorrect(&qid);
            self.change_weight(problem.question.index, &w);
            let adc = problem.answers[answered].0.deck_card;
            let aidx = problem.answers[answered].0.index;
            let adeck = &self.decks[adc.deck];
            let aid = CardId::get(adeck, &adeck.cards[adc.card]);
            proof {
                let qk = card_id_of(decks, qdc);
                let ak = card_id_of(decks, adc);
                if ak == qk {
                    assert(stats_lookup(stats@, ak).incorrect == stats_lookup(old(stats)@, qk)
                        .incorrect + 1);
                } else {
                    assert(stats_lookup(stats@, ak) == stats_lookup(old(stats)@, ak));
                }
            }
            let w2 = stats.record_incorrect(&aid);
            self.change_weight(aidx, &w2);
            progress.add_incorrect();
            false
        }
    }
}

/// The index of the (unique) face of `deck` named `name` at which `card`
/// has a present value.
fn find_named_face_index(deck: &Deck, card: &Card, name: &String) -> (r: Option<usize>)
    requires
        card@.len() == deck.faces@.len(),
    ensures
        r matches Some(i) ==> i < deck.faces@.len() && deck.faces@[i as int]@ == name@ && card@[
            i as int
        ] is Some,
        r is None ==> forall|i: int|
            0 <= i < deck.faces@.len() ==> !((#[trigger] deck.faces@[i])@ == name@ && card@[
                i
            ] is Some),
{
    let n = deck.faces.len();
    let mut i: usize = 0;
    while i < n
        invariant
            i <= n,
            n == deck.faces@.len(),
            card@.len() == deck.faces@.len(),
            forall|t: int|
                0 <= t < i ==> !((#[trigger] deck.faces@[t])@ == name@ && card@[t] is Some),
        decreases n - i,
    {
        if deck.faces[i] == *name {
            if card.face_at(i).is_some() {
                return Some(i);
            }
        }
        i = i + 1;
    }
    None
}

/// Whether a face with the same value was already seen.
fn seen_contains(seen: &Vec<Face>, f: &Face) -> (r: bool)
    ensures
        r == exists|t: int| 0 <= t < seen@.len() && (#[trigger] seen@[t])@ == f@,
{
    let n = seen.len();
    let mut i: usize = 0;
    while i < n
        invariant
            i <= n,
            n == seen@.len(),
            forall|t: int| 0 <= t < i ==> (#[trigger] seen@[t])@ != f@,
        decreases n - i,
    {
        if seen[i] == *f {
            return true;
        }
        i = i + 1;
    }
    false
}

/// A random present face index whose face name the filter selects,
/// drawn by examining the possible faces in random order.
fn pick_filtered_question(
    deck: &Deck,
    card: &Card,
    possible: &Vec<usize>,
    filter: &Vec<String>,
    rng: &mut rand::rngs::ThreadRng,
) -> (r: usize)
    requires
        card@.len() == deck.faces@.len(),
        forall|t: int|
            0 <= t < possible@.len() ==> (#[trigger] possible@[t]) < card@.len() && card@[
                possible@[t] as int
            ] is Some,
        exists|j: usize| #[trigger]
            possible@.contains(j) && j < deck.faces@.len() && name_in_filter(
                filter.deep_view(),
                deck.faces@[j as int]@,
            ),
    ensures
        r < card@.len(),
        card@[r as int] is Some,
        name_in_filter(filter.deep_view(), deck.faces@[r as int]@),
{
    let mut cand = copy_usize_vec(possible);
    loop
        invariant
            card@.len() == deck.faces@.len(),
            forall|t: int|
                0 <= t < cand@.len() ==> (#[trigger] cand@[t]) < card@.len() && card@[cand@[t] as int] is Some,
            exists|j: usize| #[trigger]
                cand@.contains(j) && j < deck.faces@.len() && name_in_filter(
                    filter.deep_view(),
                    deck.faces@[j as int]@,
                ),
        decreases cand@.len(),
    {
        let ghost prev = cand@;
        match vec_remove_random(&mut cand, rng) {
            None => {
                proof {
                    let j = choose|j: usize| #[trigger]
                        prev.contains(j) && j < deck.faces@.len() && name_in_filter(
                            filter.deep_view(),
                            deck.faces@[j as int]@,
                        );
                    assert(prev.len() > 0);
                    assert(false);
                }
                return unreached();
            },
            Some(idx) => {
                proof {
                    let i = choose|i: int|
                        0 <= i < prev.len() && idx == prev[i] && cand@ == prev.update(
                            i,
                            prev.last(),
                        ).drop_last();
                    assert(idx < card@.len() && card@[idx as int] is Some);
                }
                if string_vec_contains(filter, &deck.faces[idx]) {
                    return idx;
                }
                proof {
                    let i = choose|i: int|
                        0 <= i < prev.len() && idx == prev[i] && cand@ == prev.update(
                            i,
                            prev.last(),
                        ).drop_last();
                    assert forall|t: int|
                        0 <= t < cand@.len() implies ((#[trigger] cand@[t]) < card@.len()
                        && card@[cand@[t] as int] is Some) by {
                        if t == i {
                            assert(cand@[t] == prev[prev.len() - 1]);
                        } else {
                            assert(cand@[t] == prev[t]);
                        }
                    }
                    let j = choose|j: usize| #[trigger]
                        prev.contains(j) && j < deck.faces@.len() && name_in_filter(
                            filter.deep_view(),
                            deck.faces@[j as int]@,
                        );
                    assert(j != idx);
                    crate::random::lemma_swap_remove_still_contains(prev, i, j);
                    assert(cand@.contains(j));
                }
            },
        }
    }
}

/// A random present face index other than `qi`, drawn by examining the
/// possible faces in random order.
fn pick_answer_face(
    card: &Card,
    possible: &Vec<usize>,
    qi: usize,
    rng: &mut rand::rngs::ThreadRng,
) -> (r: usize)
    requires
        forall|t: int|
            0 <= t < possible@.len() ==> (#[trigger] possible@[t]) < card@.len() && card@[
                possible@[t] as int
            ] is Some,
        exists|j: usize| #[trigger] possible@.contains(j) && j != qi,
    ensures
        r < card@.len(),
        card@[r as int] is Some,
        r != qi,
{
    let mut cand = copy_usize_vec(possible);
    loop
        invariant
            forall|t: int|
                0 <= t < cand@.len() ==> (#[trigger] cand@[t]) < card@.len() && card@[cand@[t] as int] is Some,
            exists|j: usize| #[trigger] cand@.contains(j) && j != qi,
        decreases cand@.len(),
    {
        let ghost prev = cand@;
        match vec_remove_random(&mut cand, rng) {
            None => {
                proof {
                    let j = choose|j: usize| #[trigger] prev.contains(j) && j != qi;
                    assert(prev.len() > 0);
                    assert(false);
                }
                return unreached();
            },
            Some(idx) => {
                proof {
                    let i = choose|i: int|
                        0 <= i < prev.len() && idx == prev[i] && cand@ == prev.update(
                            i,
                            prev.last(),
                        ).drop_last();
                    assert(idx < card@.len() && card@[idx as int] is Some);
                }
                if idx != qi {
                    return idx;
                }
                proof {
                    let i = choose|i: int|
                        0 <= i < prev.len() && idx == prev[i] && cand@ == prev.update(
                            i,
                            prev.last(),
                        ).drop_last();
                    assert forall|t: int|
                        0 <= t < cand@.len() implies ((#[trigger] cand@[t]) < card@.len()
                        && card@[cand@[t] as int] is Some) by {
                        if t == i {
                            assert(cand@[t] == prev[prev.len() - 1]);
                        } else {
                            assert(cand@[t] == prev[t]);
                        }
                    }
                    let j = choose|j: usize| #[trigger] prev.contains(j) && j != qi;
                    assert(j != idx);
                    crate::random::lemma_swap_remove_still_contains(prev, i, j);
                    assert(cand@.contains(j));
                }
            },
        }
    }
}

/// What one answer button shows: its text, its position, and, once the
/// problem was answered, whether this answer is the correct one and
/// whether it was the chosen one.
#[derive(Debug)]
pub struct MatchAnswerWidget {
    pub answer: String,
    pub answer_index: usize,
    pub outcome: Option<(bool, bool)>,
}

impl MatchAnswerWidget {
    pub fn new(answer: String, answer_index: usize) -> (r: MatchAnswerWidget)
        ensures
            r.answer == answer,
            r.answer_index == answer_index,
            r.outcome is None,
    {
        MatchAnswerWidget { answer, answer_index, outcome: None }
    }

    pub fn answered(self, outcome: (bool, bool)) -> (r: MatchAnswerWidget)
        ensures
            r.answer == self.answer,
            r.answer_index == self.answer_index,
            r.outcome == Some(outcome),
    {
        MatchAnswerWidget { outcome: Some(outcome), ..self }
    }
}

/// A copy of an index vector.
fn copy_usize_vec(v: &Vec<usize>) -> (r: Vec<usize>)
    ensures
        r@ == v@,
{
    let mut buf: Vec<usize> = Vec::with_capacity(v.len());
    let mut i: usize = 0;
    while i < v.len()
        invariant
            i <= v@.len(),
            buf@ =~= v@.take(i as int),
        decreases v@.len() - i,
    {
        buf.push(v[i]);
        i = i + 1;
    }
    proof {
        assert(v@.take(v@.len() as int) =~= v@);
    }
    buf
}

} // verus!
